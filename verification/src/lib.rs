use vstd::prelude::*;

pub mod float_bits;
pub mod world;

verus! {

} // verus!
