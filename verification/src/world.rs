//! The decisions a world makes while it traces rays: in which order the
//! intersections along a ray come, whether a point lies in shadow, and when a
//! reflected or refracted ray is followed. Every real number is a binary32
//! value given by its bit pattern (see `float_bits`).
use vstd::prelude::*;

use crate::float_bits::{self, is_zero, key, lt, ONE_BITS};

verus! {

/// How many times a ray may bounce off reflective or through transparent
/// surfaces when a picture is rendered.
pub const MAX_REFLECTIONS: usize = 4;

/// What the world's decisions read of a shape's material: its reflectivity
/// and its transparency, as binary32 bit patterns.
#[derive(Clone, Copy, Debug, PartialEq, Eq, Structural)]
pub struct Surface {
    pub reflective: u32,
    pub transparency: u32,
}

/// A point where a ray meets a shape: the distance `t` along the ray (a
/// binary32 bit pattern) and the index of the shape in the world.
#[derive(Clone, Copy, Debug, PartialEq, Eq, Structural)]
pub struct Intersection {
    pub t: u32,
    pub object: usize,
}

/// Whether a secondary ray is traced, and with how many bounces left.
#[derive(Clone, Copy, Debug, PartialEq, Eq, Structural)]
pub enum Bounce {
    /// Nothing is traced: the contribution is black.
    Stop,
    /// A ray is traced with `remaining` bounces left.
    Trace { remaining: usize },
}

/// What shading a hit needs: whether the point lies in shadow, and what
/// becomes of the reflected and of the refracted ray.
#[derive(Clone, Copy, Debug, PartialEq, Eq, Structural)]
pub struct Shading {
    pub in_shadow: bool,
    pub reflected: Bounce,
    pub refracted: Bounce,
}

/// The shapes of a scene, in the order in which they were added.
pub struct World {
    pub objects: Vec<Surface>,
}

/// The intersections of one shape, tagged with the shape's index.
pub open spec fn tagged(ts: Seq<u32>, object: int) -> Seq<Intersection> {
    ts.map_values(|t: u32| Intersection { t, object: object as usize })
}

/// All intersections of the shapes, shape after shape, each shape's in the
/// order the shape reported them.
pub open spec fn gathered(lists: Seq<Vec<u32>>) -> Seq<Intersection>
    decreases lists.len(),
{
    if lists.len() == 0 {
        Seq::empty()
    } else {
        gathered(lists.drop_last()) + tagged(lists.last()@, lists.len() - 1)
    }
}

/// The order in which intersections are listed: by `t`, nearest first.
pub open spec fn sorted_by_t(s: Seq<Intersection>) -> bool {
    forall|i: int, j: int| 0 <= i < j < s.len() ==> key(s[i].t) <= key(s[j].t)
}

/// Selects the intersections whose `t` lies at position `k` of the number line.
pub open spec fn at_t(k: int) -> spec_fn(Intersection) -> bool {
    |x: Intersection| key(x.t) == k
}

/// `sorted` lists the intersections of `original` by `t`, and those with equal
/// `t` in the order they had in `original`.
pub open spec fn stable_sort_of(sorted: Seq<Intersection>, original: Seq<Intersection>) -> bool {
    &&& sorted_by_t(sorted)
    &&& forall|k: int| #[trigger] sorted.filter(at_t(k)) == original.filter(at_t(k))
}

/// Whether a shadow ray whose first hit lies at `hit` (if any) is blocked
/// before it reaches the light at `distance`.
pub open spec fn blocked(hit: Option<u32>, distance: u32) -> bool {
    match hit {
        Some(t) => lt(t, distance),
        None => false,
    }
}

/// The shading of a hit on `s` with `remaining` bounces left.
pub open spec fn shading(
    s: Surface,
    remaining: usize,
    shadow_hit: Option<u32>,
    light_distance: u32,
    sin2_t: u32,
) -> Shading {
    Shading {
        in_shadow: blocked(shadow_hit, light_distance),
        reflected: reflection(s, remaining),
        refracted: refraction(s, remaining, sin2_t),
    }
}

/// The surface of a shape whose material neither reflects nor lets light
/// through: both coefficients are `0.0`.
pub open spec fn matte() -> Surface {
    Surface { reflective: 0, transparency: 0 }
}

/// The reflected ray: followed with one bounce less, unless no bounce is left
/// or the surface does not reflect.
pub open spec fn reflection(s: Surface, remaining: usize) -> Bounce {
    if remaining == 0 || is_zero(s.reflective) {
        Bounce::Stop
    } else {
        Bounce::Trace { remaining: (remaining - 1) as usize }
    }
}

/// The refracted ray: followed with one bounce less, unless no bounce is left,
/// the surface is opaque, or the light is totally reflected inside
/// (`sin2_t > 1.0`).
pub open spec fn refraction(s: Surface, remaining: usize, sin2_t: u32) -> Bounce {
    if remaining == 0 || is_zero(s.transparency) || lt(ONE_BITS, sin2_t) {
        Bounce::Stop
    } else {
        Bounce::Trace { remaining: (remaining - 1) as usize }
    }
}

proof fn lemma_filter_single(x: Intersection, p: spec_fn(Intersection) -> bool)
    ensures
        seq![x].filter(p) == (if p(x) { seq![x] } else { Seq::<Intersection>::empty() }),
{
    reveal(Seq::filter);
    assert(seq![x].drop_last() =~= Seq::<Intersection>::empty());
    reveal_with_fuel(Seq::filter, 2);
    if p(x) {
        assert(Seq::<Intersection>::empty().push(x) =~= seq![x]);
    }
}

proof fn lemma_filter_none(s: Seq<Intersection>, p: spec_fn(Intersection) -> bool)
    requires
        forall|i: int| 0 <= i < s.len() ==> !p(#[trigger] s[i]),
    ensures
        s.filter(p) == Seq::<Intersection>::empty(),
    decreases s.len(),
{
    reveal(Seq::filter);
    if s.len() > 0 {
        lemma_filter_none(s.drop_last(), p);
    }
}

impl World {
    /// The first sphere of the default world: its material reflects nothing
    /// and lets no light through.
    pub fn default_sphere1() -> (s: Surface)
        ensures
            s == matte(),
    {
        Surface { reflective: 0, transparency: 0 }
    }

    /// The second sphere of the default world, which differs from the first
    /// only in its size: a matte surface too.
    pub fn default_sphere2() -> (s: Surface)
        ensures
            s == matte(),
    {
        Surface { reflective: 0, transparency: 0 }
    }

    /// The default world: the two default spheres, in this order.
    pub fn default() -> (w: World)
        ensures
            w.objects@ == seq![matte(), matte()],
    {
        let s1 = Self::default_sphere1();
        let s2 = Self::default_sphere2();
        World { objects: vec![s1, s2] }
    }

    /// Whether a point lies in shadow. `hit` is the distance `t` of the first
    /// hit (if any) of the ray from the point towards the light, and
    /// `distance` is the distance from the point to the light: the point lies
    /// in shadow exactly when that hit comes before the light
    /// (`t < distance`).
    pub fn is_shadowed(&self, hit: Option<u32>, distance: u32) -> (r: bool)
        ensures
            r == blocked(hit, distance),
    {
        match hit {
            Some(t) => float_bits::less(t, distance),
            None => false,
        }
    }

    /// What becomes of the ray reflected at a hit on a shape whose material
    /// is `surface`, when `remaining` bounces are left: it is followed with
    /// one bounce less, unless no bounce is left or the material does not
    /// reflect (`reflective == 0.0`), in which case the reflected color is
    /// black.
    pub fn reflected_color(&self, surface: Surface, remaining: usize) -> (b: Bounce)
        ensures
            b == reflection(surface, remaining),
    {
        if remaining == 0 || float_bits::zero(surface.reflective) {
            Bounce::Stop
        } else {
            Bounce::Trace { remaining: remaining - 1 }
        }
    }

    /// What becomes of the ray refracted at a hit on a shape whose material is
    /// `surface`, when `remaining` bounces are left; `sin2_t` is the squared
    /// sine of the refraction angle that Snell's law gives at the hit. The ray
    /// is followed with one bounce less, unless no bounce is left, the
    /// material is opaque (`transparency == 0.0`), or the light is totally
    /// reflected inside (`sin2_t > 1.0`); then the refracted color is black.
    pub fn refracted_color(&self, surface: Surface, remaining: usize, sin2_t: u32) -> (b: Bounce)
        ensures
            b == refraction(surface, remaining, sin2_t),
    {
        if remaining == 0 || float_bits::zero(surface.transparency) {
            Bounce::Stop
        } else if float_bits::less(ONE_BITS, sin2_t) {
            Bounce::Stop
        } else {
            Bounce::Trace { remaining: remaining - 1 }
        }
    }

    /// How a hit on a shape whose material is `surface` is shaded with
    /// `remaining` bounces left: the surface color is lit unless the point
    /// lies in shadow (see [`World::is_shadowed`]; `shadow_hit` is the first
    /// hit of the ray from the point towards the light, which lies
    /// `light_distance` away), and the reflected and refracted colors are
    /// added as [`World::reflected_color`] and [`World::refracted_color`]
    /// decide.
    pub fn shade(
        &self,
        surface: Surface,
        remaining: usize,
        shadow_hit: Option<u32>,
        light_distance: u32,
        sin2_t: u32,
    ) -> (sh: Shading)
        ensures
            sh == shading(surface, remaining, shadow_hit, light_distance, sin2_t),
    {
        let in_shadow = self.is_shadowed(shadow_hit, light_distance);
        let reflected = self.reflected_color(surface, remaining);
        let refracted = self.refracted_color(surface, remaining, sin2_t);
        Shading { in_shadow, reflected, refracted }
    }

    /// Lists the intersections of a ray with every shape of the world, nearest
    /// first. `per_object[i]` holds the distances at which the ray meets shape
    /// `i`; intersections at equal distances keep the order in which they were
    /// gathered, shape after shape.
    pub fn intersect(&self, per_object: &Vec<Vec<u32>>) -> (out: Vec<Intersection>)
        requires
            per_object.len() == self.objects.len(),
        ensures
            stable_sort_of(out@, gathered(per_object@)),
            out@.to_multiset() == gathered(per_object@).to_multiset(),
    {
        let gathered_all = Self::gather(per_object);
        let ghost g = gathered_all@;
        let mut out: Vec<Intersection> = Vec::new();
        let n = gathered_all.len();
        proof {
            assert(out@ =~= g.take(0));
        }
        for k in 0..n
            invariant
                n == g.len(),
                gathered_all@ == g,
                sorted_by_t(out@),
                forall|c: int| #[trigger] out@.filter(at_t(c)) == g.take(k as int).filter(at_t(c)),
                out@.to_multiset() == g.take(k as int).to_multiset(),
        {
            let x = gathered_all[k];
            let kx = float_bits::order_key(x.t);
            let mut p = out.len();
            while p > 0 && float_bits::order_key(out[p - 1].t) > kx
                invariant
                    p <= out.len(),
                    kx == key(x.t),
                    forall|i: int| p <= i < out.len() ==> key(#[trigger] out@[i].t) > key(x.t),
                decreases p,
            {
                p = p - 1;
            }
            let ghost before = out@;
            proof {
                // Everything before position `p` lies at or before `x`.
                assert forall|i: int| 0 <= i < p implies key(#[trigger] before[i].t) <= key(x.t) by {
                    if p > 0 {
                        assert(key(before[p - 1].t) <= key(x.t));
                        assert(key(before[i].t) <= key(before[p - 1].t));
                    }
                }
            }
            out.insert(p, x);
            proof {
                let a = before.take(p as int);
                let b = before.skip(p as int);
                assert(before =~= a + b);
                assert(out@ =~= a + seq![x] + b);
                assert(g.take(k + 1) =~= g.take(k as int) + seq![x]);
                vstd::seq_lib::to_multiset_insert(before, p as int, x);
                vstd::seq_lib::to_multiset_build(g.take(k as int), x);
                assert(g.take(k as int).push(x) =~= g.take(k + 1));
                assert forall|c: int| #[trigger] out@.filter(at_t(c)) == g.take(k + 1).filter(at_t(c)) by {
                    Seq::filter_distributes_over_add(a + seq![x], b, at_t(c));
                    Seq::filter_distributes_over_add(a, seq![x], at_t(c));
                    Seq::filter_distributes_over_add(a, b, at_t(c));
                    Seq::filter_distributes_over_add(g.take(k as int), seq![x], at_t(c));
                    lemma_filter_single(x, at_t(c));
                    if c == key(x.t) {
                        assert forall|i: int| 0 <= i < b.len() implies !at_t(c)(#[trigger] b[i]) by {
                            assert(b[i] == before[p + i]);
                        }
                        lemma_filter_none(b, at_t(c));
                    }
                }
                assert forall|i: int, j: int| 0 <= i < j < out@.len() implies key(out@[i].t) <= key(out@[j].t) by {
                    if j < p {
                    } else if j == p {
                    } else if i < p {
                        assert(out@[j] == before[j - 1]);
                    } else if i == p {
                        assert(out@[j] == before[j - 1]);
                    } else {
                        assert(out@[i] == before[i - 1]);
                        assert(out@[j] == before[j - 1]);
                    }
                }
            }
        }
        proof {
            assert(g.take(n as int) =~= g);
        }
        out
    }

    /// All intersections of the shapes, shape after shape.
    fn gather(per_object: &Vec<Vec<u32>>) -> (g: Vec<Intersection>)
        ensures
            g@ == gathered(per_object@),
    {
        let mut g: Vec<Intersection> = Vec::new();
        let n = per_object.len();
        for i in 0..n
            invariant
                n == per_object.len(),
                g@ == gathered(per_object@.take(i as int)),
        {
            let ts = &per_object[i];
            let m = ts.len();
            let ghost start = g@;
            for j in 0..m
                invariant
                    m == ts.len(),
                    g@ == start + tagged(ts@.take(j as int), i as int),
            {
                g.push(Intersection { t: ts[j], object: i });
                proof {
                    assert(tagged(ts@.take(j + 1), i as int) =~= tagged(ts@.take(j as int), i as int).push(
                        Intersection { t: ts@[j as int], object: i },
                    ));
                }
            }
            proof {
                assert(ts@.take(m as int) =~= ts@);
                assert(per_object@.take(i + 1).drop_last() =~= per_object@.take(i as int));
            }
        }
        proof {
            assert(per_object@.take(n as int) =~= per_object@);
        }
        g
    }
}

/// One step down the tree of rays: a hit on surface `surface`, the squared
/// sine `sin2_t` of its refraction angle, and whether the reflected
/// (`true`) or the refracted (`false`) ray is followed.
pub struct Step {
    pub surface: Surface,
    pub sin2_t: u32,
    pub reflect: bool,
}

/// The bounces left after following `steps` from a ray traced with
/// `remaining` bounces, or `None` when some step is not traced.
pub open spec fn budget_after(remaining: usize, steps: Seq<Step>) -> Option<usize>
    decreases steps.len(),
{
    if steps.len() == 0 {
        Some(remaining)
    } else {
        match budget_after(remaining, steps.drop_last()) {
            Some(r) => {
                let st = steps.last();
                let b = if st.reflect {
                    reflection(st.surface, r)
                } else {
                    refraction(st.surface, r, st.sin2_t)
                };
                match b {
                    Bounce::Trace { remaining: left } => Some(left),
                    Bounce::Stop => None,
                }
            },
            None => None,
        }
    }
}

/// Every ray that shading follows has one bounce less than the ray whose hit
/// it shades, and with no bounce left neither the reflected nor the refracted
/// ray is followed.
pub proof fn lemma_bounce_descends(s: Surface, remaining: usize, sin2_t: u32)
    ensures
        reflection(s, remaining) matches Bounce::Trace { remaining: r } ==> r + 1 == remaining,
        refraction(s, remaining, sin2_t) matches Bounce::Trace { remaining: r } ==> r + 1
            == remaining,
        remaining == 0 ==> reflection(s, remaining) == Bounce::Stop,
        remaining == 0 ==> refraction(s, remaining, sin2_t) == Bounce::Stop,
{
}

/// A ray traced with `remaining` bounces starts a tree of rays no path of
/// which follows more than `remaining` reflections and refractions, whatever
/// the surfaces it meets: the recursion of tracing ends, also between two
/// mirrors facing each other.
pub proof fn lemma_bounded_recursion(remaining: usize, steps: Seq<Step>)
    ensures
        budget_after(remaining, steps) matches Some(r) ==> r + steps.len() == remaining,
        budget_after(remaining, steps) is Some ==> steps.len() <= remaining,
    decreases steps.len(),
{
    if steps.len() > 0 {
        lemma_bounded_recursion(remaining, steps.drop_last());
    }
}

/// The first intersection that `World::intersect` lists is the nearest one:
/// none of the gathered intersections lies before it.
pub proof fn lemma_nearest_first(out: Seq<Intersection>, original: Seq<Intersection>)
    requires
        stable_sort_of(out, original),
        out.to_multiset() == original.to_multiset(),
    ensures
        forall|i: int| 0 <= i < original.len() ==> key(out[0].t) <= key(#[trigger] original[i].t),
{
    broadcast use vstd::seq_lib::group_to_multiset_ensures;

    assert forall|i: int| 0 <= i < original.len() implies key(out[0].t) <= key(
        #[trigger] original[i].t,
    ) by {
        assert(original.contains(original[i]));
        assert(original.to_multiset().count(original[i]) > 0);
        assert(out.contains(original[i]));
        let j = choose|j: int| 0 <= j < out.len() && out[j] == original[i];
        if j > 0 {
            assert(key(out[0].t) <= key(out[j].t));
        }
    }
}

/// Listing by `t` with ties in their original order leaves no choice: two
/// lists that both sort the same intersections so are equal. The order that
/// `World::intersect` returns is therefore fully determined.
pub proof fn lemma_stable_sort_unique(a: Seq<Intersection>, b: Seq<Intersection>, original: Seq<Intersection>)
    requires
        stable_sort_of(a, original),
        stable_sort_of(b, original),
    ensures
        a == b,
    decreases a.len() + b.len(),
{
    reveal(Seq::filter);
    if a.len() == 0 && b.len() == 0 {
        assert(a =~= b);
    } else if a.len() == 0 {
        lemma_filter_has_last(b);
        let k = key(b.last().t);
        assert(a.filter(at_t(k)) == original.filter(at_t(k)));
        assert(b.filter(at_t(k)) == original.filter(at_t(k)));
    } else if b.len() == 0 {
        lemma_filter_has_last(a);
        let k = key(a.last().t);
        assert(a.filter(at_t(k)) == original.filter(at_t(k)));
        assert(b.filter(at_t(k)) == original.filter(at_t(k)));
    } else {
        let ka = key(a.last().t);
        let kb = key(b.last().t);
        lemma_filter_has_last(a);
        lemma_filter_has_last(b);
        assert(a.filter(at_t(ka)) == original.filter(at_t(ka)));
        assert(b.filter(at_t(ka)) == original.filter(at_t(ka)));
        assert(a.filter(at_t(kb)) == original.filter(at_t(kb)));
        assert(b.filter(at_t(kb)) == original.filter(at_t(kb)));
        // The largest `t` of each list occurs in the other one.
        lemma_filter_in(b, at_t(ka));
        lemma_filter_in(a, at_t(kb));
        assert(ka == kb);
        let a2 = a.drop_last();
        let b2 = b.drop_last();
        assert(a.last() == b.last());
        assert forall|c: int| #[trigger] a2.filter(at_t(c)) == b2.filter(at_t(c)) by {
            assert(a.filter(at_t(c)) == original.filter(at_t(c)));
            assert(b.filter(at_t(c)) == original.filter(at_t(c)));
            if c == ka {
                assert(a2.filter(at_t(c)) =~= a.filter(at_t(c)).drop_last());
                assert(b2.filter(at_t(c)) =~= b.filter(at_t(c)).drop_last());
            }
        }
        assert(stable_sort_of(b2, a2)) by {
            assert forall|c: int| #[trigger] b2.filter(at_t(c)) == a2.filter(at_t(c)) by {
                assert(a2.filter(at_t(c)) == b2.filter(at_t(c)));
            }
        }
        assert(stable_sort_of(a2, a2)) by {
            assert forall|c: int| #[trigger] a2.filter(at_t(c)) == a2.filter(at_t(c)) by {}
        }
        lemma_stable_sort_unique(a2, b2, a2);
        assert(a =~= a2.push(a.last()));
        assert(b =~= b2.push(b.last()));
    }
}

/// A non-empty list ends with the last element of its intersections at the
/// `t` of its last element.
proof fn lemma_filter_has_last(s: Seq<Intersection>)
    requires
        s.len() > 0,
    ensures
        s.filter(at_t(key(s.last().t))) == s.drop_last().filter(at_t(key(s.last().t))).push(s.last()),
        s.filter(at_t(key(s.last().t))).len() > 0,
{
    reveal(Seq::filter);
}

/// What a filter keeps comes from the filtered list; in a list sorted by `t`
/// it lies no later than the last element.
proof fn lemma_filter_in(s: Seq<Intersection>, p: spec_fn(Intersection) -> bool)
    requires
        sorted_by_t(s),
        s.len() > 0,
        s.filter(p).len() > 0,
    ensures
        exists|i: int| 0 <= i < s.len() && p(s[i]) && s[i] == s.filter(p).last(),
        key(s.filter(p).last().t) <= key(s.last().t),
{
    broadcast use Seq::lemma_filter_pred;

    let x = s.filter(p).last();
    s.lemma_filter_contains_rev(p, x);
    let i = choose|i: int| 0 <= i < s.len() && s[i] == x;
    if i < s.len() - 1 {
        assert(key(s[i].t) <= key(s[s.len() - 1].t));
    }
}

/// The intersections of one shape, tagged: one for each distance, in the
/// same order, each carrying that distance and the shape's index.
pub proof fn lemma_tagged(ts: Seq<u32>, object: int)
    ensures
        tagged(ts, object).len() == ts.len(),
        forall|j: int|
            0 <= j < ts.len() ==> #[trigger] tagged(ts, object)[j] == (Intersection {
                t: ts[j],
                object: object as usize,
            }),
{
}

/// Adding a shape adds its intersections, tagged with its index, after those
/// of the shapes before it.
pub proof fn lemma_gathered_push(lists: Seq<Vec<u32>>, l: Vec<u32>)
    ensures
        gathered(lists.push(l)) == gathered(lists) + tagged(l@, lists.len() as int),
{
    assert(lists.push(l).drop_last() =~= lists);
}

/// Every intersection of every shape is gathered: distance `j` of shape `i`
/// occurs, tagged with `i`.
pub proof fn lemma_gathered_complete(lists: Seq<Vec<u32>>, i: int, j: int)
    requires
        0 <= i < lists.len(),
        0 <= j < lists[i]@.len(),
    ensures
        exists|k: int|
            0 <= k < gathered(lists).len() && #[trigger] gathered(lists)[k] == (Intersection {
                t: lists[i]@[j],
                object: i as usize,
            }),
    decreases lists.len(),
{
    let rest = lists.drop_last();
    if i == lists.len() - 1 {
        let k = gathered(rest).len() + j;
        assert(gathered(lists)[k] == tagged(lists.last()@, i)[j]);
    } else {
        lemma_gathered_complete(rest, i, j);
        let k = choose|k: int|
            0 <= k < gathered(rest).len() && #[trigger] gathered(rest)[k] == (Intersection {
                t: rest[i]@[j],
                object: i as usize,
            });
        assert(gathered(lists)[k] == gathered(rest)[k]);
    }
}

/// Nothing but the shapes' intersections is gathered, and their number is
/// the sum of the shapes' numbers of intersections: each gathered entry is
/// distance `j` of some shape `i`, tagged with `i`, and the entries of shape
/// `i` come after those of the shapes before it.
pub proof fn lemma_gathered_sound(lists: Seq<Vec<u32>>, k: int)
    requires
        0 <= k < gathered(lists).len(),
    ensures
        exists|i: int, j: int|
            0 <= i < lists.len() && 0 <= j < lists[i]@.len() && gathered(lists)[k] == (
            Intersection { t: #[trigger] lists[i]@[j], object: i as usize }),
    decreases lists.len(),
{
    let rest = lists.drop_last();
    let i = lists.len() - 1;
    if k < gathered(rest).len() {
        lemma_gathered_sound(rest, k);
        let (i0, j0) = choose|i0: int, j0: int|
            0 <= i0 < rest.len() && 0 <= j0 < rest[i0]@.len() && gathered(rest)[k] == (
            Intersection { t: #[trigger] rest[i0]@[j0], object: i0 as usize });
        assert(lists[i0] == rest[i0]);
    } else {
        let j = k - gathered(rest).len();
        assert(gathered(lists)[k] == tagged(lists.last()@, i)[j]);
        assert(lists[i]@[j] == lists.last()@[j]);
    }
}

/// The number of intersections gathered from `lists`.
pub open spec fn count_all(lists: Seq<Vec<u32>>) -> int
    decreases lists.len(),
{
    if lists.len() == 0 {
        0
    } else {
        count_all(lists.drop_last()) + lists.last()@.len()
    }
}

/// As many intersections are gathered as the shapes have, all together.
pub proof fn lemma_gathered_len(lists: Seq<Vec<u32>>)
    ensures
        gathered(lists).len() == count_all(lists),
    decreases lists.len(),
{
    if lists.len() > 0 {
        lemma_gathered_len(lists.drop_last());
    }
}

/// In the list that `World::intersect` returns, of two intersections at
/// distances that are neither negative nor NaN, the earlier one's bit
/// pattern is not above the later one's: nearer hits come first.
pub proof fn lemma_sorted_bits(out: Seq<Intersection>, original: Seq<Intersection>, i: int, j: int)
    requires
        stable_sort_of(out, original),
        0 <= i < j < out.len(),
        out[i].t <= 0x7f80_0000,
        out[j].t <= 0x7f80_0000,
    ensures
        out[i].t <= out[j].t,
{
    crate::float_bits::lemma_key_order(out[i].t, out[j].t);
}

/// A shadow ray's first hit at `t` blocks the light at `distance` exactly
/// when `t < distance`; for distances that are neither negative nor NaN this
/// is the order of the bit patterns. With no hit nothing is blocked.
pub proof fn lemma_blocked_bits(hit: Option<u32>, distance: u32)
    ensures
        hit is None ==> !blocked(hit, distance),
        hit matches Some(t) ==> t <= 0x7f80_0000 && distance <= 0x7f80_0000 ==> (blocked(
            hit,
            distance,
        ) <==> t < distance),
{
    if let Some(t) = hit {
        crate::float_bits::lemma_lt_bits(t, distance);
    }
}

/// The reflected ray, stated on the bit patterns: it is followed, with one
/// bounce less, exactly when a bounce is left and the reflectivity is neither
/// `0.0` (`0x0000_0000`) nor `-0.0` (`0x8000_0000`); otherwise it is not.
pub proof fn lemma_reflection_bits(s: Surface, remaining: usize)
    ensures
        remaining > 0 && s.reflective != 0 && s.reflective != 0x8000_0000 ==> reflection(
            s,
            remaining,
        ) == (Bounce::Trace { remaining: (remaining - 1) as usize }),
        remaining == 0 || s.reflective == 0 || s.reflective == 0x8000_0000 ==> reflection(
            s,
            remaining,
        ) == Bounce::Stop,
{
}

/// The refracted ray, stated on the bit patterns: it is not followed when no
/// bounce is left, when the transparency is `0.0` or `-0.0`, or when
/// `sin2_t > 1.0` (`sin2_t` positive and above `1.0` = `0x3f80_0000`, up to
/// and including infinity `0x7f80_0000`); otherwise it is followed with one
/// bounce less, whatever the (non-zero) transparency.
pub proof fn lemma_refraction_bits(s: Surface, remaining: usize, sin2_t: u32)
    ensures
        ({
            let total_reflection = 0x3f80_0000 < sin2_t && sin2_t <= 0x7f80_0000;
            &&& (remaining > 0 && s.transparency != 0 && s.transparency != 0x8000_0000
                && !total_reflection) ==> refraction(s, remaining, sin2_t) == (Bounce::Trace { remaining: (remaining - 1) as usize })
            &&& (remaining == 0 || s.transparency == 0 || s.transparency == 0x8000_0000
                || total_reflection) ==> refraction(s, remaining, sin2_t) == Bounce::Stop
        }),
{
    crate::float_bits::lemma_lt_bits(ONE_BITS, sin2_t);
}

/// Shading a hit on `s`: the reflected ray depends on the reflectivity alone
/// and the refracted ray on the transparency (and `sin2_t`) alone, each with
/// one bounce less; the shadow on the shadow ray's hit alone.
pub proof fn lemma_shading_parts(
    s: Surface,
    remaining: usize,
    shadow_hit: Option<u32>,
    light_distance: u32,
    sin2_t: u32,
)
    ensures
        ({
            let sh = shading(s, remaining, shadow_hit, light_distance, sin2_t);
            let total_reflection = 0x3f80_0000 < sin2_t && sin2_t <= 0x7f80_0000;
            &&& (remaining > 0 && s.reflective != 0 && s.reflective != 0x8000_0000)
                ==> sh.reflected == (Bounce::Trace { remaining: (remaining - 1) as usize })
            &&& (remaining == 0 || s.reflective == 0 || s.reflective == 0x8000_0000)
                ==> sh.reflected == Bounce::Stop
            &&& (remaining > 0 && s.transparency != 0 && s.transparency != 0x8000_0000
                && !total_reflection) ==> sh.refracted == (Bounce::Trace { remaining: (remaining - 1) as usize })
            &&& (remaining == 0 || s.transparency == 0 || s.transparency == 0x8000_0000
                || total_reflection) ==> sh.refracted == Bounce::Stop
            &&& shadow_hit is None ==> !sh.in_shadow
            &&& shadow_hit matches Some(t) ==> t <= 0x7f80_0000 && light_distance
                <= 0x7f80_0000 ==> (sh.in_shadow <==> t < light_distance)
        }),
{
    lemma_reflection_bits(s, remaining);
    lemma_refraction_bits(s, remaining, sin2_t);
    lemma_blocked_bits(shadow_hit, light_distance);
}

} // verus!
