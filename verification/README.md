# raytracer

A ray tracer whose decisions are verified with Verus.

- `src/float_bits.rs`: comparisons of binary32 values given by their bit
  patterns (`<`, `== 0.0`, NaN), with the order laws they obey.
- `src/world.rs`: what a world decides while tracing: the order of the
  intersections along a ray (a stable sort by distance), whether a point lies
  in shadow, and when a reflected or refracted ray is followed; with the laws
  that the order is determined, the nearest intersection comes first and the
  recursion of tracing is bounded by the bounces allowed.
- `app/`: the floating-point side (cameras, geometry, lighting, the sums of
  colors), which computes the numbers the library decides on and follows its
  decisions; rendering in parallel uses rayon.
- `tests/`: tests of the library.
