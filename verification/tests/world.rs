use raytracer::world::{Bounce, Surface, World, MAX_REFLECTIONS};

fn bits(x: f32) -> u32 {
    x.to_bits()
}

fn hit(t: f32) -> Option<u32> {
    Some(bits(t))
}

fn with_surface(w: &mut World, i: usize, reflective: f32, transparency: f32) {
    w.objects[i] = Surface { reflective: bits(reflective), transparency: bits(transparency) };
}

#[test]
fn default_world() {
    let w = World::default();
    assert_eq!(w.objects.len(), 2);
    assert_eq!(w.objects[0], World::default_sphere1());
    assert_eq!(w.objects[1], World::default_sphere2());
    assert_eq!(w.objects[0], Surface { reflective: bits(0.0), transparency: bits(0.0) });
}

// The ray from (0, 0, -5) along +z meets the outer sphere at 4 and 6 and the
// inner one at 4.5 and 5.5.
#[test]
fn intersect_world() {
    let w = World::default();
    let per_object = vec![vec![bits(4.0), bits(6.0)], vec![bits(4.5), bits(5.5)]];
    let hits: Vec<f32> = w.intersect(&per_object).iter().map(|x| f32::from_bits(x.t)).collect();
    assert_eq!(hits, vec!(4.0, 4.5, 5.5, 6.0));
    let objects: Vec<usize> = w.intersect(&per_object).iter().map(|x| x.object).collect();
    assert_eq!(objects, vec![0, 1, 1, 0]);
}

#[test]
fn intersect_orders_negative_distances_and_infinities() {
    let w = World { objects: vec![World::default_sphere1(); 3] };
    let per_object = vec![
        vec![bits(2.5), bits(-1.0)],
        vec![bits(f32::INFINITY), bits(-3.25)],
        vec![bits(0.0), bits(f32::NEG_INFINITY)],
    ];
    let hits: Vec<f32> = w.intersect(&per_object).iter().map(|x| f32::from_bits(x.t)).collect();
    assert_eq!(hits, vec![f32::NEG_INFINITY, -3.25, -1.0, 0.0, 2.5, f32::INFINITY]);
}

#[test]
fn intersect_keeps_ties_in_gathered_order() {
    let w = World { objects: vec![World::default_sphere1(); 3] };
    let per_object = vec![vec![bits(1.0), bits(0.0)], vec![bits(-0.0), bits(1.0)], vec![bits(0.0)]];
    let out = w.intersect(&per_object);
    let got: Vec<(u32, usize)> = out.iter().map(|x| (x.t, x.object)).collect();
    assert_eq!(
        got,
        vec![(bits(0.0), 0), (bits(-0.0), 1), (bits(0.0), 2), (bits(1.0), 0), (bits(1.0), 1)]
    );
}

#[test]
fn intersect_with_no_hits() {
    let w = World::default();
    assert!(w.intersect(&vec![vec![], vec![]]).is_empty());
}

#[test]
fn no_shadow_when_nothing_is_collinear_with_point_and_light() {
    let w = World::default();
    // From (0, 10, 0) towards the light at (-10, 10, -10) nothing is hit.
    assert_eq!(w.is_shadowed(None, bits(200f32.sqrt())), false);
}

#[test]
fn shadow_when_object_is_between_light_and_point() {
    let w = World::default();
    // From (10, -10, 10) the light lies 20 * sqrt(3) away; the outer sphere
    // is first met 10 * sqrt(3) - 1 along the way.
    let d = 20.0 * 3f32.sqrt();
    assert_eq!(w.is_shadowed(hit(10.0 * 3f32.sqrt() - 1.0), bits(d)), true);
}

#[test]
fn no_shadow_when_object_is_behind_the_light() {
    let w = World::default();
    // From (-20, 20, -20) the light lies 10 * sqrt(3) away, the spheres beyond it.
    let d = 10.0 * 3f32.sqrt();
    assert_eq!(w.is_shadowed(hit(20.0 * 3f32.sqrt() - 1.0), bits(d)), false);
}

#[test]
fn no_shadow_when_object_is_behind_the_point() {
    let w = World::default();
    // From (-2, 2, -2) towards the light the spheres lie behind: no hit.
    assert_eq!(w.is_shadowed(None, bits(8.0 * 3f32.sqrt())), false);
}

#[test]
fn hit_exactly_at_the_light_casts_no_shadow() {
    let w = World::default();
    assert_eq!(w.is_shadowed(hit(5.0), bits(5.0)), false);
    assert_eq!(w.is_shadowed(hit(4.999), bits(5.0)), true);
    assert_eq!(w.is_shadowed(hit(f32::NAN), bits(5.0)), false);
    assert_eq!(w.is_shadowed(hit(1.0), bits(f32::NAN)), false);
}

#[test]
fn reflected_color_for_nonreflective_material() {
    let w = World::default();
    assert_eq!(w.reflected_color(w.objects[1], 1), Bounce::Stop);
}

#[test]
fn reflected_color_for_reflective_material() {
    let mut w = World::default();
    w.objects.push(Surface { reflective: bits(0.5), transparency: bits(0.0) });
    assert_eq!(w.reflected_color(w.objects[2], 1), Bounce::Trace { remaining: 0 });
}

#[test]
fn reflected_color_at_maximum_recursive_depth() {
    let mut w = World::default();
    with_surface(&mut w, 0, 0.5, 0.0);
    assert_eq!(w.reflected_color(w.objects[0], 0), Bounce::Stop);
    with_surface(&mut w, 0, -0.0, 0.0);
    assert_eq!(w.reflected_color(w.objects[0], 3), Bounce::Stop);
}

#[test]
fn refracted_color_with_opaque_surface() {
    let w = World::default();
    assert_eq!(w.refracted_color(w.objects[0], MAX_REFLECTIONS, bits(0.0)), Bounce::Stop);
}

#[test]
fn refracted_color_at_maximum_recursive_depth() {
    let mut w = World::default();
    with_surface(&mut w, 0, 0.0, 1.0);
    assert_eq!(w.refracted_color(w.objects[0], 0, bits(0.0)), Bounce::Stop);
}

#[test]
fn refracted_color_under_total_internal_reflection() {
    let mut w = World::default();
    with_surface(&mut w, 0, 0.0, 1.0);
    // n1 / n2 = 1.5 and cos_i = sqrt(2) / 2 at the hit.
    let n_ratio: f32 = 1.5;
    let cos_i = 2f32.sqrt() / 2.0;
    let sin2_t = n_ratio.powf(2.0) * (1.0 - cos_i.powf(2.0));
    assert_eq!(w.refracted_color(w.objects[0], MAX_REFLECTIONS, bits(sin2_t)), Bounce::Stop);
}

#[test]
fn refracted_color_with_refracted_ray() {
    let mut w = World::default();
    with_surface(&mut w, 1, 0.0, 1.0);
    // Leaving the inner sphere (n1 = 1.5, n2 = 1.0) where cos_i = 0.9798.
    let n_ratio: f32 = 1.5;
    let cos_i: f32 = 0.9798;
    let sin2_t = n_ratio.powf(2.0) * (1.0 - cos_i.powf(2.0));
    assert_eq!(
        w.refracted_color(w.objects[1], MAX_REFLECTIONS, bits(sin2_t)),
        Bounce::Trace { remaining: MAX_REFLECTIONS - 1 }
    );
}

#[test]
fn refracted_color_at_the_critical_angle_is_traced() {
    let mut w = World::default();
    with_surface(&mut w, 0, 0.0, 0.5);
    assert_eq!(w.refracted_color(w.objects[0], 2, bits(1.0)), Bounce::Trace { remaining: 1 });
    assert_eq!(w.refracted_color(w.objects[0], 2, bits(f32::NAN)), Bounce::Trace { remaining: 1 });
    assert_eq!(w.refracted_color(w.objects[0], 2, bits(1.0000001)), Bounce::Stop);
}

#[test]
fn shade_combines_the_decisions() {
    let mut w = World::default();
    w.objects.push(Surface { reflective: bits(0.5), transparency: bits(0.5) });
    let sh = w.shade(w.objects[2], 1, hit(0.25), bits(17.0), bits(0.5));
    assert!(sh.in_shadow);
    assert_eq!(sh.reflected, Bounce::Trace { remaining: 0 });
    assert_eq!(sh.refracted, Bounce::Trace { remaining: 0 });
    let sh = w.shade(w.objects[0], 1, None, bits(17.0), bits(0.5));
    assert!(!sh.in_shadow);
    assert_eq!(sh.reflected, Bounce::Stop);
    assert_eq!(sh.refracted, Bounce::Stop);
}

// Between two facing mirrors a ray bounces exactly MAX_REFLECTIONS times.
#[test]
fn bounces_between_parallel_mirrors_end() {
    let mut w = World::default();
    w.objects.push(Surface { reflective: bits(1.0), transparency: bits(0.0) });
    w.objects.push(Surface { reflective: bits(1.0), transparency: bits(0.0) });
    let mut remaining = MAX_REFLECTIONS;
    let mut object = 3;
    let mut bounces = 0;
    while let Bounce::Trace { remaining: left } = w.reflected_color(w.objects[object], remaining) {
        bounces += 1;
        remaining = left;
        object = if object == 3 { 2 } else { 3 };
    }
    assert_eq!(bounces, MAX_REFLECTIONS);
}
