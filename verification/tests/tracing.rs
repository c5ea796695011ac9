use image::GenericImageView;
use raytracer::camera::{ray_through, SceneError};
use raytracer::scalar::Scalar;
use raytracer::scene::{Scene, Sphere, Vec3};
use raytracer::tracer::{direct_light, mix, nearest_hit, transmission};
use raytracer::{render, trace};

// The same computation in the machine's own binary32 arithmetic, to compare with.

#[derive(Clone, Copy)]
struct V(f32, f32, f32);

#[derive(Clone, Copy)]
struct Ball {
    center: V,
    radius2: f32,
    surface: V,
    emission: V,
    transparency: f32,
    reflection: f32,
}

fn vadd(a: V, b: V) -> V {
    V(a.0 + b.0, a.1 + b.1, a.2 + b.2)
}

fn vsub(a: V, b: V) -> V {
    V(a.0 - b.0, a.1 - b.1, a.2 - b.2)
}

fn vmul(a: V, b: V) -> V {
    V(a.0 * b.0, a.1 * b.1, a.2 * b.2)
}

fn vscale(a: V, k: f32) -> V {
    V(a.0 * k, a.1 * k, a.2 * k)
}

fn vdot(a: V, b: V) -> f32 {
    a.0 * b.0 + a.1 * b.1 + a.2 * b.2
}

fn vnorm(a: V) -> V {
    let n = vdot(a, a);
    if n > 0.0 {
        vscale(a, 1.0 / n.sqrt())
    } else {
        a
    }
}

fn meet(b: &Ball, o: V, d: V) -> Option<(f32, f32)> {
    let l = vsub(b.center, o);
    let tca = vdot(l, d);
    if tca < 0.0 {
        return None;
    }
    let d2 = vdot(l, l) - tca * tca;
    if d2 > b.radius2 {
        return None;
    }
    let thc = (b.radius2 - d2).sqrt();
    Some((tca - thc, tca + thc))
}

fn shade(o: V, d: V, balls: &[Ball], depth: u32) -> V {
    let mut tnear = f32::INFINITY;
    let mut found: Option<&Ball> = None;
    for b in balls {
        if let Some((mut t0, t1)) = meet(b, o, d) {
            if t0 < 0.0 {
                t0 = t1;
            }
            if t0 < tnear {
                tnear = t0;
                found = Some(b);
            }
        }
    }
    let ball = match found {
        None => return V(2.0, 2.0, 2.0),
        Some(b) => b,
    };
    let mut color = V(0.0, 0.0, 0.0);
    let phit = vadd(o, vscale(d, tnear));
    let mut nhit = vnorm(vsub(phit, ball.center));
    let bias = 1e-4_f32;
    let mut inside = false;
    if vdot(d, nhit) > 0.0 {
        nhit = vscale(nhit, -1.0);
        inside = true;
    }
    if (ball.transparency > 0.0 || ball.reflection > 0.0) && depth < 5 {
        let facing = vdot(vscale(d, -1.0), nhit);
        let a = (1.0 - facing).powi(3);
        let fresnel = 1.0 * 0.1 + a * (1.0 - 0.1);
        let refl = vnorm(vsub(d, vscale(vscale(nhit, 2.0), vdot(d, nhit))));
        let reflection = shade(vadd(phit, vscale(nhit, bias)), refl, balls, depth + 1);
        let mut refraction = V(0.0, 0.0, 0.0);
        if ball.transparency != 0.0 {
            let ior = 1.1_f32;
            let eta = if inside { ior } else { 1.0 / ior };
            let cosi = vdot(nhit, d) * -1.0;
            let k = 1.0 - eta * eta * (1.0 - cosi * cosi);
            let refr = vnorm(vadd(vscale(d, eta), vscale(nhit, eta * cosi - k.sqrt())));
            refraction = shade(vsub(phit, vscale(nhit, bias)), refr, balls, depth + 1);
        }
        color = vmul(
            ball.surface,
            vadd(vscale(reflection, fresnel), vscale(vscale(refraction, 1.0 - fresnel), ball.transparency)),
        );
    } else {
        for (i, s) in balls.iter().enumerate() {
            let mut through = 1.0;
            let light = vnorm(vsub(s.center, phit));
            for (j, s2) in balls.iter().enumerate() {
                if i != j && meet(s2, vadd(phit, vscale(nhit, bias)), light).is_some() {
                    through = 0.0;
                    break;
                }
            }
            color = vadd(color, vmul(vscale(ball.surface, through), vscale(s.emission, vdot(nhit, light).max(0.0))));
        }
    }
    vadd(color, ball.emission)
}

fn s(x: f32) -> Scalar {
    Scalar::from_bits(x.to_bits())
}

fn v(x: f32, y: f32, z: f32) -> Vec3 {
    Vec3 { x: s(x), y: s(y), z: s(z) }
}

fn ball(center: (f32, f32, f32), radius: f32, color: (f32, f32, f32), transparency: f32, reflection: f32, e: f32) -> (Sphere, Ball) {
    (
        Sphere::new(v(center.0, center.1, center.2), s(radius), v(color.0, color.1, color.2), s(transparency), s(reflection), s(e)),
        Ball {
            center: V(center.0, center.1, center.2),
            radius2: radius * radius,
            surface: V(color.0, color.1, color.2),
            emission: V(e, e, e),
            transparency,
            reflection,
        },
    )
}

fn same(soft: Scalar, hard: f32) -> bool {
    if hard.is_nan() {
        soft.nan_test()
    } else {
        soft.to_bits() == hard.to_bits()
    }
}

fn same3(soft: Vec3, hard: V) -> bool {
    same(soft.x, hard.0) && same(soft.y, hard.1) && same(soft.z, hard.2)
}

fn next(state: &mut u64) -> u32 {
    *state = state.wrapping_mul(6364136223846793005).wrapping_add(1442695040888963407);
    (*state >> 32) as u32
}

fn unit(state: &mut u64) -> f32 {
    (next(state) >> 8) as f32 / 16777216.0
}

fn gallery() -> (Vec<Sphere>, Vec<Ball>) {
    let all = [
        ball((0.0, -10004.0, -20.0), 10000.0, (0.20, 0.20, 0.20), 0.0, 0.0, 0.0),
        ball((0.0, 0.0, -20.0), 4.0, (1.00, 0.32, 0.36), 1.0, 0.5, 0.0),
        ball((5.0, -1.0, -15.0), 2.0, (0.90, 0.76, 0.46), 1.0, 0.0, 0.0),
        ball((5.0, 0.0, -25.0), 3.0, (0.65, 0.77, 0.97), 1.0, 0.0, 0.0),
        ball((-5.5, 0.0, -15.0), 3.0, (0.90, 0.90, 0.90), 0.5, 0.1, 0.0),
        ball((0.0, 20.0, -30.0), 3.0, (0.00, 0.00, 0.00), 0.0, 0.0, 3.0),
    ];
    (all.iter().map(|b| b.0).collect(), all.iter().map(|b| b.1).collect())
}

fn camera_ray(width: u32, height: u32, angle: f32, x: u32, y: u32) -> V {
    let inv_width = 1.0 / width as f32;
    let inv_height = 1.0 / height as f32;
    let aspect = width as f32 / height as f32;
    let xx = (2.0 * ((x as f32 + 0.5) * inv_width) - 1.0) * angle * aspect;
    let yy = (1.0 - 2.0 * ((y as f32 + 0.5) * inv_height)) * angle;
    vnorm(V(xx, yy, -1.0))
}

fn tangent(fov: f32) -> f32 {
    (std::f32::consts::PI * 0.5 * fov / 180.).tan()
}

fn to_bytes(c: V) -> [u8; 4] {
    [(c.0.min(1.0) * 255.0) as u8, (c.1.min(1.0) * 255.0) as u8, (c.2.min(1.0) * 255.0) as u8, 255]
}

#[test]
fn gallery_rays_match_the_machine_arithmetic() {
    let (spheres, balls) = gallery();
    let angle = tangent(30.0);
    for x in 0..48 {
        for y in 0..30 {
            let d = camera_ray(48, 30, angle, x, y);
            let soft = trace(v(0.0, 0.0, 0.0), v(d.0, d.1, d.2), &spheres, 0);
            let hard = shade(V(0.0, 0.0, 0.0), d, &balls, 0);
            assert!(same3(soft, hard), "pixel {} {}", x, y);
        }
    }
}

#[test]
fn random_scenes_match_the_machine_arithmetic() {
    let mut state: u64 = 11;
    for round in 0..60 {
        let count = 1 + next(&mut state) % 5;
        let mut spheres = Vec::new();
        let mut balls = Vec::new();
        for _ in 0..count {
            let kind = next(&mut state) % 4;
            let (soft, hard) = ball(
                (unit(&mut state) * 12.0 - 6.0, unit(&mut state) * 12.0 - 6.0, -4.0 - unit(&mut state) * 20.0),
                0.3 + unit(&mut state) * 4.0,
                (unit(&mut state), unit(&mut state), unit(&mut state)),
                if kind == 1 || kind == 3 { unit(&mut state) } else { 0.0 },
                if kind >= 2 { unit(&mut state) } else { 0.0 },
                if kind == 0 { unit(&mut state) * 3.0 } else { 0.0 },
            );
            spheres.push(soft);
            balls.push(hard);
        }
        for _ in 0..40 {
            let o = V(unit(&mut state) * 4.0 - 2.0, unit(&mut state) * 4.0 - 2.0, unit(&mut state) * 4.0);
            let d = vnorm(V(unit(&mut state) - 0.5, unit(&mut state) - 0.5, -unit(&mut state) - 0.1));
            let soft = trace(v(o.0, o.1, o.2), v(d.0, d.1, d.2), &spheres, 0);
            let hard = shade(o, d, &balls, 0);
            assert!(same3(soft, hard), "round {}", round);
        }
    }
}

#[test]
fn a_ray_along_the_axis_meets_the_sphere_at_five_less_and_five_more_than_its_radius() {
    for r in [1.0f32, 2.0, 0.5, 3.0, 4.5] {
        let sphere = Sphere::new(v(0.0, 0.0, 0.0), s(r), v(1.0, 1.0, 1.0), s(0.0), s(0.0), s(0.0));
        let mut t0 = Scalar::infinity();
        let mut t1 = Scalar::infinity();
        assert!(sphere.intersect(v(0.0, 0.0, 5.0), v(0.0, 0.0, -1.0), &mut t0, &mut t1));
        assert_eq!(t0.to_bits(), (5.0 - r).to_bits());
        assert_eq!(t1.to_bits(), (5.0 + r).to_bits());
    }
}

#[test]
fn a_hit_overwrites_both_places_whatever_they_held() {
    let sphere = Sphere::new(v(0.0, 0.0, 0.0), s(1.0), v(1.0, 1.0, 1.0), s(0.0), s(0.0), s(0.0));
    let mut t0 = Scalar::zero();
    let mut t1 = Scalar::zero();
    assert!(sphere.intersect(v(0.0, 0.0, 5.0), v(0.0, 0.0, -1.0), &mut t0, &mut t1));
    assert_eq!(t0.to_bits(), 4.0f32.to_bits());
    assert_eq!(t1.to_bits(), 6.0f32.to_bits());
}

#[test]
fn a_ray_with_the_center_behind_it_misses_even_from_inside() {
    let sphere = Sphere::new(v(0.0, 0.0, 0.0), s(2.0), v(1.0, 1.0, 1.0), s(0.0), s(0.0), s(0.0));
    let mut t0 = s(7.0);
    let mut t1 = s(9.0);
    assert!(!sphere.intersect(v(0.0, 0.0, -1.0), v(0.0, 0.0, -1.0), &mut t0, &mut t1));
    assert_eq!(t0.to_bits(), 7.0f32.to_bits());
    assert_eq!(t1.to_bits(), 9.0f32.to_bits());
    assert!(!sphere.intersect(v(0.0, 0.0, -5.0), v(0.0, 0.0, -1.0), &mut t0, &mut t1));
    assert!(sphere.intersect(v(0.0, 0.0, 1.0), v(0.0, 0.0, -1.0), &mut t0, &mut t1));
    assert_eq!(t0.to_bits(), (-1.0f32).to_bits());
    assert_eq!(t1.to_bits(), 3.0f32.to_bits());
}

#[test]
fn a_ray_that_passes_beside_the_sphere_misses() {
    let sphere = Sphere::new(v(0.0, 0.0, -5.0), s(1.0), v(1.0, 1.0, 1.0), s(0.0), s(0.0), s(0.0));
    let mut t0 = Scalar::infinity();
    let mut t1 = Scalar::infinity();
    assert!(!sphere.intersect(v(0.0, 1.5, 0.0), v(0.0, 0.0, -1.0), &mut t0, &mut t1));
    assert_eq!(t0.to_bits(), 0x7f80_0000);
    assert!(sphere.intersect(v(0.0, 1.0, 0.0), v(0.0, 0.0, -1.0), &mut t0, &mut t1));
    assert_eq!(t0.to_bits(), 5.0f32.to_bits());
    assert_eq!(t1.to_bits(), 5.0f32.to_bits());
}

#[test]
fn normalizing_gives_length_one() {
    let mut state: u64 = 12;
    for _ in 0..2000 {
        let mut a = v(unit(&mut state) * 20.0 - 10.0, unit(&mut state) * 20.0 - 10.0, unit(&mut state) * 20.0 - 10.0);
        a.normalize();
        let length2 = f32::from_bits(a.length2().to_bits());
        assert!((length2 - 1.0).abs() < 1e-6, "{}", length2);
    }
    let mut a = v(3.0, 0.0, 4.0);
    a.normalize();
    assert_eq!(a.x.to_bits(), (3.0f32 * (1.0 / 5.0f32)).to_bits());
    assert_eq!(a.y.to_bits(), 0);
    assert_eq!(a.z.to_bits(), (4.0f32 * (1.0 / 5.0f32)).to_bits());
}

#[test]
fn normalizing_the_zero_vector_leaves_it() {
    let mut a = v(0.0, 0.0, 0.0);
    a.normalize();
    assert_eq!((a.x.to_bits(), a.y.to_bits(), a.z.to_bits()), (0, 0, 0));
    let mut b = v(-0.0, 0.0, -0.0);
    b.normalize();
    assert_eq!((b.x.to_bits(), b.y.to_bits(), b.z.to_bits()), (0x8000_0000, 0, 0x8000_0000));
}

#[test]
fn normalizing_leaves_a_vector_whose_squared_length_is_lost() {
    let mut tiny = v(1e-30, 0.0, 0.0);
    tiny.normalize();
    assert_eq!(tiny.x.to_bits(), 1e-30f32.to_bits());
    let mut huge = v(1e30, 0.0, 0.0);
    huge.normalize();
    assert_eq!(huge.x.to_bits(), 0);
}

#[test]
fn vector_arithmetic_goes_by_components() {
    let a = v(1.0, 2.0, 3.0);
    let b = v(0.5, -4.0, 0.25);
    assert!(same3(a.add(b), V(1.5, -2.0, 3.25)));
    assert!(same3(a.sub(b), V(0.5, 6.0, 2.75)));
    assert!(same3(a.mul(b), V(0.5, -8.0, 0.75)));
    assert!(same3(a.scale(s(-2.0)), V(-2.0, -4.0, -6.0)));
    assert_eq!(a.dot(b).to_bits(), (-6.75f32).to_bits());
    assert_eq!(a.length2().to_bits(), 14.0f32.to_bits());
    assert!(same3(Vec3::new(s(0.1)), V(0.1, 0.1, 0.1)));
}

#[test]
fn display_color_caps_and_truncates() {
    assert_eq!(v(2.0, 2.0, 2.0).to_rgba().0, [255, 255, 255, 255]);
    assert_eq!(v(0.0, 0.5, 1.0).to_rgba().0, [0, 127, 255, 255]);
    assert_eq!(v(-1.0, 0.999, 0.2).to_rgba().0, [0, 254, 51, 255]);
    assert_eq!(v(f32::NAN, f32::INFINITY, f32::NEG_INFINITY).to_rgba().0, [255, 255, 0, 255]);
    let mut state: u64 = 13;
    for _ in 0..2000 {
        let c = V(unit(&mut state) * 1.5 - 0.2, unit(&mut state), unit(&mut state) * 3.0);
        assert_eq!(v(c.0, c.1, c.2).to_rgba().0, to_bytes(c));
    }
}

#[test]
fn a_new_sphere_keeps_the_square_of_its_radius() {
    let sphere = Sphere::new(v(1.0, 2.0, 3.0), s(1.5), v(0.1, 0.2, 0.3), s(0.25), s(0.75), s(3.0));
    assert_eq!(sphere.radius.to_bits(), 1.5f32.to_bits());
    assert_eq!(sphere.radius2.to_bits(), 2.25f32.to_bits());
    assert!(same3(sphere.center, V(1.0, 2.0, 3.0)));
    assert!(same3(sphere.surface_color, V(0.1, 0.2, 0.3)));
    assert!(same3(sphere.emission_color, V(3.0, 3.0, 3.0)));
    assert_eq!(sphere.transparency.to_bits(), 0.25f32.to_bits());
    assert_eq!(sphere.reflection.to_bits(), 0.75f32.to_bits());
}

#[test]
fn mix_weighs_the_second_by_the_share() {
    assert_eq!(mix(s(2.0), s(4.0), s(0.25)).to_bits(), 2.5f32.to_bits());
    assert_eq!(mix(s(0.0), s(1.0), s(0.1)).to_bits(), (1.0f32 * 0.1 + 0.0 * (1.0 - 0.1)).to_bits());
    assert_eq!(mix(s(1.0), s(1.0), s(0.1)).to_bits(), (1.0f32 * 0.1 + 1.0 * (1.0 - 0.1)).to_bits());
}

#[test]
fn a_ray_that_hits_nothing_brings_white() {
    let (spheres, _) = gallery();
    let color = trace(v(0.0, 0.0, 0.0), v(0.0, 0.0, 1.0), &spheres, 0);
    assert!(same3(color, V(2.0, 2.0, 2.0)));
    assert_eq!(color.to_rgba().0, [255, 255, 255, 255]);
    let empty: Vec<Sphere> = Vec::new();
    let color = trace(v(0.0, 0.0, 0.0), v(0.0, 0.0, -1.0), &empty, 0);
    assert_eq!(color.to_rgba().0, [255, 255, 255, 255]);
}

#[test]
fn of_two_spheres_at_one_distance_the_first_is_hit() {
    let red = ball((0.0, 0.0, -5.0), 1.0, (1.0, 0.0, 0.0), 0.0, 0.0, 1.0).0;
    let green = ball((0.0, 0.0, -5.0), 1.0, (0.0, 1.0, 0.0), 0.0, 0.0, 2.0).0;
    let near = ball((0.0, 0.0, -3.0), 1.0, (0.0, 0.0, 1.0), 0.0, 0.0, 0.0).0;
    let o = v(0.0, 0.0, 0.0);
    let d = v(0.0, 0.0, -1.0);
    let hit = nearest_hit(o, d, &vec![red, green]).unwrap();
    assert_eq!((hit.0, hit.1.to_bits()), (0, 4.0f32.to_bits()));
    let hit = nearest_hit(o, d, &vec![green, red]).unwrap();
    assert_eq!(hit.0, 0);
    let hit = nearest_hit(o, d, &vec![red, green, near]).unwrap();
    assert_eq!((hit.0, hit.1.to_bits()), (2, 2.0f32.to_bits()));
    assert!(nearest_hit(o, v(0.0, 1.0, 0.0), &vec![red, green, near]).is_none());
}

#[test]
fn from_inside_a_sphere_the_far_side_is_hit() {
    let shell = ball((0.0, 0.0, 0.0), 2.0, (1.0, 1.0, 1.0), 0.0, 0.0, 0.0).0;
    let hit = nearest_hit(v(0.0, 0.0, 1.0), v(0.0, 0.0, -1.0), &vec![shell]).unwrap();
    assert_eq!((hit.0, hit.1.to_bits()), (0, 3.0f32.to_bits()));
}

#[test]
fn mirrors_facing_each_other_end_at_the_depth_cap() {
    let (a, fa) = ball((0.0, 0.0, -5.0), 2.0, (1.0, 1.0, 1.0), 0.0, 1.0, 0.0);
    let (b, fb) = ball((0.0, 0.0, 5.0), 2.0, (1.0, 1.0, 1.0), 0.0, 1.0, 0.0);
    let (c, fc) = ball((0.0, 30.0, 0.0), 3.0, (0.0, 0.0, 0.0), 0.0, 1.0, 2.0);
    let spheres = vec![a, b, c];
    let balls = [fa, fb, fc];
    let o = v(0.0, 0.0, 0.0);
    let d = v(0.0, 0.0, -1.0);
    for depth in 0..8 {
        let color = trace(o, d, &spheres, depth);
        let hard = shade(V(0.0, 0.0, 0.0), V(0.0, 0.0, -1.0), &balls, depth);
        assert!(same3(color, hard));
        for channel in [color.x, color.y, color.z] {
            let value = f32::from_bits(channel.to_bits());
            assert!(value.is_finite() && value >= 0.0 && value <= 2.0);
        }
    }
    let point = v(0.0, 0.0, -3.0);
    let normal = v(0.0, 0.0, 1.0);
    let lit = direct_light(&spheres, &spheres[0], point, normal);
    assert!(same3(trace(o, d, &spheres, 5), V(f32::from_bits(lit.x.to_bits()), f32::from_bits(lit.y.to_bits()), f32::from_bits(lit.z.to_bits()))));
    let at_four = trace(o, d, &spheres, 4);
    let next = trace(v(0.0, 0.0, -3.0 + 1e-4), v(0.0, 0.0, 1.0), &spheres, 5);
    let share = mix(s(0.0), s(1.0), s(0.1));
    assert!(same(at_four.x, f32::from_bits(next.x.to_bits()) * f32::from_bits(share.to_bits()) + 0.0));
}

fn lit_floor() -> (Sphere, Sphere, Sphere) {
    let floor = ball((0.0, -100.0, 0.0), 100.0, (0.5, 0.25, 1.0), 0.0, 0.0, 0.0).0;
    let lamp = ball((0.0, 20.0, 0.0), 1.0, (0.0, 0.0, 0.0), 0.0, 0.0, 3.0).0;
    let blocker = ball((0.0, 10.0, 0.0), 2.0, (1.0, 1.0, 1.0), 0.0, 0.0, 0.0).0;
    (floor, lamp, blocker)
}

#[test]
fn a_sphere_between_point_and_light_takes_the_light_away() {
    let (floor, lamp, blocker) = lit_floor();
    let point = v(0.0, 0.0, 0.0);
    let normal = v(0.0, 1.0, 0.0);
    let start = v(0.0, 1e-4, 0.0);
    let up = v(0.0, 1.0, 0.0);
    let scene = vec![floor, lamp, blocker];
    assert_eq!(transmission(&scene, 1, start, up).to_bits(), 0);
    let color = direct_light(&scene, &scene[0], point, normal);
    assert!(same3(color, V(0.0, 0.0, 0.0)));
}

#[test]
fn without_the_sphere_between_the_light_arrives() {
    let (floor, lamp, _) = lit_floor();
    let point = v(0.0, 0.0, 0.0);
    let normal = v(0.0, 1.0, 0.0);
    let scene = vec![floor, lamp];
    assert_eq!(transmission(&scene, 1, v(0.0, 1e-4, 0.0), v(0.0, 1.0, 0.0)).to_bits(), 1.0f32.to_bits());
    let color = direct_light(&scene, &scene[0], point, normal);
    assert!(same3(color, V(0.5 * 3.0, 0.25 * 3.0, 1.0 * 3.0)));
    let slanted = v(0.0, 0.6, 0.8);
    let color = direct_light(&scene, &scene[0], point, slanted);
    let cosine = 0.0f32 * 0.0 + 0.6f32 * 1.0 + 0.8f32 * 0.0;
    assert!(same3(color, V(0.5 * (3.0 * cosine), 0.25 * (3.0 * cosine), 1.0 * (3.0 * cosine))));
    let away = v(0.0, -1.0, 0.0);
    let color = direct_light(&scene, &scene[0], point, away);
    assert!(same3(color, V(0.0, 0.0, 0.0)));
}

#[test]
fn a_light_does_not_shadow_itself_but_any_other_sphere_may() {
    let (floor, lamp, blocker) = lit_floor();
    let start = v(0.0, 1e-4, 0.0);
    let up = v(0.0, 1.0, 0.0);
    let scene = vec![floor, lamp];
    assert_eq!(transmission(&scene, 1, start, up).to_bits(), 1.0f32.to_bits());
    assert_eq!(transmission(&scene, 0, start, up).to_bits(), 0);
    let scene = vec![floor, blocker, lamp];
    assert_eq!(transmission(&scene, 1, start, up).to_bits(), 0);
    assert_eq!(transmission(&scene, 2, start, up).to_bits(), 0);
}

fn red_ball_scene(width: u32, height: u32) -> Scene {
    Scene {
        width,
        height,
        fov: s(30.0),
        spheres: vec![
            ball((0.0, 0.0, -5.0), 1.0, (1.0, 0.0, 0.0), 0.0, 0.0, 0.0).0,
            ball((0.0, 20.0, -5.0), 1.0, (0.0, 0.0, 0.0), 0.0, 0.0, 1.0).0,
        ],
    }
}

#[test]
fn two_by_two_picture_of_a_red_ball() {
    let scene = red_ball_scene(2, 2);
    let angle = tangent(30.0);
    let picture = render(&scene, s(angle)).unwrap();
    assert_eq!(picture.dimensions(), (2, 2));
    assert!(picture.as_rgb8().is_some());
    let balls = [
        ball((0.0, 0.0, -5.0), 1.0, (1.0, 0.0, 0.0), 0.0, 0.0, 0.0).1,
        ball((0.0, 20.0, -5.0), 1.0, (0.0, 0.0, 0.0), 0.0, 0.0, 1.0).1,
    ];
    for x in 0..2 {
        for y in 0..2 {
            let d = camera_ray(2, 2, angle, x, y);
            let pixel = picture.get_pixel(x, y).0;
            assert_eq!(pixel, to_bytes(shade(V(0.0, 0.0, 0.0), d, &balls, 0)));
            let hit = nearest_hit(v(0.0, 0.0, 0.0), v(d.0, d.1, d.2), &scene.spheres).unwrap();
            assert_eq!(hit.0, 0);
            if y == 0 {
                // the upper half of the ball faces the light
                assert!(pixel[0] > 0 && pixel[0] > pixel[1] && pixel[0] > pixel[2]);
                assert_eq!(pixel, [144, 0, 0, 255]);
            } else {
                // the lower half faces away from it
                assert_eq!(pixel, [0, 0, 0, 255]);
            }
        }
    }
}

#[test]
fn pixels_beside_the_ball_are_white() {
    let scene = red_ball_scene(2, 2);
    let angle = tangent(150.0);
    let picture = render(&scene, s(angle)).unwrap();
    for x in 0..2 {
        for y in 0..2 {
            let d = camera_ray(2, 2, angle, x, y);
            assert!(nearest_hit(v(0.0, 0.0, 0.0), v(d.0, d.1, d.2), &scene.spheres).is_none());
            assert_eq!(picture.get_pixel(x, y).0, [255, 255, 255, 255]);
        }
    }
    let wide = red_ball_scene(9, 3);
    let angle = tangent(30.0);
    let picture = render(&wide, s(angle)).unwrap();
    assert_eq!(picture.dimensions(), (9, 3));
    assert_eq!(picture.get_pixel(0, 1).0, [255, 255, 255, 255]);
    assert_eq!(picture.get_pixel(8, 1).0, [255, 255, 255, 255]);
    let middle = picture.get_pixel(4, 0).0;
    assert!(middle[0] > 0 && middle[1] == 0 && middle[2] == 0 && middle[3] == 255);
}

#[test]
fn a_picture_shows_what_each_ray_brings() {
    let (spheres, balls) = gallery();
    let scene = Scene { width: 24, height: 15, fov: s(30.0), spheres };
    let angle = tangent(30.0);
    let picture = render(&scene, s(angle)).unwrap();
    assert_eq!(picture.dimensions(), (24, 15));
    let mut colors = std::collections::BTreeSet::new();
    for x in 0..24 {
        for y in 0..15 {
            let d = camera_ray(24, 15, angle, x, y);
            let expected = to_bytes(shade(V(0.0, 0.0, 0.0), d, &balls, 0));
            assert_eq!(picture.get_pixel(x, y).0, expected, "pixel {} {}", x, y);
            colors.insert(expected);
        }
    }
    assert!(colors.len() > 20);
}

#[test]
fn rays_go_through_the_middle_of_each_pixel() {
    let angle = tangent(30.0);
    for (width, height) in [(2u32, 2u32), (9, 3), (640, 480), (1920, 1200)] {
        for (x, y) in [(0u32, 0u32), (1, 1), (width - 1, 0), (0, height - 1), (width / 2, height / 2)] {
            let d = camera_ray(width, height, angle, x, y);
            assert!(same3(ray_through(width, height, s(angle), x, y), d), "{} {} {} {}", width, height, x, y);
        }
    }
    let middle = ray_through(1, 1, s(angle), 0, 0);
    assert_eq!((middle.x.to_bits(), middle.y.to_bits(), middle.z.to_bits()), (0, 0, (-1.0f32).to_bits()));
}

#[test]
fn half_the_field_of_view_is_in_radians() {
    for fov in [30.0f32, 1.0, 45.0, 60.0, 90.0, 120.0, 179.0, 0.001, 77.7] {
        let scene = Scene { width: 1, height: 1, fov: s(fov), spheres: Vec::new() };
        let expected = std::f32::consts::PI * 0.5 * fov / 180.;
        assert_eq!(scene.half_field_of_view().to_bits(), expected.to_bits());
    }
    let right = Scene { width: 1, height: 1, fov: s(90.0), spheres: Vec::new() };
    assert_eq!(right.half_field_of_view().to_bits(), std::f32::consts::FRAC_PI_4.to_bits());
}

#[test]
fn a_scene_with_a_fault_is_not_rendered() {
    let angle = s(tangent(30.0));
    let mut scene = red_ball_scene(0, 2);
    assert_eq!(scene.validate(), Err(SceneError::NoWidth));
    assert_eq!(render(&scene, angle).err(), Some(SceneError::NoWidth));
    scene.height = 0;
    assert_eq!(render(&scene, angle).err(), Some(SceneError::NoWidth));
    scene.width = 2;
    assert_eq!(render(&scene, angle).err(), Some(SceneError::NoHeight));
    scene.height = 2;
    for fov in [0.0f32, -0.0, -30.0, 180.0, 200.0, f32::NAN, f32::INFINITY] {
        scene.fov = s(fov);
        assert_eq!(scene.validate(), Err(SceneError::FieldOfView));
        assert_eq!(render(&scene, angle).err(), Some(SceneError::FieldOfView));
    }
    for fov in [1e-3f32, 30.0, 90.0, 179.99] {
        scene.fov = s(fov);
        assert_eq!(scene.validate(), Ok(()));
    }
    scene.width = u32::MAX;
    scene.height = u32::MAX;
    assert_eq!(scene.validate(), Err(SceneError::TooLarge));
    assert_eq!(render(&scene, angle).err(), Some(SceneError::TooLarge));
}

#[test]
fn a_ray_that_cannot_pass_brings_the_background_through() {
    let (glass, hard) = ball((0.0, 0.0, 0.0), 2.0, (1.0, 1.0, 1.0), 1.0, 0.0, 0.0);
    let o = V(0.0, 1.9, 0.0);
    let d = vnorm(V(1.0, 0.1, 0.0));
    let soft = trace(v(o.0, o.1, o.2), v(d.0, d.1, d.2), &vec![glass], 0);
    let expected = shade(o, d, &[hard], 0);
    assert!(same3(soft, expected));
}
