//! The color that a ray brings back from the scene.

use vstd::prelude::*;
use vstd::arithmetic::power2::{pow2, lemma2_to64, lemma_pow2_adds, lemma_pow2_pos};
use crate::exact::{lemma_nan_spreads, lemma_no_root, lemma_times_one, lemma_times_zero};
use crate::scalar::{Scalar, INFINITY_BITS};
use crate::scene::{display_byte, Sphere, Vec3, FULL, ONE};

verus! {

/// How many times a ray is followed on from a surface.
pub const MAX_RAY_DEPTH: u32 = 5;

/// The bits of 2.0: every channel of the background, and the factor of a
/// reflection.
pub const TWO: u32 = 0x4000_0000;

/// The bits of -1.0.
pub const MINUS_ONE: u32 = 0xbf80_0000;

/// The bits of the binary32 nearest to 0.1: what a surface reflects at least.
pub const TENTH: u32 = 0x3dcc_cccd;

/// The bits of the binary32 nearest to 1.1: the index of refraction.
pub const REFRACTION_INDEX: u32 = 0x3f8c_cccd;

/// The bits of the binary32 nearest to 0.0001: how far off the surface a new
/// ray starts.
pub const BIAS: u32 = 0x38d1_b717;

/// `b * t + a * (1 - t)`.
pub open spec fn blend(a: Scalar, b: Scalar, t: Scalar) -> Scalar {
    b.product(t).sum(a.product((Scalar { bits: ONE }).difference(t)))
}

/// `x * x * x`.
pub open spec fn cube(x: Scalar) -> Scalar {
    x.product(x).product(x)
}

/// How far along the ray a sphere that it hits counts as met: where the ray
/// enters, or where it leaves if it enters behind the origin.
pub open spec fn met_at(sphere: Sphere, origin: Vec3, direction: Vec3) -> Scalar {
    let t0 = sphere.near(origin, direction);
    if t0.less(Scalar { bits: 0 }) {
        sphere.far(origin, direction)
    } else {
        t0
    }
}

/// The nearest hit among the first `count` spheres, with its distance: each
/// sphere in turn takes the place of the best so far if the ray hits it
/// nearer, so of two at the same distance the earlier stays.
pub open spec fn nearest_among(spheres: Seq<Sphere>, origin: Vec3, direction: Vec3, count: nat) -> Option<
    (int, Scalar),
>
    decreases count,
{
    if count == 0 {
        None
    } else {
        let before = nearest_among(spheres, origin, direction, (count - 1) as nat);
        let sphere = spheres[count - 1];
        let best = match before {
            Some(found) => found.1,
            None => Scalar { bits: INFINITY_BITS },
        };
        if sphere.hits(origin, direction) && met_at(sphere, origin, direction).less(best) {
            Some((count - 1, met_at(sphere, origin, direction)))
        } else {
            before
        }
    }
}

/// The nearest hit of the ray among all spheres.
pub open spec fn nearest(spheres: Seq<Sphere>, origin: Vec3, direction: Vec3) -> Option<(int, Scalar)> {
    nearest_among(spheres, origin, direction, spheres.len())
}

/// Whether a sphere other than the one at `light` is hit by the ray.
pub open spec fn shadowed(spheres: Seq<Sphere>, light: int, origin: Vec3, direction: Vec3) -> bool {
    exists|j: int| 0 <= j < spheres.len() && j != light && (#[trigger] spheres[j]).hits(origin, direction)
}

/// The direction from a point to the center of a sphere.
pub open spec fn toward(sphere: Sphere, point: Vec3) -> Vec3 {
    sphere.center.minus(point).normalized()
}

/// What arrives from a sphere at a point with the given normal: its emission
/// times the cosine between the normal and the direction to its center, where
/// that is above zero.
pub open spec fn arriving(light: Sphere, point: Vec3, normal: Vec3) -> Vec3 {
    light.emission_color.scaled(normal.dot_product(toward(light, point)).greater(Scalar { bits: 0 }))
}

/// What the sphere at `light` adds to the light on a surface point with the
/// given normal: the color of the surface times the emission of the sphere,
/// times the cosine between the normal and the direction to its center where
/// that is above zero; nothing where another sphere is in between.
pub open spec fn light_from(spheres: Seq<Sphere>, surface: Sphere, point: Vec3, normal: Vec3, light: int) -> Vec3 {
    let direction = toward(spheres[light], point);
    let start = point.plus(normal.scaled(Scalar { bits: BIAS }));
    let transmission = if shadowed(spheres, light, start, direction) {
        Scalar { bits: 0 }
    } else {
        Scalar { bits: ONE }
    };
    surface.surface_color.scaled(transmission).times(arriving(spheres[light], point, normal))
}

/// The light of the first `count` spheres on a surface point, summed in
/// their order from zero.
pub open spec fn lit_by(spheres: Seq<Sphere>, surface: Sphere, point: Vec3, normal: Vec3, count: nat) -> Vec3
    decreases count,
{
    if count == 0 {
        Vec3::splat(Scalar { bits: 0 })
    } else {
        lit_by(spheres, surface, point, normal, (count - 1) as nat).plus(
            light_from(spheres, surface, point, normal, count - 1),
        )
    }
}

/// The direction of the ray mirrored at the surface.
pub open spec fn mirrored(direction: Vec3, normal: Vec3) -> Vec3 {
    direction.minus(normal.scaled(Scalar { bits: TWO }).scaled(direction.dot_product(normal))).normalized()
}

/// The ratio of the indices of refraction at the surface: into the sphere,
/// or out of it if the ray comes from inside.
pub open spec fn index_ratio(inside: bool) -> Scalar {
    if inside {
        Scalar { bits: REFRACTION_INDEX }
    } else {
        (Scalar { bits: ONE }).quotient(Scalar { bits: REFRACTION_INDEX })
    }
}

/// The cosine between the ray and the normal against it.
pub open spec fn incidence(direction: Vec3, normal: Vec3) -> Scalar {
    normal.dot_product(direction).product(Scalar { bits: MINUS_ONE })
}

/// The squared cosine of the bent ray: below zero where the ray cannot pass
/// and is wholly reflected.
pub open spec fn passage(direction: Vec3, normal: Vec3, inside: bool) -> Scalar {
    let one = Scalar { bits: ONE };
    let eta = index_ratio(inside);
    let cosi = incidence(direction, normal);
    one.difference(eta.product(eta).product(one.difference(cosi.product(cosi))))
}

/// The direction of the ray bent through the surface. The root of
/// `passage` is taken as it is: where the ray cannot pass it is a NaN, and so
/// is every component of the direction.
pub open spec fn bent(direction: Vec3, normal: Vec3, inside: bool) -> Vec3 {
    let eta = index_ratio(inside);
    let cosi = incidence(direction, normal);
    direction.scaled(eta).plus(
        normal.scaled(eta.product(cosi).difference(passage(direction, normal, inside).root())),
    ).normalized()
}

/// How much of the light is reflected at this angle.
pub open spec fn fresnel(direction: Vec3, normal: Vec3) -> Scalar {
    let one = Scalar { bits: ONE };
    let facing = direction.scaled(Scalar { bits: MINUS_ONE }).dot_product(normal);
    blend(cube(one.difference(facing)), one, Scalar { bits: TENTH })
}

/// Whether rays are followed on from this sphere at this depth.
pub open spec fn follows(sphere: Sphere, depth: nat) -> bool {
    let zero = Scalar { bits: 0 };
    (zero.less(sphere.transparency) || zero.less(sphere.reflection)) && depth < MAX_RAY_DEPTH
}

/// The point at `distance` along the ray.
pub open spec fn point_at(origin: Vec3, direction: Vec3, distance: Scalar) -> Vec3 {
    origin.plus(direction.scaled(distance))
}

/// The normal of the sphere through `point`, away from the center.
pub open spec fn outward(sphere: Sphere, point: Vec3) -> Vec3 {
    point.minus(sphere.center).normalized()
}

/// Whether the ray meets the surface at `point` from inside the sphere.
pub open spec fn from_inside(sphere: Sphere, point: Vec3, direction: Vec3) -> bool {
    (Scalar { bits: 0 }).less(direction.dot_product(outward(sphere, point)))
}

/// The normal at `point`, turned against the ray.
pub open spec fn normal_at(sphere: Sphere, point: Vec3, direction: Vec3) -> Vec3 {
    if from_inside(sphere, point, direction) {
        outward(sphere, point).scaled(Scalar { bits: MINUS_ONE })
    } else {
        outward(sphere, point)
    }
}

/// What a surface shows of the colors that the mirrored and the bent ray
/// bring: the share of the first that the angle gives, the rest of the second
/// as far as the sphere lets light through, all times the surface color.
pub open spec fn combined(sphere: Sphere, share: Scalar, reflection: Vec3, refraction: Vec3) -> Vec3 {
    sphere.surface_color.times(
        reflection.scaled(share).plus(
            refraction.scaled((Scalar { bits: ONE }).difference(share)).scaled(sphere.transparency),
        ),
    )
}

/// The color of a hit that is not followed on: the light of all spheres on
/// the point, and the emission of the sphere.
pub open spec fn direct_color(spheres: Seq<Sphere>, origin: Vec3, direction: Vec3, found: (int, Scalar)) -> Vec3 {
    let sphere = spheres[found.0];
    let point = point_at(origin, direction, found.1);
    lit_by(spheres, sphere, point, normal_at(sphere, point, direction), spheres.len()).plus(
        sphere.emission_color,
    )
}

/// The color that the ray brings back.
///
/// A ray that hits nothing brings the background, 2.0 in every channel. At
/// the nearest hit the normal is turned against the ray. A sphere that
/// reflects or lets light through, met at a depth below `MAX_RAY_DEPTH`,
/// shows what the mirrored and the bent ray bring back from one level deeper;
/// any other hit shows the light of all spheres on the point. The emission of
/// the sphere is added to either.
///
/// A ray that cannot pass through the surface has a NaN for its bent
/// direction; it hits nothing and brings the background.
pub open spec fn trace_color(origin: Vec3, direction: Vec3, spheres: Seq<Sphere>, depth: nat) -> Vec3
    decreases MAX_RAY_DEPTH - depth,
{
    match nearest(spheres, origin, direction) {
        None => Vec3::splat(Scalar { bits: TWO }),
        Some(found) => {
            let sphere = spheres[found.0];
            if follows(sphere, depth) {
                let bias = Scalar { bits: BIAS };
                let point = point_at(origin, direction, found.1);
                let normal = normal_at(sphere, point, direction);
                let reflection = trace_color(
                    point.plus(normal.scaled(bias)),
                    mirrored(direction, normal),
                    spheres,
                    depth + 1,
                );
                let refraction = if sphere.transparency.same(Scalar { bits: 0 }) {
                    Vec3::splat(Scalar { bits: 0 })
                } else {
                    trace_color(
                        point.minus(normal.scaled(bias)),
                        bent(direction, normal, from_inside(sphere, point, direction)),
                        spheres,
                        depth + 1,
                    )
                };
                combined(sphere, fresnel(direction, normal), reflection, refraction).plus(
                    sphere.emission_color,
                )
            } else {
                direct_color(spheres, origin, direction, found)
            }
        },
    }
}

/// How many rays end the tree of rays that starts with this one: rays that
/// hit nothing, and hits that are not followed on.
pub open spec fn last_rays(origin: Vec3, direction: Vec3, spheres: Seq<Sphere>, depth: nat) -> nat
    decreases MAX_RAY_DEPTH - depth,
{
    match nearest(spheres, origin, direction) {
        None => 1,
        Some(found) => {
            let sphere = spheres[found.0];
            if follows(sphere, depth) {
                let bias = Scalar { bits: BIAS };
                let point = point_at(origin, direction, found.1);
                let normal = normal_at(sphere, point, direction);
                let mirror = last_rays(
                    point.plus(normal.scaled(bias)),
                    mirrored(direction, normal),
                    spheres,
                    depth + 1,
                );
                if sphere.transparency.same(Scalar { bits: 0 }) {
                    mirror
                } else {
                    mirror + last_rays(
                        point.minus(normal.scaled(bias)),
                        bent(direction, normal, from_inside(sphere, point, direction)),
                        spheres,
                        depth + 1,
                    )
                }
            } else {
                1
            }
        },
    }
}

/// A ray at depth `depth` ends in at most `2^(MAX_RAY_DEPTH - depth)` rays:
/// 32 for a ray of the camera.
pub proof fn lemma_last_rays_bounded(origin: Vec3, direction: Vec3, spheres: Seq<Sphere>, depth: nat)
    requires
        depth <= MAX_RAY_DEPTH,
    ensures
        1 <= last_rays(origin, direction, spheres, depth) <= pow2((MAX_RAY_DEPTH - depth) as nat),
        depth == 0 ==> last_rays(origin, direction, spheres, depth) <= 32,
    decreases MAX_RAY_DEPTH - depth,
{
    lemma2_to64();
    match nearest(spheres, origin, direction) {
        None => {
            lemma_pow2_pos((MAX_RAY_DEPTH - depth) as nat);
        },
        Some(found) => {
            let sphere = spheres[found.0];
            lemma_pow2_pos((MAX_RAY_DEPTH - depth) as nat);
            if follows(sphere, depth) {
                let bias = Scalar { bits: BIAS };
                let point = point_at(origin, direction, found.1);
                let normal = normal_at(sphere, point, direction);
                lemma_last_rays_bounded(
                    point.plus(normal.scaled(bias)),
                    mirrored(direction, normal),
                    spheres,
                    depth + 1,
                );
                lemma_last_rays_bounded(
                    point.minus(normal.scaled(bias)),
                    bent(direction, normal, from_inside(sphere, point, direction)),
                    spheres,
                    depth + 1,
                );
                vstd::arithmetic::power2::lemma_pow2_unfold((MAX_RAY_DEPTH - depth) as nat);
            }
        },
    }
}

/// From the depth cap on no ray is followed further: every hit shows the
/// light on it and its own emission, whatever the sphere is made of.
pub proof fn lemma_depth_cap(origin: Vec3, direction: Vec3, spheres: Seq<Sphere>, depth: nat)
    requires
        depth >= MAX_RAY_DEPTH,
    ensures
        trace_color(origin, direction, spheres, depth) == match nearest(spheres, origin, direction) {
            None => Vec3::splat(Scalar { bits: TWO }),
            Some(found) => direct_color(spheres, origin, direction, found),
        },
{
}

/// One level below the cap a sphere that reflects is followed once more, and
/// the rays from there are not.
pub proof fn lemma_last_level(origin: Vec3, direction: Vec3, spheres: Seq<Sphere>)
    requires
        nearest(spheres, origin, direction).is_some(),
        follows(spheres[nearest(spheres, origin, direction).unwrap().0], 4),
    ensures
        ({
            let found = nearest(spheres, origin, direction).unwrap();
            let sphere = spheres[found.0];
            let point = point_at(origin, direction, found.1);
            let normal = normal_at(sphere, point, direction);
            let start = point.plus(normal.scaled(Scalar { bits: BIAS }));
            let onward = mirrored(direction, normal);
            let reflection = match nearest(spheres, start, onward) {
                None => Vec3::splat(Scalar { bits: TWO }),
                Some(next) => direct_color(spheres, start, onward, next),
            };
            sphere.transparency.same(Scalar { bits: 0 }) ==> trace_color(origin, direction, spheres, 4)
                == combined(
                sphere,
                fresnel(direction, normal),
                reflection,
                Vec3::splat(Scalar { bits: 0 }),
            ).plus(sphere.emission_color)
        }),
{
    let found = nearest(spheres, origin, direction).unwrap();
    let sphere = spheres[found.0];
    let point = point_at(origin, direction, found.1);
    let normal = normal_at(sphere, point, direction);
    lemma_depth_cap(
        point.plus(normal.scaled(Scalar { bits: BIAS })),
        mirrored(direction, normal),
        spheres,
        5,
    );
}

/// The nearest hit is a hit at less than infinity that no other hit is
/// nearer than, and the first of those at its distance.
pub proof fn lemma_nearest_is_first_least(spheres: Seq<Sphere>, origin: Vec3, direction: Vec3, count: nat)
    requires
        count <= spheres.len(),
    ensures
        match nearest_among(spheres, origin, direction, count) {
            Some(found) => {
                &&& 0 <= found.0 < count
                &&& spheres[found.0].hits(origin, direction)
                &&& found.1 == met_at(spheres[found.0], origin, direction)
                &&& found.1.less(Scalar { bits: INFINITY_BITS })
                &&& forall|j: int|
                    0 <= j < count && (#[trigger] spheres[j]).hits(origin, direction) ==> !met_at(
                        spheres[j],
                        origin,
                        direction,
                    ).less(found.1)
                &&& forall|j: int|
                    0 <= j < found.0 && (#[trigger] spheres[j]).hits(origin, direction) ==> !met_at(
                        spheres[j],
                        origin,
                        direction,
                    ).same(found.1)
            },
            None => forall|j: int|
                0 <= j < count && (#[trigger] spheres[j]).hits(origin, direction) ==> !met_at(
                    spheres[j],
                    origin,
                    direction,
                ).less(Scalar { bits: INFINITY_BITS }),
        },
    decreases count,
{
    if count > 0 {
        lemma_nearest_is_first_least(spheres, origin, direction, (count - 1) as nat);
    }
}

/// A ray whose direction is a NaN in every component hits nothing.
pub proof fn lemma_nan_ray_hits_nothing(spheres: Seq<Sphere>, origin: Vec3, direction: Vec3, count: nat)
    requires
        direction.is_nan(),
        count <= spheres.len(),
    ensures
        nearest_among(spheres, origin, direction, count).is_none(),
    decreases count,
{
    if count > 0 {
        lemma_nan_ray_hits_nothing(spheres, origin, direction, (count - 1) as nat);
        let sphere = spheres[count - 1];
        direction.lemma_nan_stays(sphere.to_center(origin));
        let tca = sphere.along(origin, direction);
        let thc = sphere.half_chord(origin, direction);
        lemma_nan_spreads(tca, thc);
    }
}

/// Where the ray cannot pass through the surface, the bent ray brings the
/// background from wherever it starts.
pub proof fn lemma_blocked_ray_brings_background(
    start: Vec3,
    direction: Vec3,
    normal: Vec3,
    inside: bool,
    spheres: Seq<Sphere>,
    depth: nat,
)
    requires
        passage(direction, normal, inside).less(Scalar { bits: 0 }),
    ensures
        bent(direction, normal, inside).is_nan(),
        trace_color(start, bent(direction, normal, inside), spheres, depth) == Vec3::splat(
            Scalar { bits: TWO },
        ),
{
    let eta = index_ratio(inside);
    let cosi = incidence(direction, normal);
    let root = passage(direction, normal, inside).root();
    lemma_no_root(passage(direction, normal, inside));
    let lift = eta.product(cosi).difference(root);
    lemma_nan_spreads(eta.product(cosi), root);
    lemma_nan_spreads(normal.x, lift);
    lemma_nan_spreads(normal.y, lift);
    lemma_nan_spreads(normal.z, lift);
    let across = direction.scaled(eta);
    let along = normal.scaled(lift);
    lemma_nan_spreads(across.x, along.x);
    lemma_nan_spreads(across.y, along.y);
    lemma_nan_spreads(across.z, along.z);
    across.plus(along).lemma_nan_stays(across);
    lemma_nan_ray_hits_nothing(spheres, start, bent(direction, normal, inside), spheres.len());
}

/// A ray that hits no sphere shows white: 255 in every channel.
pub proof fn lemma_background_is_white(origin: Vec3, direction: Vec3, spheres: Seq<Sphere>, depth: nat)
    requires
        nearest(spheres, origin, direction).is_none(),
    ensures
        trace_color(origin, direction, spheres, depth).display_color() == seq![255u8, 255u8, 255u8, 255u8],
{
    lemma_white_byte();
}

/// The byte that shows 2.0 is 255.
pub proof fn lemma_white_byte()
    ensures
        display_byte(Scalar { bits: TWO }) == 255,
{
    reveal(Scalar::clamped_byte);
    let one = Scalar { bits: ONE };
    let full = Scalar { bits: FULL };
    assert((Scalar { bits: TWO }).lesser(one) == one);
    lemma_times_one(full);
    assert(full.significand() == 0xff_0000 && full.shift() == 133);
    lemma2_to64();
    lemma_pow2_adds(133, 16);
    lemma_pow2_pos(133);
    let p = pow2(133) as int;
    assert(0xff_0000 * p / (p * 0x1_0000) == 255) by (nonlinear_arith)
        requires
            p > 0,
    ;
}

/// Behind another sphere a light adds nothing, as long as the color of the
/// surface and what the light would add are finite.
pub proof fn lemma_shadowed_light(spheres: Seq<Sphere>, surface: Sphere, point: Vec3, normal: Vec3, light: int)
    requires
        0 <= light < spheres.len(),
        shadowed(
            spheres,
            light,
            point.plus(normal.scaled(Scalar { bits: BIAS })),
            toward(spheres[light], point),
        ),
        surface.surface_color.x.is_finite(),
        surface.surface_color.y.is_finite(),
        surface.surface_color.z.is_finite(),
        arriving(spheres[light], point, normal).x.is_finite(),
        arriving(spheres[light], point, normal).y.is_finite(),
        arriving(spheres[light], point, normal).z.is_finite(),
    ensures
        light_from(spheres, surface, point, normal, light).x.is_zero(),
        light_from(spheres, surface, point, normal, light).y.is_zero(),
        light_from(spheres, surface, point, normal, light).z.is_zero(),
{
    let zero = Scalar { bits: 0 };
    let color = surface.surface_color;
    let light_term = arriving(spheres[light], point, normal);
    lemma_times_zero(color.x, zero);
    lemma_times_zero(color.y, zero);
    lemma_times_zero(color.z, zero);
    lemma_times_zero(light_term.x, color.x.product(zero));
    lemma_times_zero(light_term.y, color.y.product(zero));
    lemma_times_zero(light_term.z, color.z.product(zero));
}

/// With no sphere in between a light adds the color of the surface times
/// its emission times the cosine at the surface, where that is above zero.
pub proof fn lemma_unshadowed_light(spheres: Seq<Sphere>, surface: Sphere, point: Vec3, normal: Vec3, light: int)
    requires
        0 <= light < spheres.len(),
        !shadowed(
            spheres,
            light,
            point.plus(normal.scaled(Scalar { bits: BIAS })),
            toward(spheres[light], point),
        ),
        !surface.surface_color.x.is_nan(),
        !surface.surface_color.y.is_nan(),
        !surface.surface_color.z.is_nan(),
    ensures
        light_from(spheres, surface, point, normal, light) == surface.surface_color.times(
            spheres[light].emission_color.scaled(
                normal.dot_product(toward(spheres[light], point)).greater(Scalar { bits: 0 }),
            ),
        ),
{
    lemma_times_one(surface.surface_color.x);
    lemma_times_one(surface.surface_color.y);
    lemma_times_one(surface.surface_color.z);
}

/// `b * t + a * (1 - t)`.
pub fn mix(a: Scalar, b: Scalar, t: Scalar) -> (r: Scalar)
    ensures
        r == blend(a, b, t),
{
    b.mul(t).add(a.mul(Scalar::one().sub(t)))
}

/// The nearest sphere that the ray hits, by its index, and how far along the
/// ray it is met.
pub fn nearest_hit(rayorig: Vec3, raydir: Vec3, spheres: &Vec<Sphere>) -> (r: Option<(usize, Scalar)>)
    ensures
        match r {
            Some(found) => nearest(spheres@, rayorig, raydir) == Some((found.0 as int, found.1))
                && found.0 < spheres.len(),
            None => nearest(spheres@, rayorig, raydir).is_none(),
        },
{
    let mut tnear: Scalar = Scalar::infinity();
    let mut sphere: Option<(usize, Scalar)> = None;
    let mut i: usize = 0;
    while i < spheres.len()
        invariant
            i <= spheres.len(),
            match sphere {
                Some(found) => nearest_among(spheres@, rayorig, raydir, i as nat) == Some(
                    (found.0 as int, found.1),
                ) && found.0 < i && found.1 == tnear,
                None => nearest_among(spheres@, rayorig, raydir, i as nat).is_none() && tnear.bits
                    == INFINITY_BITS,
            },
        decreases spheres.len() - i,
    {
        let mut t0: Scalar = Scalar::infinity();
        let mut t1: Scalar = Scalar::infinity();
        if spheres[i].intersect(rayorig, raydir, &mut t0, &mut t1) {
            if t0.lt(Scalar::zero()) {
                t0 = t1;
            }
            if t0.lt(tnear) {
                tnear = t0;
                sphere = Some((i, t0));
            }
        }
        i = i + 1;
    }
    sphere
}

/// 0.0 where a sphere other than the one at `light` is hit by the ray, else
/// 1.0.
pub fn transmission(spheres: &Vec<Sphere>, light: usize, rayorig: Vec3, raydir: Vec3) -> (r: Scalar)
    ensures
        r == if shadowed(spheres@, light as int, rayorig, raydir) {
            Scalar { bits: 0 }
        } else {
            Scalar { bits: ONE }
        },
{
    let mut j: usize = 0;
    while j < spheres.len()
        invariant
            j <= spheres.len(),
            forall|k: int| 0 <= k < j && k != light ==> !(#[trigger] spheres@[k]).hits(rayorig, raydir),
        decreases spheres.len() - j,
    {
        if light != j {
            let mut t0: Scalar = Scalar::zero();
            let mut t1: Scalar = Scalar::zero();
            if spheres[j].intersect(rayorig, raydir, &mut t0, &mut t1) {
                return Scalar::zero();
            }
        }
        j = j + 1;
    }
    Scalar::one()
}

/// The light of all spheres on a point of `surface` with normal `nhit`.
pub fn direct_light(spheres: &Vec<Sphere>, surface: &Sphere, phit: Vec3, nhit: Vec3) -> (r: Vec3)
    ensures
        r == lit_by(spheres@, *surface, phit, nhit, spheres@.len()),
{
    let mut surface_color: Vec3 = Vec3::new(Scalar::zero());
    let start: Vec3 = phit.add(nhit.scale(Scalar::from_bits(BIAS)));
    let mut i: usize = 0;
    while i < spheres.len()
        invariant
            i <= spheres.len(),
            start == phit.plus(nhit.scaled(Scalar { bits: BIAS })),
            surface_color == lit_by(spheres@, *surface, phit, nhit, i as nat),
        decreases spheres.len() - i,
    {
        let mut light_direction: Vec3 = spheres[i].center.sub(phit);
        light_direction.normalize();
        let through: Scalar = transmission(spheres, i, start, light_direction);
        surface_color = surface_color.add(
            surface.surface_color.scale(through).mul(
                spheres[i].emission_color.scale(nhit.dot(light_direction).max(Scalar::zero())),
            ),
        );
        i = i + 1;
    }
    surface_color
}

/// The color that the ray from `rayorig` along `raydir` brings back, where
/// `depth` levels of reflection and refraction lie behind it.
pub fn trace(rayorig: Vec3, raydir: Vec3, spheres: &Vec<Sphere>, depth: u32) -> (r: Vec3)
    ensures
        r == trace_color(rayorig, raydir, spheres@, depth as nat),
    decreases MAX_RAY_DEPTH - depth,
{
    let found: (usize, Scalar) = match nearest_hit(rayorig, raydir, spheres) {
        None => {
            return Vec3::new(Scalar::from_bits(TWO));
        },
        Some(found) => found,
    };
    let sphere: &Sphere = &spheres[found.0];
    let tnear: Scalar = found.1;
    let zero: Scalar = Scalar::zero();
    let one: Scalar = Scalar::one();
    let minus_one: Scalar = Scalar::from_bits(MINUS_ONE);
    let phit: Vec3 = rayorig.add(raydir.scale(tnear));
    let mut nhit: Vec3 = phit.sub(sphere.center);
    nhit.normalize();
    let bias: Scalar = Scalar::from_bits(BIAS);
    let mut inside: bool = false;
    if raydir.dot(nhit).gt(zero) {
        nhit = nhit.scale(minus_one);
        inside = true;
    }
    let surface_color: Vec3;
    if (sphere.transparency.gt(zero) || sphere.reflection.gt(zero)) && depth < MAX_RAY_DEPTH {
        let facingratio: Scalar = raydir.scale(minus_one).dot(nhit);
        let unfacing: Scalar = one.sub(facingratio);
        let fresneleffect: Scalar = mix(unfacing.mul(unfacing).mul(unfacing), one, Scalar::from_bits(TENTH));
        let mut refldir: Vec3 = raydir.sub(nhit.scale(Scalar::from_bits(TWO)).scale(raydir.dot(nhit)));
        refldir.normalize();
        let reflection: Vec3 = trace(phit.add(nhit.scale(bias)), refldir, spheres, depth + 1);
        let mut refraction: Vec3 = Vec3::new(zero);
        if !sphere.transparency.equals(zero) {
            let ior: Scalar = Scalar::from_bits(REFRACTION_INDEX);
            let eta: Scalar = if inside { ior } else { one.div(ior) };
            let cosi: Scalar = nhit.dot(raydir).mul(minus_one);
            let k: Scalar = one.sub(eta.mul(eta).mul(one.sub(cosi.mul(cosi))));
            let mut refrdir: Vec3 = raydir.scale(eta).add(nhit.scale(eta.mul(cosi).sub(k.sqrt())));
            refrdir.normalize();
            refraction = trace(phit.sub(nhit.scale(bias)), refrdir, spheres, depth + 1);
        }
        surface_color = sphere.surface_color.mul(
            reflection.scale(fresneleffect).add(
                refraction.scale(one.sub(fresneleffect)).scale(sphere.transparency),
            ),
        );
    } else {
        surface_color = direct_light(spheres, sphere, phit, nhit);
    }
    surface_color.add(sphere.emission_color)
}

} // verus!
