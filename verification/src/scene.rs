//! Vectors, spheres and the scene.

use vstd::prelude::*;
use crate::exact::{lemma_nan_spreads, lemma_sum_of_zeros, lemma_times_zero};
use crate::picture::{channels, rgba};
use crate::scalar::Scalar;

verus! {

/// The bits of 1.0.
pub const ONE: u32 = 0x3f80_0000;

/// The bits of 255.0.
pub const FULL: u32 = 0x437f_0000;

/// Three components: a point, a direction or a color.
#[derive(Clone, Copy, Debug)]
pub struct Vec3 {
    pub x: Scalar,
    pub y: Scalar,
    pub z: Scalar,
}

/// The byte that shows a color channel: the channel, at most 1, times 255,
/// without its fraction.
pub open spec fn display_byte(channel: Scalar) -> u8 {
    channel.lesser(Scalar { bits: ONE }).product(Scalar { bits: FULL }).clamped_byte()
}

fn to_display_byte(channel: Scalar) -> (r: u8)
    ensures
        r == display_byte(channel),
{
    channel.min(Scalar::from_bits(ONE)).mul(Scalar::from_bits(FULL)).to_u8()
}

impl Vec3 {
    /// The vector with all three components `x`.
    pub open spec fn splat(x: Scalar) -> Vec3 {
        Vec3 { x: x, y: x, z: x }
    }

    /// The sum, component by component.
    pub open spec fn plus(self, v: Vec3) -> Vec3 {
        Vec3 { x: self.x.sum(v.x), y: self.y.sum(v.y), z: self.z.sum(v.z) }
    }

    /// The difference, component by component.
    pub open spec fn minus(self, v: Vec3) -> Vec3 {
        Vec3 { x: self.x.difference(v.x), y: self.y.difference(v.y), z: self.z.difference(v.z) }
    }

    /// The product, component by component.
    pub open spec fn times(self, v: Vec3) -> Vec3 {
        Vec3 { x: self.x.product(v.x), y: self.y.product(v.y), z: self.z.product(v.z) }
    }

    /// Every component times `k`.
    pub open spec fn scaled(self, k: Scalar) -> Vec3 {
        Vec3 { x: self.x.product(k), y: self.y.product(k), z: self.z.product(k) }
    }

    /// The dot product, summed from the first component on.
    pub open spec fn dot_product(self, v: Vec3) -> Scalar {
        self.x.product(v.x).sum(self.y.product(v.y)).sum(self.z.product(v.z))
    }

    /// The squared length.
    pub open spec fn squared_length(self) -> Scalar {
        self.dot_product(self)
    }

    /// The vector scaled by one over its length, where its squared length is
    /// above zero; else the vector itself.
    pub open spec fn normalized(self) -> Vec3 {
        let length2 = self.squared_length();
        if (Scalar { bits: 0 }).less(length2) {
            self.scaled((Scalar { bits: ONE }).quotient(length2.root()))
        } else {
            self
        }
    }

    /// The color as four bytes: red, green, blue, and an alpha of 255.
    pub open spec fn display_color(self) -> Seq<u8> {
        seq![display_byte(self.x), display_byte(self.y), display_byte(self.z), 255u8]
    }

    /// Whether every component is a zero.
    pub open spec fn is_zero(self) -> bool {
        self.x.is_zero() && self.y.is_zero() && self.z.is_zero()
    }

    /// Whether every component is a NaN.
    pub open spec fn is_nan(self) -> bool {
        self.x.is_nan() && self.y.is_nan() && self.z.is_nan()
    }

    /// The zero vector has no direction: normalized, it is what it was.
    pub proof fn lemma_zero_stays(self)
        requires
            self.is_zero(),
        ensures
            self.normalized() == self,
    {
        lemma_times_zero(self.x, self.x);
        lemma_times_zero(self.y, self.y);
        lemma_times_zero(self.z, self.z);
        lemma_sum_of_zeros(self.x.product(self.x), self.y.product(self.y));
        lemma_sum_of_zeros(self.x.product(self.x).sum(self.y.product(self.y)), self.z.product(self.z));
    }

    /// A vector of NaNs has a NaN for every dot product, and normalized it
    /// is what it was.
    pub proof fn lemma_nan_stays(self, v: Vec3)
        requires
            self.is_nan(),
        ensures
            self.dot_product(v).is_nan(),
            v.dot_product(self).is_nan(),
            self.normalized() == self,
    {
        lemma_nan_spreads(self.x, v.x);
        lemma_nan_spreads(self.x.product(v.x), self.y.product(v.y));
        lemma_nan_spreads(self.x.product(v.x).sum(self.y.product(v.y)), self.z.product(v.z));
        lemma_nan_spreads(v.x, self.x);
        lemma_nan_spreads(v.x.product(self.x), v.y.product(self.y));
        lemma_nan_spreads(v.x.product(self.x).sum(v.y.product(self.y)), v.z.product(self.z));
        lemma_nan_spreads(self.x, self.x);
        lemma_nan_spreads(self.x.product(self.x), self.y.product(self.y));
        lemma_nan_spreads(self.x.product(self.x).sum(self.y.product(self.y)), self.z.product(self.z));
    }

    /// The vector with all three components `x`.
    pub fn new(x: Scalar) -> (r: Vec3)
        ensures
            r == Vec3::splat(x),
    {
        Vec3 { x: x, y: x, z: x }
    }

    pub fn dot(&self, v: Vec3) -> (r: Scalar)
        ensures
            r == self.dot_product(v),
    {
        self.x.mul(v.x).add(self.y.mul(v.y)).add(self.z.mul(v.z))
    }

    pub fn length2(&self) -> (r: Scalar)
        ensures
            r == self.squared_length(),
    {
        self.x.mul(self.x).add(self.y.mul(self.y)).add(self.z.mul(self.z))
    }

    /// Scales the vector to length one. A vector whose squared length is not
    /// above zero stays as it is.
    pub fn normalize(&mut self)
        ensures
            *final(self) == old(self).normalized(),
            !(Scalar { bits: 0 }).less(old(self).squared_length()) ==> *final(self) == *old(self),
    {
        let nor2: Scalar = self.length2();
        if nor2.gt(Scalar::zero()) {
            let inv_nor2: Scalar = Scalar::one().div(nor2.sqrt());
            self.x = self.x.mul(inv_nor2);
            self.y = self.y.mul(inv_nor2);
            self.z = self.z.mul(inv_nor2);
        }
    }

    /// The color for display: each channel capped at 1, times 255, cut to a
    /// byte; the alpha channel is 255.
    pub fn to_rgba(&self) -> (r: image::Rgba<u8>)
        ensures
            channels(r) == self.display_color(),
    {
        rgba(to_display_byte(self.x), to_display_byte(self.y), to_display_byte(self.z), 255)
    }

    pub fn add(self, v: Vec3) -> (r: Vec3)
        ensures
            r == self.plus(v),
    {
        Vec3 { x: self.x.add(v.x), y: self.y.add(v.y), z: self.z.add(v.z) }
    }

    pub fn sub(self, v: Vec3) -> (r: Vec3)
        ensures
            r == self.minus(v),
    {
        Vec3 { x: self.x.sub(v.x), y: self.y.sub(v.y), z: self.z.sub(v.z) }
    }

    pub fn mul(self, v: Vec3) -> (r: Vec3)
        ensures
            r == self.times(v),
    {
        Vec3 { x: self.x.mul(v.x), y: self.y.mul(v.y), z: self.z.mul(v.z) }
    }

    pub fn scale(self, k: Scalar) -> (r: Vec3)
        ensures
            r == self.scaled(k),
    {
        Vec3 { x: self.x.mul(k), y: self.y.mul(k), z: self.z.mul(k) }
    }
}

/// A sphere with its material.
#[derive(Clone, Copy, Debug)]
pub struct Sphere {
    pub center: Vec3,
    pub radius: Scalar,
    pub radius2: Scalar,
    pub surface_color: Vec3,
    pub emission_color: Vec3,
    pub transparency: Scalar,
    pub reflection: Scalar,
}

impl Sphere {
    /// The radius is above zero and `radius2` is its square.
    pub open spec fn well_formed(self) -> bool {
        &&& (Scalar { bits: 0 }).less(self.radius)
        &&& self.radius2 == self.radius.product(self.radius)
    }

    /// From the ray's origin to the center.
    pub open spec fn to_center(self, origin: Vec3) -> Vec3 {
        self.center.minus(origin)
    }

    /// How far along the ray the center lies.
    pub open spec fn along(self, origin: Vec3, direction: Vec3) -> Scalar {
        self.to_center(origin).dot_product(direction)
    }

    /// The squared distance of the center from the ray.
    pub open spec fn aside2(self, origin: Vec3, direction: Vec3) -> Scalar {
        let l = self.to_center(origin);
        let tca = self.along(origin, direction);
        l.dot_product(l).difference(tca.product(tca))
    }

    /// Whether the ray meets the sphere: the center is not behind the origin
    /// and not farther from the ray than the radius.
    pub open spec fn hits(self, origin: Vec3, direction: Vec3) -> bool {
        &&& !self.along(origin, direction).less(Scalar { bits: 0 })
        &&& !self.radius2.less(self.aside2(origin, direction))
    }

    /// Half the length of the ray within the sphere.
    pub open spec fn half_chord(self, origin: Vec3, direction: Vec3) -> Scalar {
        self.radius2.difference(self.aside2(origin, direction)).root()
    }

    /// Where the ray enters the sphere.
    pub open spec fn near(self, origin: Vec3, direction: Vec3) -> Scalar {
        self.along(origin, direction).difference(self.half_chord(origin, direction))
    }

    /// Where the ray leaves the sphere.
    pub open spec fn far(self, origin: Vec3, direction: Vec3) -> Scalar {
        self.along(origin, direction).sum(self.half_chord(origin, direction))
    }

    /// A sphere whose emission has `e` in all three channels.
    pub fn new(
        center: Vec3,
        radius: Scalar,
        surface_color: Vec3,
        transparency: Scalar,
        reflection: Scalar,
        e: Scalar,
    ) -> (r: Sphere)
        ensures
            r == (Sphere {
                center: center,
                radius: radius,
                radius2: radius.product(radius),
                surface_color: surface_color,
                emission_color: Vec3::splat(e),
                transparency: transparency,
                reflection: reflection,
            }),
            (Scalar { bits: 0 }).less(radius) ==> r.well_formed(),
    {
        Sphere {
            center: center,
            radius: radius,
            radius2: radius.mul(radius),
            surface_color: surface_color,
            emission_color: Vec3::new(e),
            transparency: transparency,
            reflection: reflection,
        }
    }

    /// Tests the ray from `rayorig` along `raydir` against the sphere. On a
    /// hit `t0` and `t1` become the two places along the ray, the nearer
    /// first; else both stay. A ray that has the center behind it misses,
    /// also from inside the sphere.
    pub fn intersect(&self, rayorig: Vec3, raydir: Vec3, t0: &mut Scalar, t1: &mut Scalar) -> (hit: bool)
        ensures
            hit == self.hits(rayorig, raydir),
            self.along(rayorig, raydir).less(Scalar { bits: 0 }) ==> !hit,
            hit ==> *final(t0) == self.near(rayorig, raydir) && *final(t1) == self.far(rayorig, raydir),
            !hit ==> *final(t0) == *old(t0) && *final(t1) == *old(t1),
    {
        let l: Vec3 = self.center.sub(rayorig);
        let tca: Scalar = l.dot(raydir);
        if tca.lt(Scalar::zero()) {
            return false;
        }
        let d2: Scalar = l.dot(l).sub(tca.mul(tca));
        if d2.gt(self.radius2) {
            return false;
        }
        let thc: Scalar = self.radius2.sub(d2).sqrt();
        *t0 = tca.sub(thc);
        *t1 = tca.add(thc);
        true
    }
}

/// What is rendered: the size of the picture, the field of view in degrees,
/// and the spheres.
pub struct Scene {
    pub width: u32,
    pub height: u32,
    pub fov: Scalar,
    pub spheres: Vec<Sphere>,
}

} // verus!
