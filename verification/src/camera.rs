//! The camera: one ray through every pixel of the picture.

use vstd::prelude::*;
use crate::picture::{channels, dimensions, is_rgb8, new_rgb8, opaque, pixels, put_pixel};
use crate::scalar::Scalar;
use crate::scene::{Scene, Vec3, ONE};
use crate::tracer::{trace, trace_color, MINUS_ONE, TWO};

verus! {

/// The bits of 0.5.
pub const HALF: u32 = 0x3f00_0000;

/// The bits of 180.0.
pub const STRAIGHT: u32 = 0x4334_0000;

/// The bits of the binary32 nearest to pi.
pub const PI: u32 = 0x4049_0fdb;

/// Why a scene cannot be rendered.
#[derive(Clone, Copy, Debug, PartialEq, Eq, Structural)]
pub enum SceneError {
    /// The width is zero.
    NoWidth,
    /// The height is zero.
    NoHeight,
    /// The field of view is not above 0 and below 180 degrees.
    FieldOfView,
    /// The picture would not fit into memory that can be addressed.
    TooLarge,
}

/// The direction of the ray through the middle of pixel `(x, y)`, seen from
/// the origin along the negative third axis. `angle` is the tangent of half
/// the field of view.
pub open spec fn primary_ray(width: u32, height: u32, angle: Scalar, x: u32, y: u32) -> Vec3 {
    let one = Scalar { bits: ONE };
    let two = Scalar { bits: TWO };
    let half = Scalar { bits: HALF };
    let inv_width = one.quotient(Scalar::of_integer(width));
    let inv_height = one.quotient(Scalar::of_integer(height));
    let aspect_ratio = Scalar::of_integer(width).quotient(Scalar::of_integer(height));
    let xx = two.product(Scalar::of_integer(x).sum(half).product(inv_width)).difference(one).product(
        angle,
    ).product(aspect_ratio);
    let yy = one.difference(two.product(Scalar::of_integer(y).sum(half).product(inv_height))).product(
        angle,
    );
    (Vec3 { x: xx, y: yy, z: Scalar { bits: MINUS_ONE } }).normalized()
}

/// The four bytes of pixel `(x, y)` of the rendered scene.
pub open spec fn pixel_color(scene: Scene, angle: Scalar, x: u32, y: u32) -> Seq<u8> {
    trace_color(
        Vec3::splat(Scalar { bits: 0 }),
        primary_ray(scene.width, scene.height, angle, x, y),
        scene.spheres@,
        0,
    ).display_color()
}

/// The pixels of the picture while it is rendered column by column: those
/// before `(x, y)` are done, the others still black.
pub open spec fn rendered_to(scene: Scene, angle: Scalar, x: u32, y: u32) -> Map<(u32, u32), Seq<u8>> {
    Map::new(
        |at: (u32, u32)| at.0 < scene.width && at.1 < scene.height,
        |at: (u32, u32)|
            if at.0 < x || (at.0 == x && at.1 < y) {
                pixel_color(scene, angle, at.0, at.1)
            } else {
                seq![0u8, 0u8, 0u8, 255u8]
            },
    )
}

/// The pixels of the rendered scene: every pixel within the bounds, each
/// with its color.
pub open spec fn rendered(scene: Scene, angle: Scalar) -> Map<(u32, u32), Seq<u8>> {
    Map::new(
        |at: (u32, u32)| at.0 < scene.width && at.1 < scene.height,
        |at: (u32, u32)| pixel_color(scene, angle, at.0, at.1),
    )
}

impl Scene {
    /// What is wrong with the scene, the first of: no width, no height, a
    /// field of view outside of 0 to 180 degrees, a picture too large.
    pub open spec fn fault(self) -> Option<SceneError> {
        if self.width == 0 {
            Some(SceneError::NoWidth)
        } else if self.height == 0 {
            Some(SceneError::NoHeight)
        } else if !((Scalar { bits: 0 }).less(self.fov) && self.fov.less(Scalar { bits: STRAIGHT })) {
            Some(SceneError::FieldOfView)
        } else if 3 * self.width * self.height > isize::MAX {
            Some(SceneError::TooLarge)
        } else {
            None
        }
    }

    /// Half the field of view in radians: `pi * 0.5 * fov / 180`.
    pub open spec fn half_angle(self) -> Scalar {
        (Scalar { bits: PI }).product(Scalar { bits: HALF }).product(self.fov).quotient(
            Scalar { bits: STRAIGHT },
        )
    }

    /// Half the field of view in radians. Its tangent is the `angle` that
    /// `render` asks for.
    pub fn half_field_of_view(&self) -> (r: Scalar)
        ensures
            r == self.half_angle(),
    {
        Scalar::from_bits(PI).mul(Scalar::from_bits(HALF)).mul(self.fov).div(Scalar::from_bits(STRAIGHT))
    }

    /// Tells whether the scene can be rendered.
    pub fn validate(&self) -> (r: Result<(), SceneError>)
        ensures
            match r {
                Ok(_) => self.fault().is_none(),
                Err(e) => self.fault() == Some(e),
            },
    {
        if self.width == 0 {
            Err(SceneError::NoWidth)
        } else if self.height == 0 {
            Err(SceneError::NoHeight)
        } else if !(self.fov.gt(Scalar::zero()) && self.fov.lt(Scalar::from_bits(STRAIGHT))) {
            Err(SceneError::FieldOfView)
        } else {
            assert(self.width * self.height <= 0xffff_ffff * 0xffff_ffff) by (nonlinear_arith)
                requires
                    self.width <= 0xffff_ffff,
                    self.height <= 0xffff_ffff,
            ;
            assert(3 * self.width * self.height == 3 * (self.width * self.height)) by (nonlinear_arith);
            let bytes: u128 = 3 * ((self.width as u128) * (self.height as u128));
            if bytes > isize::MAX as u128 {
                Err(SceneError::TooLarge)
            } else {
                Ok(())
            }
        }
    }
}

/// The direction of the ray through pixel `(x, y)`.
pub fn ray_through(width: u32, height: u32, angle: Scalar, x: u32, y: u32) -> (r: Vec3)
    ensures
        r == primary_ray(width, height, angle, x, y),
{
    let one: Scalar = Scalar::one();
    let two: Scalar = Scalar::from_bits(TWO);
    let half: Scalar = Scalar::from_bits(HALF);
    let inv_width: Scalar = one.div(Scalar::from_u32(width));
    let inv_height: Scalar = one.div(Scalar::from_u32(height));
    let aspect_ratio: Scalar = Scalar::from_u32(width).div(Scalar::from_u32(height));
    let xx: Scalar = two.mul(Scalar::from_u32(x).add(half).mul(inv_width)).sub(one).mul(angle).mul(
        aspect_ratio,
    );
    let yy: Scalar = one.sub(two.mul(Scalar::from_u32(y).add(half).mul(inv_height))).mul(angle);
    let mut raydir: Vec3 = Vec3 { x: xx, y: yy, z: Scalar::from_bits(MINUS_ONE) };
    raydir.normalize();
    raydir
}

/// Renders the scene: a picture of the scene's width and height in which
/// every pixel has the color that the ray through it brings back. `angle`
/// is the tangent of half the field of view, which the caller takes of
/// `half_field_of_view`. A scene with a fault is not rendered.
pub fn render(scene: &Scene, angle: Scalar) -> (r: Result<image::DynamicImage, SceneError>)
    ensures
        match r {
            Ok(picture) => {
                &&& scene.fault().is_none()
                &&& is_rgb8(picture)
                &&& dimensions(picture) == (scene.width, scene.height)
                &&& pixels(picture) == rendered(*scene, angle)
            },
            Err(e) => scene.fault() == Some(e),
        },
{
    match scene.validate() {
        Err(e) => {
            return Err(e);
        },
        Ok(_) => {},
    }
    let mut image: image::DynamicImage = new_rgb8(scene.width, scene.height);
    assert(pixels(image) =~= rendered_to(*scene, angle, 0, 0));
    let mut x: u32 = 0;
    while x < scene.width
        invariant
            x <= scene.width,
            is_rgb8(image),
            dimensions(image) == (scene.width, scene.height),
            pixels(image) == rendered_to(*scene, angle, x, 0),
        decreases scene.width - x,
    {
        let mut y: u32 = 0;
        while y < scene.height
            invariant
                x < scene.width,
                y <= scene.height,
                is_rgb8(image),
                dimensions(image) == (scene.width, scene.height),
                pixels(image) == rendered_to(*scene, angle, x, y),
            decreases scene.height - y,
        {
            let raydir: Vec3 = ray_through(scene.width, scene.height, angle, x, y);
            let color = trace(Vec3::new(Scalar::zero()), raydir, &scene.spheres, 0).to_rgba();
            let ghost before = pixels(image);
            put_pixel(&mut image, x, y, color);
            assert(opaque(channels(color)) =~= pixel_color(*scene, angle, x, y));
            assert(before.insert((x, y), pixel_color(*scene, angle, x, y)) =~= rendered_to(
                *scene,
                angle,
                x,
                (y + 1) as u32,
            ));
            y = y + 1;
        }
        assert(rendered_to(*scene, angle, x, scene.height) =~= rendered_to(
            *scene,
            angle,
            (x + 1) as u32,
            0,
        ));
        x = x + 1;
    }
    assert(rendered_to(*scene, angle, scene.width, 0) =~= rendered(*scene, angle));
    Ok(image)
}

} // verus!
