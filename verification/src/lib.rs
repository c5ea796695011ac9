//! A recursive ray tracer for scenes of spheres.
//!
//! Every number is an IEEE 754 binary32 value, held as its bit pattern, and
//! every operation on it is carried out in integer arithmetic: `scalar` has
//! the layout and the order, `rounding` the one rounding step that `arith`,
//! `addition` and `root` share. `nearest` and `correct` prove that this
//! rounding gives the nearest value of the format, `exact` the cases without
//! any rounding.
//!
//! `scene` has vectors, spheres and their intersection with a ray, `tracer`
//! the color that a ray brings back, `camera` the picture of a scene, and
//! `picture` what is used of the `image` crate.

pub mod addition;
pub mod arith;
pub mod camera;
pub mod correct;
pub mod exact;
pub mod nearest;
pub mod picture;
pub mod root;
pub mod rounding;
pub mod scalar;
pub mod scene;
pub mod tracer;

pub use crate::camera::render;
pub use crate::tracer::trace;
