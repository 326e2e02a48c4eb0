//! A path tracer for scenes of spheres, in fixed-point arithmetic.
//!
//! A [`scene::Scene`] holds spheres with their materials, a
//! [`scene::camera::Camera`] turns places in the picture into rays, and
//! [`raytracer::render`] follows those rays through the scene and returns the
//! picture, which [`image::encode_png`] turns into a file. [`text`] writes
//! numbers and vectors for a person to read.
//!
//! Every number is a [`fixed::Fixed`], so every function has an exact
//! result, which its contract states. How far rounding takes those results
//! from the geometry they stand for is proved in the modules of
//! [`geometry`].
pub mod fixed;
pub mod geometry;
pub mod image;
pub mod material;
pub mod random;
pub mod raytracer;
pub mod scene;
pub mod text;

pub use crate::raytracer::render;
