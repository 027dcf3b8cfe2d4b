//! A small Monte-Carlo path tracer for scenes of spheres.
//!
//! Camera rays are traced through a flat collection of spheres; at each hit the
//! sphere's material (diffuse, metal or glass) scatters the ray or absorbs it,
//! and the colour seen is the product of the attenuations along the path times
//! the sky where the path escapes. Numbers are fixed-point: a scalar is an
//! `i64` counting units of `10^-12` (see [`fixed`]), and every operation states its
//! result exactly, rounding included.

pub mod fixed;
pub mod rtweekend;
pub mod vec3;
pub mod ray;
pub mod material;
pub mod hittable;
pub mod sphere;
pub mod hittable_list;
pub mod camera;
pub mod render;
pub mod color;
pub mod scene;
