//! An offline ray-traced image renderer.
//!
//! Scalars are fixed-point numbers (`fx::Fx`), so every arithmetic step of
//! the pipeline has an exact, machine-checked meaning: vector algebra,
//! ray/sphere intersection, material scattering, camera geometry, and the
//! quantization of accumulated color into a plain-text pixel raster.

pub mod fx;

pub mod array3;

pub mod interval;

pub mod ray;

pub mod material;

pub mod sphere;

pub mod camera;

pub mod util;
