//! A small ray tracer with verified geometry.
//!
//! The tracer renders spheres of matte, metallic and glass-like material
//! under a sky that fades from white to blue. A camera sends several rays
//! through every pixel; each ray is followed from bounce to bounce until it
//! leaves the scene, is absorbed or has bounced too often, and the colours
//! that the rays bring back are averaged into the pixel.
//!
//! All arithmetic is fixed-point and total (module [`scalar`]), so that
//! every value the tracer computes is a function of its inputs that can be
//! written down: each type has a model made of mathematical integers, each
//! function states its result as a function of the models of its
//! arguments, and the laws that relate the functions are proved from those
//! statements.
//!
//! Where a square would vanish or saturate although the result can be
//! held, the result is computed from exact 128-bit intermediates: the
//! length and the unit vector of a vector, the dot product, and the roots
//! at which a ray meets a sphere. So a short ray meets what a long ray in
//! the same direction meets.
//!
//! Randomness enters in one place only, [`sampling`]. What depends on it
//! is stated for every value that may be drawn, and the functions
//! [`material::Material::scatter_with`] and [`tracer::color_with`] take the
//! random values as arguments.

pub mod camera;
pub mod hitable;
pub mod material;
pub mod ray;
pub mod sampling;
pub mod scalar;
pub mod sphere;
pub mod tracer;
pub mod vec3;
