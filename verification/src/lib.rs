//! A ray-tracing scene core: bounding boxes, the hittable protocol, spheres,
//! scene lists, a bounding-volume hierarchy, material and texture decisions,
//! noise tables and light-path tracing.
//!
//! Real numbers are IEEE 754 binary64 values held by their bit patterns
//! ([`scalar::Scalar`]). The library compares, selects and orders them, and
//! reads whole parts off them; it never rounds. Arithmetic on them is the
//! caller's: it is handed in as values where it comes before the library's
//! work, and as closures where the library has to ask for it in the middle.

pub mod aabb;
pub mod bvh;
mod chance;
pub mod color;
pub mod hit;
pub mod integrator;
pub mod material;
pub mod nearest;
pub mod perlin;
pub mod point;
pub mod ray;
pub mod scalar;
pub mod sphere;
pub mod texture;
pub mod truncate;
pub mod unverified;
pub mod vec3;
