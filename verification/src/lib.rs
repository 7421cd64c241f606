//! A small ray tracer verified with Verus.
//!
//! Scalars are saturating fixed-point numbers (see `fixed`), so every
//! arithmetic step has an exact, machine-checked meaning.  On top of them
//! sit the vector/ray layer, axis-aligned bounding boxes with the slab
//! test, sphere geometry, a bounding-volume hierarchy, the material
//! scattering model, and the recursive light-transport integrator.

pub mod bvh;
pub mod fixed;
pub mod geo;
pub mod material;
pub mod render;
pub mod rng;
pub mod vec3;
