//! A spatial index for axis-aligned boxes over exact integer coordinates.
//!
//! The crate provides a small vector/matrix algebra generic over a [`traits::Scalar`]
//! type, axis-aligned bounding boxes in two and three dimensions with exact
//! point-set contracts, a ray/box slab test over exact rational crossing values,
//! and an adaptive bounding-volume tree with lazy splitting, dynamic root growth,
//! an overlap query and a nearest-hit ray query.

pub mod kd_tree;
pub mod kd_tree_traits;
pub mod mat2;
pub mod mat3;
pub mod ray_box;
pub mod traits;
pub mod vec2;
pub mod vec3;
