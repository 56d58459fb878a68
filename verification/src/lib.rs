//! Sparse voxel octree: a compact hierarchical index mapping 3D integer
//! coordinates inside a cubic volume to small integer voxel values.
//!
//! The octree supports incremental box-shaped mutation with automatic growth
//! and automatic collapsing of homogeneous regions, breadth-first compaction,
//! and serialization into a flat buffer of 32-bit words for a GPU consumer.
//! A one-dimensional analogue (a binary tree over an integer line) and a few
//! small vector/matrix helpers round the crate out.

pub mod math;
pub mod octree;
pub mod voxel_bintree;
