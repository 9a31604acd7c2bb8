//! A sparse voxel world with verified storage and ray queries.
//!
//! The world is a sparse grid of cubic chunks; each chunk stores its voxels
//! in a sparse voxel octree backed by a node pool with a free list. Rays are
//! traced against a chunk either by stepping cell by cell through the flat
//! grid (DDA) or by descending the octree and pruning subtrees.
//!
//! All geometry is carried in voxel units and exact fixed-point / rational
//! arithmetic: one voxel spans one unit, positions are scaled integers, and
//! ray parameters are integer fractions. Callers that live in floating point
//! convert at the boundary.

pub mod chunk;
pub mod ray;
pub mod svo;
pub mod traversal;
pub mod voxel;
pub mod world;
