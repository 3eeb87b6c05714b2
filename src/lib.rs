//! Hierarchy addressing for COPC point clouds: the COPC metadata record, octree
//! voxel keys, hierarchy entries and pages, and the resolution of a voxel key to
//! the file location of its point data, loading hierarchy pages on demand.

pub mod bytes;
pub mod error;
pub mod key;
pub mod hierarchy;
pub mod metadata;
pub mod resolver;
pub mod points;
