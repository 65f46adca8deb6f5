//! A sparse voxel octree kept in a flat node pool, with Boolean edits,
//! dirty-range tracking and the page arithmetic of its texture mirror.

pub mod branch;
pub mod chain;
pub mod csg;
pub mod dynamic;
pub mod edit;
pub mod generate;
pub mod input;
pub mod iter;
pub mod laws;
pub mod layout;
pub mod mirror;
pub mod node;
pub mod path;
pub mod octree;
pub mod pool;
pub mod raycast;
pub mod segment;
pub mod stored;
pub mod shader;
pub mod tree;
