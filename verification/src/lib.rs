pub mod object_pool;
pub mod octree;
pub mod spatial;
pub mod types;
pub mod node;
pub mod cache;
pub mod meta;
pub mod bytecode;
pub mod magicavoxel;
pub mod palette;
pub mod bricktree;
pub mod brick_octree;
pub mod vox_octree;
