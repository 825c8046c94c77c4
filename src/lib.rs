//! Core data structures of an isometric game engine: a loose octree that
//! tracks the bounding cubes of moving objects, and the small value types and
//! tables around it.

pub mod geometry;
pub mod octree;
mod octree_proofs;
pub mod time;
pub mod entity;
pub mod db;
pub mod asset;
pub mod asset_db;
pub mod anim;
pub mod camera;
