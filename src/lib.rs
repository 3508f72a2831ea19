//! A voxel shell wrapped around a sphere: block and chunk addressing, a heightmap with a
//! sparse overlay of edits, the choice of blocks and faces that meshing turns into
//! geometry, the quadtree that decides which chunks and tiles must be resident, the fade
//! of keys entering and leaving residency, sky light, and the solidity of points for
//! collision.

pub mod coords;
pub mod keys;
pub mod terrain;
pub mod world;
pub mod mesh;
pub mod streaming;
pub mod fade;
pub mod lighting;
pub mod physics;
