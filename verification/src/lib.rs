//! Voxel world core: terrain generation, chunk meshing, chunk streaming and
//! visibility culling, each with a verified contract.

pub mod atlas;
pub mod block;
pub mod chunk;
pub mod chunk_manager;
pub mod coords;
pub mod culling;
pub mod game_state;
pub mod mesh;
pub mod terrain;
