//! Voxel world logic: blocks, chunks, the world map, terrain columns,
//! greedy chunk meshing, the texture atlas layout and the fixed-step game clock.

pub mod block;
pub mod block_model;
pub mod block_registry;
pub mod camera_input;
pub mod chunk;
pub mod chunk_mesh;
pub mod chunk_worker;
pub mod main_loop;
pub mod texture;
pub mod world;
pub mod world_generator;
