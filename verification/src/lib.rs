//! Brickmap residency and streaming engine.
//!
//! A voxel world is held as a sparse octree of 16x16x16 "bricks". The full
//! world lives on the host in a [`cpu_brickmap::CpuBrickmap`]; a bounded,
//! camera-adapted projection of it is kept in a
//! [`gpu_brickmap::GpuVoxelWorld`], refined and coarsened one octree level at
//! a time by the streaming pass in [`voxel_streaming`].

use vstd::prelude::*;

pub mod anvil;
pub mod brick;
pub mod cpu_brickmap;
pub mod error;
pub mod gpu_brickmap;
pub mod math;
pub mod voxel_streaming;

verus! {

/// Side length of a brick, in voxels.
pub const BRICK_SIZE: u32 = 16;

/// Discriminator bit of a packed GPU node word: words at or above it are
/// leaves (`BRICK_OFFSET + brick_slot`, slot 0 meaning empty), words below it
/// are internal and hold a child group index.
pub const BRICK_OFFSET: u32 = 0x8000_0000;

} // verus!
