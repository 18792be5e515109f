use brickmap::brick::{Brick, Voxel};
use brickmap::cpu_brickmap::CpuBrickmap;
use brickmap::error::VoxelError;
use brickmap::gpu_brickmap::GpuVoxelWorld;
use brickmap::math::UVec3;
use brickmap::BRICK_OFFSET;

fn voxel(r: u8, g: u8, b: u8, a: u8) -> Voxel {
    Voxel { r, g, b, a }
}

fn one_voxel_brick(v: Voxel) -> Brick {
    let mut b = Brick::empty();
    b.write(UVec3::new(0, 0, 0), v);
    b
}

#[test]
fn placement_roundtrip_returns_the_brick() {
    let mut cpu = CpuBrickmap::new(3);
    let mut b = Brick::empty();
    b.write(UVec3::new(1, 2, 3), voxel(11, 22, 33, 44));
    cpu.place_brick(b, UVec3::new(5, 1, 6)).unwrap();
    let (index, pos, depth) = cpu.get_node(UVec3::new(5, 1, 6), Some(3));
    assert_eq!(depth, 3);
    assert_eq!(pos, UVec3::new(5, 1, 6));
    let brick_index = cpu.brickmap[index].brick as usize;
    assert!(brick_index != 0);
    assert_eq!(cpu.bricks[brick_index].get(UVec3::new(1, 2, 3)), voxel(11, 22, 33, 44));
}

#[test]
fn placement_out_of_bounds_is_rejected() {
    let mut cpu = CpuBrickmap::new(2);
    let r = cpu.place_brick(Brick::empty(), UVec3::new(4, 0, 0));
    assert_eq!(r, Err(VoxelError::OutOfBounds));
    assert_eq!(cpu.brickmap.len(), 8);
}

#[test]
fn mipmap_alpha_is_source_alpha_sum_over_eight() {
    let mut cpu = CpuBrickmap::new(2);
    cpu.place_brick(one_voxel_brick(voxel(100, 200, 50, 255)), UVec3::new(0, 0, 0)).unwrap();
    cpu.recreate_mipmaps();
    // The depth-1 node over (0,0,0) carries the mip of its children.
    let (index, _, depth) = cpu.get_node(UVec3::new(0, 0, 0), Some(1));
    assert_eq!(depth, 1);
    let mip = &cpu.bricks[cpu.brickmap[index].brick as usize];
    // Only source voxel (0,0,0) is non-empty: colors pass through, the
    // alpha averages to 255 / 8 = 31.
    assert_eq!(mip.get(UVec3::new(0, 0, 0)), voxel(100, 200, 50, 31));
    for x in 0..16 {
        for y in 0..16 {
            for z in 0..16 {
                if (x, y, z) != (0, 0, 0) {
                    assert_eq!(mip.get(UVec3::new(x, y, z)).a, 0);
                }
            }
        }
    }
}

#[test]
fn mipmap_blends_two_sources() {
    let mut cpu = CpuBrickmap::new(2);
    let mut b = Brick::empty();
    // Both map to parent voxel (0,0,0): sum_a = 300, r = (100*100 + 60*200)/300.
    b.write(UVec3::new(0, 0, 0), voxel(100, 0, 0, 100));
    b.write(UVec3::new(1, 0, 0), voxel(60, 0, 0, 200));
    cpu.place_brick(b, UVec3::new(0, 0, 0)).unwrap();
    cpu.recreate_mipmaps();
    let (index, _, _) = cpu.get_node(UVec3::new(0, 0, 0), Some(1));
    let mip = &cpu.bricks[cpu.brickmap[index].brick as usize];
    let got = mip.get(UVec3::new(0, 0, 0));
    assert_eq!(got.r, ((100 * 100 + 60 * 200) / 300) as u8);
    assert_eq!(got.a, (300 / 8) as u8);
}

#[test]
fn empty_world_bootstrap_has_eight_empty_root_leaves() {
    let mut cpu = CpuBrickmap::new(3);
    cpu.recreate_mipmaps();
    assert!(cpu.brickmap.iter().all(|n| n.brick == 0 && n.children == 0));
    let (gpu, uploads) = GpuVoxelWorld::new(&cpu, 64, UVec3::new(64, 64, 64)).unwrap();
    assert!(uploads.is_empty());
    for i in 0..8 {
        assert_eq!(gpu.brickmap[i], BRICK_OFFSET);
    }
    assert_eq!(gpu.brickmap_holes.len(), 63);
}

#[test]
fn seeding_allocates_one_slot_per_populated_octant() {
    let mut cpu = CpuBrickmap::new(2);
    cpu.place_brick(one_voxel_brick(voxel(1, 1, 1, 255)), UVec3::new(0, 0, 0)).unwrap();
    cpu.place_brick(one_voxel_brick(voxel(2, 2, 2, 255)), UVec3::new(3, 3, 3)).unwrap();
    cpu.recreate_mipmaps();
    let (gpu, uploads) = GpuVoxelWorld::new(&cpu, 32, UVec3::new(64, 64, 64)).unwrap();
    assert_eq!(uploads.len(), 2);
    assert_eq!(uploads[0].slot, 1);
    assert_eq!(uploads[1].slot, 2);
    // Octants 0 (x<2,y<2,z<2) and 7 carry bricks, the others are empty.
    assert_eq!(gpu.brickmap[0], BRICK_OFFSET + 1);
    assert_eq!(gpu.brickmap[7], BRICK_OFFSET + 2);
    for i in 1..7 {
        assert_eq!(gpu.brickmap[i], BRICK_OFFSET);
    }
}

#[test]
fn divide_then_cull_restores_the_node_and_free_lists() {
    let mut cpu = CpuBrickmap::new(2);
    cpu.place_brick(one_voxel_brick(voxel(9, 9, 9, 255)), UVec3::new(0, 0, 0)).unwrap();
    cpu.recreate_mipmaps();
    let (mut gpu, _) = GpuVoxelWorld::new(&cpu, 32, UVec3::new(64, 64, 64)).unwrap();

    let word_before = gpu.brickmap[0];
    let node_holes_before = gpu.brickmap_holes.clone();
    let mut brick_holes_before = gpu.brick_holes.clone();
    let gpu_to_cpu_before = gpu.gpu_to_cpu[0];

    let ups = gpu.divide_node(0, &cpu).unwrap();
    assert_eq!(ups.len(), 1); // one populated child under octant 0
    assert!(gpu.brickmap[0] < BRICK_OFFSET);

    let cups = gpu.cull_node(0, &cpu).unwrap();
    assert_eq!(cups.len(), 1);

    assert_eq!(gpu.brickmap[0], word_before);
    assert_eq!(gpu.gpu_to_cpu[0], gpu_to_cpu_before);
    assert_eq!(gpu.brickmap_holes, node_holes_before);
    let mut brick_holes_after = gpu.brick_holes.clone();
    brick_holes_before.sort();
    brick_holes_after.sort();
    assert_eq!(brick_holes_after, brick_holes_before);
}

#[test]
fn divide_refuses_internal_empty_and_childless_nodes() {
    let mut cpu = CpuBrickmap::new(2);
    cpu.place_brick(one_voxel_brick(voxel(9, 9, 9, 255)), UVec3::new(0, 0, 0)).unwrap();
    cpu.recreate_mipmaps();
    let (mut gpu, _) = GpuVoxelWorld::new(&cpu, 32, UVec3::new(64, 64, 64)).unwrap();

    // Octant 1 is an empty leaf: nothing to divide.
    assert_eq!(gpu.divide_node(1, &cpu), Err(VoxelError::InvariantViolation));
    // Octant 0 divides once, then refuses a second time.
    gpu.divide_node(0, &cpu).unwrap();
    assert_eq!(gpu.divide_node(0, &cpu), Err(VoxelError::InvariantViolation));
}

#[test]
fn cull_refuses_leaves() {
    let mut cpu = CpuBrickmap::new(2);
    cpu.place_brick(one_voxel_brick(voxel(9, 9, 9, 255)), UVec3::new(0, 0, 0)).unwrap();
    cpu.recreate_mipmaps();
    let (mut gpu, _) = GpuVoxelWorld::new(&cpu, 32, UVec3::new(64, 64, 64)).unwrap();
    assert_eq!(gpu.cull_node(0, &cpu), Err(VoxelError::InvariantViolation));
}

#[test]
fn divide_exhausts_when_no_group_is_free() {
    let mut cpu = CpuBrickmap::new(2);
    cpu.place_brick(one_voxel_brick(voxel(1, 1, 1, 255)), UVec3::new(0, 0, 0)).unwrap();
    cpu.place_brick(one_voxel_brick(voxel(2, 2, 2, 255)), UVec3::new(3, 3, 3)).unwrap();
    cpu.recreate_mipmaps();
    // Two free groups only: the second divide takes the last one, the
    // third has nothing left.
    let (mut gpu, _) = GpuVoxelWorld::new(&cpu, 2, UVec3::new(64, 64, 64)).unwrap();
    gpu.divide_node(0, &cpu).unwrap();
    assert_eq!(gpu.divide_node(7, &cpu), Err(VoxelError::Exhausted));
}

#[test]
fn traversal_visits_roots_first_and_children_after_divide() {
    let mut cpu = CpuBrickmap::new(2);
    cpu.place_brick(one_voxel_brick(voxel(9, 9, 9, 255)), UVec3::new(0, 0, 0)).unwrap();
    cpu.recreate_mipmaps();
    let (mut gpu, _) = GpuVoxelWorld::new(&cpu, 32, UVec3::new(64, 64, 64)).unwrap();
    let visits = gpu.recursive_search();
    assert_eq!(visits.len(), 8);
    assert_eq!(visits[0].index, 0);
    assert_eq!(visits[0].depth, 1);
    assert_eq!(visits[0].pos, UVec3::new(0, 0, 0));
    assert_eq!(visits[7].pos, UVec3::new(2, 2, 2));

    gpu.divide_node(0, &cpu).unwrap();
    let visits = gpu.recursive_search();
    assert_eq!(visits.len(), 16);
    // Pre-order: the divided root comes first, then its eight children.
    assert_eq!(visits[0].index, 0);
    assert_eq!(visits[1].depth, 2);
    assert_eq!(visits[1].pos, UVec3::new(0, 0, 0));
    assert_eq!(visits[2].pos, UVec3::new(0, 0, 1));
}

#[test]
fn brick_slots_allocate_from_one_and_map_x_fastest() {
    let mut cpu = CpuBrickmap::new(2);
    cpu.recreate_mipmaps();
    let (mut gpu, _) = GpuVoxelWorld::new(&cpu, 4, UVec3::new(64, 64, 64)).unwrap();
    assert_eq!(gpu.allocate_brick(), Ok(1));
    assert_eq!(gpu.allocate_brick(), Ok(2));
    // The texture is 4 bricks per side: slot s sits at
    // (s / 16, (s / 4) % 4, s % 4) * 16 voxels.
    assert_eq!(gpu.brick_pos(0), UVec3::new(0, 0, 0));
    assert_eq!(gpu.brick_pos(1), UVec3::new(0, 0, 16));
    assert_eq!(gpu.brick_pos(4), UVec3::new(0, 16, 0));
    assert_eq!(gpu.brick_pos(16), UVec3::new(16, 0, 0));
    assert_eq!(gpu.brick_pos(21), UVec3::new(16, 16, 16));
}

#[test]
fn allocation_exhausts_only_when_empty() {
    let mut cpu = CpuBrickmap::new(2);
    cpu.recreate_mipmaps();
    // A 32-voxel texture holds 8 brick slots; slot 0 is reserved.
    let (mut gpu, _) = GpuVoxelWorld::new(&cpu, 4, UVec3::new(32, 32, 32)).unwrap();
    for expected in 1..8 {
        assert_eq!(gpu.allocate_brick(), Ok(expected));
    }
    assert_eq!(gpu.allocate_brick(), Err(VoxelError::Exhausted));
}

#[test]
fn full_map_serialization_packs_nodes_and_scatters_colors() {
    let mut cpu = CpuBrickmap::new(1);
    cpu.place_brick(one_voxel_brick(voxel(5, 6, 7, 255)), UVec3::new(0, 0, 0)).unwrap();
    let (packed, bytes) = cpu.to_gpu(UVec3::new(32, 32, 32));
    assert_eq!(packed.len(), cpu.brickmap.len());
    for (i, node) in cpu.brickmap.iter().enumerate() {
        assert_eq!(packed[i], node.children | node.brick << 16);
    }
    assert_eq!(bytes.len(), 4 * 32 * 32 * 32);
    // Brick 1 lands at texture block (0, 0, 16); its voxel (0,0,0) is the
    // texel with linear index 16 * 32 * 32.
    let t = 16 * 32 * 32 * 4;
    assert_eq!(&bytes[t..t + 4], &[5, 6, 7, 255]);
    // Brick 0 is the canonical empty brick at the texture origin.
    assert_eq!(&bytes[0..4], &[0, 0, 0, 0]);
}
