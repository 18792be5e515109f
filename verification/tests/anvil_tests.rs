use brickmap::anvil::{brick_from_colors, region_coords, section_brick_pos, Palette};
use brickmap::brick::Voxel;
use brickmap::math::UVec3;

fn voxel(r: u8, g: u8, b: u8, a: u8) -> Voxel {
    Voxel { r, g, b, a }
}

#[test]
fn small_world_spans_one_region() {
    // 2^9 = 512 voxels = 32 chunks = one region.
    assert_eq!(region_coords(9), vec![(0, 0)]);
}

#[test]
fn larger_world_spans_a_centered_square_of_regions() {
    // 2^10 voxels = 64 chunks = 2 regions per side, centered on the origin.
    assert_eq!(region_coords(10), vec![(-1, -1), (-1, 0), (0, -1), (0, 0)]);
}

#[test]
fn section_position_maps_into_brick_units() {
    // Depth 9: 32 chunks per side, y shifted up by half the side.
    assert_eq!(
        section_brick_pos(0, 0, 5, 7, 0, 9),
        Some(UVec3::new(5, 16, 7))
    );
    assert_eq!(
        section_brick_pos(0, 0, 0, 0, -16, 9),
        Some(UVec3::new(0, 0, 0))
    );
}

#[test]
fn section_position_out_of_the_world_is_rejected() {
    // Too far below the world: y = -17 + 16 = -1.
    assert_eq!(section_brick_pos(0, 0, 0, 0, -17, 9), None);
    // Too far up: y = 16 + 16 = 32.
    assert_eq!(section_brick_pos(0, 0, 0, 0, 16, 9), None);
}

#[test]
fn palette_returns_first_match_or_fallback() {
    let mut p = Palette::new(voxel(200, 200, 200, 127));
    p.insert(b"minecraft:grass_block".to_vec(), voxel(62, 204, 18, 255));
    p.insert(b"minecraft:water".to_vec(), voxel(20, 105, 201, 30));
    p.insert(b"minecraft:water".to_vec(), voxel(1, 1, 1, 1));
    assert_eq!(p.lookup(&b"minecraft:water".to_vec()), voxel(20, 105, 201, 30));
    assert_eq!(p.lookup(&b"minecraft:grass_block".to_vec()), voxel(62, 204, 18, 255));
    assert_eq!(p.lookup(&b"minecraft:lava".to_vec()), voxel(200, 200, 200, 127));
}

#[test]
fn brick_assembly_preserves_voxel_order() {
    let mut colours = vec![voxel(0, 0, 0, 0); 4096];
    colours[801] = voxel(1, 2, 3, 4); // (x, y, z) = (1, 2, 3)
    let b = brick_from_colors(&colours);
    assert_eq!(b.get(UVec3::new(1, 2, 3)), voxel(1, 2, 3, 4));
    assert_eq!(b.get(UVec3::new(0, 0, 0)), voxel(0, 0, 0, 0));
}
