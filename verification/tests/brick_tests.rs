use brickmap::brick::{Brick, Voxel};
use brickmap::math::UVec3;

fn voxel(r: u8, g: u8, b: u8, a: u8) -> Voxel {
    Voxel { r, g, b, a }
}

#[test]
fn empty_brick_is_all_zero() {
    let b = Brick::empty();
    for x in 0..16 {
        for y in 0..16 {
            for z in 0..16 {
                let v = b.get(UVec3::new(x, y, z));
                assert_eq!(v, voxel(0, 0, 0, 0));
            }
        }
    }
}

#[test]
fn write_then_get_roundtrip() {
    let mut b = Brick::empty();
    b.write(UVec3::new(3, 5, 7), voxel(10, 20, 30, 40));
    assert_eq!(b.get(UVec3::new(3, 5, 7)), voxel(10, 20, 30, 40));
    assert_eq!(b.get(UVec3::new(7, 5, 3)), voxel(0, 0, 0, 0));
}

#[test]
fn brick_ints_is_146() {
    assert_eq!(Brick::brick_ints(), 146);
}

#[test]
fn color_bytes_follow_voxel_order() {
    let mut b = Brick::empty();
    // Linear index of (1, 2, 3) is 3 * 256 + 2 * 16 + 1 = 801.
    b.write(UVec3::new(1, 2, 3), voxel(9, 8, 7, 6));
    let bytes = b.to_gpu();
    assert_eq!(bytes.len(), 4 * 4096);
    assert_eq!(&bytes[4 * 801..4 * 801 + 4], &[9, 8, 7, 6]);
    assert_eq!(&bytes[0..4], &[0, 0, 0, 0]);
}

#[test]
fn bitmask_corner_voxel_sets_bit_zero_of_every_level() {
    let mut b = Brick::empty();
    b.write(UVec3::new(0, 0, 0), voxel(0, 0, 0, 255));
    let bm = b.get_bitmask();
    assert_eq!(bm.len(), 584);
    // 16^3 mask starts at bit 0, the 8^3 mask at bit 4096 (byte 512), the
    // 4^3 mask at bit 4608 (byte 576).
    assert_eq!(bm[0] & 1, 1);
    assert_eq!(bm[512] & 1, 1);
    assert_eq!(bm[576] & 1, 1);
    // No other bit of the finest mask is set.
    assert_eq!(bm[0], 1);
    for i in 1..512 {
        assert_eq!(bm[i], 0);
    }
}

#[test]
fn bitmask_empty_brick_is_all_zero() {
    let b = Brick::empty();
    let bm = b.get_bitmask();
    assert!(bm.iter().all(|&byte| byte == 0));
}

#[test]
fn bitmask_far_corner_voxel() {
    let mut b = Brick::empty();
    b.write(UVec3::new(15, 15, 15), voxel(0, 0, 0, 1));
    let bm = b.get_bitmask();
    // Bit index at 16^3: 15 * 256 + 15 * 16 + 15 = 4095 (x-major).
    assert_eq!(bm[4095 / 8] >> (4095 % 8) & 1, 1);
    // At 8^3: 4096 + 7 * 64 + 7 * 8 + 7 = 4096 + 511.
    let i8 = 4096 + 511;
    assert_eq!(bm[i8 / 8] >> (i8 % 8) & 1, 1);
    // At 4^3: 4608 + 3 * 16 + 3 * 4 + 3 = 4608 + 63.
    let i4 = 4608 + 63;
    assert_eq!(bm[i4 / 8] >> (i4 % 8) & 1, 1);
}
