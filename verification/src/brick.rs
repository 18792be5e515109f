//! A brick: a dense 16x16x16 cube of RGBA voxels, the octree's storage unit.

use vstd::prelude::*;

use crate::BRICK_SIZE;

verus! {

/// One RGBA sample. `a == 0` means empty.
#[derive(Clone, Copy, PartialEq, Eq, Structural, Debug)]
pub struct Voxel {
    pub r: u8,
    pub g: u8,
    pub b: u8,
    pub a: u8,
}

impl Voxel {
    pub open spec fn zero() -> Voxel {
        Voxel { r: 0, g: 0, b: 0, a: 0 }
    }

    pub fn empty() -> (v: Voxel)
        ensures
            v == Voxel::zero(),
    {
        Voxel { r: 0, g: 0, b: 0, a: 0 }
    }
}

/// Number of voxels in a brick: 16^3.
pub const BRICK_VOLUME: usize = 4096;

/// Linear index of voxel `(x, y, z)` inside a brick.
pub open spec fn voxel_index(x: int, y: int, z: int) -> int {
    z * 256 + y * 16 + x
}

/// A dense 16^3 voxel cube.
#[derive(Clone, PartialEq, Eq, Debug)]
pub struct Brick {
    pub data: Vec<Voxel>,
}

impl Brick {
    /// A brick always holds exactly 16^3 voxels.
    pub open spec fn wf(self) -> bool {
        self.data@.len() == BRICK_VOLUME
    }

    /// The voxel stored at `(x, y, z)`.
    pub open spec fn voxel(self, x: int, y: int, z: int) -> Voxel {
        self.data@[voxel_index(x, y, z)]
    }

    /// All voxels are zero.
    pub open spec fn is_all_zero(self) -> bool {
        forall|i: int| 0 <= i < self.data@.len() ==> self.data@[i] == Voxel::zero()
    }

    /// A brick with every voxel zero.
    pub fn empty() -> (b: Brick)
        ensures
            b.wf(),
            b.is_all_zero(),
    {
        let mut data: Vec<Voxel> = Vec::new();
        let mut i: usize = 0;
        while i < BRICK_VOLUME
            invariant
                i <= BRICK_VOLUME,
                data@.len() == i,
                forall|j: int| 0 <= j < i ==> data@[j] == Voxel::zero(),
            decreases BRICK_VOLUME - i,
        {
            data.push(Voxel::empty());
            i = i + 1;
        }
        Brick { data }
    }

    /// Reads the voxel at `pos`; all coordinates must be below 16.
    pub fn get(&self, pos: crate::math::UVec3) -> (v: Voxel)
        requires
            self.wf(),
            pos.x < BRICK_SIZE,
            pos.y < BRICK_SIZE,
            pos.z < BRICK_SIZE,
        ensures
            v == self.voxel(pos.x as int, pos.y as int, pos.z as int),
    {
        let index: usize = pos.z as usize * 256 + pos.y as usize * 16 + pos.x as usize;
        self.data[index]
    }

    /// Overwrites the voxel at `pos`; all coordinates must be below 16.
    pub fn write(&mut self, pos: crate::math::UVec3, colour: Voxel)
        requires
            old(self).wf(),
            pos.x < BRICK_SIZE,
            pos.y < BRICK_SIZE,
            pos.z < BRICK_SIZE,
        ensures
            final(self).wf(),
            final(self).data@ == old(self).data@.update(
                voxel_index(pos.x as int, pos.y as int, pos.z as int),
                colour,
            ),
    {
        let index: usize = pos.z as usize * 256 + pos.y as usize * 16 + pos.x as usize;
        self.data.set(index, colour);
    }

    /// Serializes the colors to the raw RGBA byte layout of the GPU color
    /// texture: four bytes per voxel, voxels in linear index order.
    pub fn to_gpu(&self) -> (bytes: Vec<u8>)
        requires
            self.wf(),
        ensures
            bytes@.len() == 4 * BRICK_VOLUME,
            forall|i: int|
                0 <= i < BRICK_VOLUME ==> {
                    &&& bytes@[4 * i] == self.data@[i].r
                    &&& bytes@[4 * i + 1] == self.data@[i].g
                    &&& bytes@[4 * i + 2] == self.data@[i].b
                    &&& bytes@[4 * i + 3] == self.data@[i].a
                },
    {
        let mut bytes: Vec<u8> = Vec::new();
        let mut i: usize = 0;
        while i < BRICK_VOLUME
            invariant
                i <= BRICK_VOLUME,
                self.wf(),
                bytes@.len() == 4 * i,
                forall|j: int|
                    0 <= j < i ==> {
                        &&& bytes@[4 * j] == self.data@[j].r
                        &&& bytes@[4 * j + 1] == self.data@[j].g
                        &&& bytes@[4 * j + 2] == self.data@[j].b
                        &&& bytes@[4 * j + 3] == self.data@[j].a
                    },
            decreases BRICK_VOLUME - i,
        {
            let v = self.data[i];
            bytes.push(v.r);
            bytes.push(v.g);
            bytes.push(v.b);
            bytes.push(v.a);
            i = i + 1;
        }
        bytes
    }

    /// Number of 32-bit words in a brick's occupancy bitmask:
    /// (4^3 + 8^3 + 16^3) / 32.
    pub fn brick_ints() -> (n: usize)
        ensures
            n == 146,
    {
        (64 + 512 + 4096) / 32
    }

    /// Computes the hierarchical occupancy bitmask: one bit per sub-cell
    /// at resolutions 16^3, 8^3 and 4^3, set exactly when some voxel of
    /// the sub-cell is non-empty; 4672 bits packed into 584 bytes.
    #[verifier::rlimit(100)]
    pub fn get_bitmask(&self) -> (bm: Vec<u8>)
        requires
            self.wf(),
        ensures
            bm@.len() == 584,
            forall|idx: int|
                0 <= idx < 4672 ==> (bit_set(bm@, idx) <==> mask_bit_expected(self.data@, idx)),
    {
        let mut bm: Vec<u8> = vec![0u8; 584];
        proof {
            assert forall|idx: int| 0 <= idx < 4672 implies !bit_set(bm@, idx) by {
                assert(bm@[idx / 8] == 0u8);
                let k = (idx % 8) as u8;
                assert(((0u8 >> k) & 1) != 1) by (bit_vector);
            };
        }
        let mut v: usize = 0;
        while v < 4096
            invariant
                self.wf(),
                v <= 4096,
                bm@.len() == 584,
                forall|idx: int|
                    0 <= idx < 4672 ==> (bit_set(bm@, idx) <==> exists|w: int|
                        #![trigger self.data@[w]]
                        0 <= w < v && self.data@[w].a != 0 && {
                            let x = w % 16;
                            let y = (w / 16) % 16;
                            let z = w / 256;
                            ||| idx == sub_index(16, x, y, z)
                            ||| idx == 4096 + sub_index(8, x, y, z)
                            ||| idx == 4608 + sub_index(4, x, y, z)
                        }),
            decreases 4096 - v,
        {
            let a = self.data[v].a;
            if a != 0 {
                let x = (v % 16) as u32;
                let y = ((v / 16) % 16) as u32;
                let z = (v / 256) as u32;
                let i16: usize = (((x * 16) / 16) * 256 + ((y * 16) / 16) * 16 + (z * 16)
                    / 16) as usize;
                let i8m: usize = 4096 + (((x * 8) / 16) * 64 + ((y * 8) / 16) * 8 + (z * 8)
                    / 16) as usize;
                let i4: usize = 4608 + (((x * 4) / 16) * 16 + ((y * 4) / 16) * 4 + (z * 4)
                    / 16) as usize;
                set_mask_bit(&mut bm, i16);
                set_mask_bit(&mut bm, i8m);
                set_mask_bit(&mut bm, i4);
            }
            v = v + 1;
        }
        bm
    }

    /// Reads the source voxel for mipmapping: parent voxel `(px, py, pz)`
    /// maps to the 2x2x2 block at `2 * (p % 8)` in the child, and
    /// `(jx, jy, jz)` selects one of its corners.
    pub fn sample(&self, px: u32, py: u32, pz: u32, jx: u32, jy: u32, jz: u32) -> (v: Voxel)
        requires
            self.wf(),
            px < 16,
            py < 16,
            pz < 16,
            jx < 2,
            jy < 2,
            jz < 2,
        ensures
            v == mip_source(self.data@, px as int, py as int, pz as int, jx as int, jy as int, jz as int),
    {
        self.get(
            crate::math::UVec3::new(2 * (px % 8) + jx, 2 * (py % 8) + jy, 2 * (pz % 8) + jz),
        )
    }
}

/// Bit position of the sub-cell holding voxel `(x, y, z)` at mask
/// resolution `s` (one of 4, 8, 16), before the resolution's offset.
pub open spec fn sub_index(s: int, x: int, y: int, z: int) -> int {
    ((x * s) / 16) * (s * s) + ((y * s) / 16) * s + (z * s) / 16
}

/// Whether occupancy bit `idx` of the hierarchical bitmask must be set:
/// some non-empty voxel falls into the sub-cell it describes. Bits
/// `0..4096` are the 16^3 mask, `4096..4608` the 8^3 mask, and
/// `4608..4672` the 4^3 mask.
pub open spec fn mask_bit_expected(data: Seq<Voxel>, idx: int) -> bool {
    exists|v: int|
        #![trigger data[v]]
        0 <= v < 4096 && data[v].a != 0 && {
            let x = v % 16;
            let y = (v / 16) % 16;
            let z = v / 256;
            ||| idx == sub_index(16, x, y, z)
            ||| idx == 4096 + sub_index(8, x, y, z)
            ||| idx == 4608 + sub_index(4, x, y, z)
        }
}

/// Bit `k` of a byte.
pub open spec fn byte_bit(b: u8, k: u8) -> bool {
    ((b >> k) & 1) == 1
}

/// Bit `idx` of a little-endian bit array.
pub open spec fn bit_set(bytes: Seq<u8>, idx: int) -> bool {
    byte_bit(bytes[idx / 8], (idx % 8) as u8)
}

/// Oring in a single bit sets it and leaves every other bit alone.
proof fn lemma_u8_or_bit(b: u8, k: u8)
    by (bit_vector)
    requires
        k < 8,
    ensures
        forall|j: u8| j < 8 && j != k ==> byte_bit(b | (1u8 << k), j) == byte_bit(b, j),
        byte_bit(b | (1u8 << k), k),
{
}

/// Sets occupancy bit `idx` in the packed mask.
fn set_mask_bit(bm: &mut Vec<u8>, idx: usize)
    requires
        old(bm)@.len() == 584,
        idx < 4672,
    ensures
        final(bm)@.len() == 584,
        forall|i: int| 0 <= i < 4672 ==> (bit_set(final(bm)@, i) <==> (bit_set(old(bm)@, i) || i
            == idx)),
{
    let j = idx / 8;
    let k = (idx % 8) as u8;
    let b = bm[j];
    bm.set(j, b | (1u8 << k));
    proof {
        lemma_u8_or_bit(b, k);
        assert forall|i: int| 0 <= i < 4672 implies (bit_set(bm@, i) <==> (bit_set(old(bm)@, i)
            || i == idx)) by {
            if i / 8 != j {
                assert(bm@[i / 8] == old(bm)@[i / 8]);
            } else {
                if i != idx {
                    assert((i % 8) as u8 != k);
                    assert(byte_bit(b | (1u8 << k), (i % 8) as u8) == byte_bit(
                        b,
                        (i % 8) as u8,
                    ));
                }
            }
        };
    }
}

/// The child voxel that contributes to parent voxel `(px, py, pz)` with
/// corner offset `(jx, jy, jz)` during mipmapping.
pub open spec fn mip_source(child: Seq<Voxel>, px: int, py: int, pz: int, jx: int, jy: int, jz: int) -> Voxel {
    child[voxel_index(2 * (px % 8) + jx, 2 * (py % 8) + jy, 2 * (pz % 8) + jz)]
}

/// Sum of the alphas of the eight source voxels of parent voxel `(px, py, pz)`.
pub open spec fn mip_alpha_sum(child: Seq<Voxel>, px: int, py: int, pz: int) -> int {
    mip_source(child, px, py, pz, 0, 0, 0).a + mip_source(child, px, py, pz, 1, 0, 0).a
        + mip_source(child, px, py, pz, 0, 1, 0).a + mip_source(child, px, py, pz, 1, 1, 0).a
        + mip_source(child, px, py, pz, 0, 0, 1).a + mip_source(child, px, py, pz, 1, 0, 1).a
        + mip_source(child, px, py, pz, 0, 1, 1).a + mip_source(child, px, py, pz, 1, 1, 1).a
}

/// Alpha-weighted sum of one color channel (selected by `chan`: 0 = red,
/// 1 = green, otherwise blue) over the eight source voxels.
pub open spec fn mip_channel_sum(child: Seq<Voxel>, px: int, py: int, pz: int, chan: int) -> int {
    mip_weight(mip_source(child, px, py, pz, 0, 0, 0), chan) + mip_weight(
        mip_source(child, px, py, pz, 1, 0, 0),
        chan,
    ) + mip_weight(mip_source(child, px, py, pz, 0, 1, 0), chan) + mip_weight(
        mip_source(child, px, py, pz, 1, 1, 0),
        chan,
    ) + mip_weight(mip_source(child, px, py, pz, 0, 0, 1), chan) + mip_weight(
        mip_source(child, px, py, pz, 1, 0, 1),
        chan,
    ) + mip_weight(mip_source(child, px, py, pz, 0, 1, 1), chan) + mip_weight(
        mip_source(child, px, py, pz, 1, 1, 1),
        chan,
    )
}

/// One channel of a voxel weighted by its alpha.
pub open spec fn mip_weight(v: Voxel, chan: int) -> int {
    (if chan == 0 {
        v.r
    } else if chan == 1 {
        v.g
    } else {
        v.b
    }) * v.a
}

/// The alpha-weighted average of the eight source voxels of parent voxel
/// `(px, py, pz)`: each color channel is `sum(channel * alpha) / sum(alpha)`
/// and the alpha is `sum(alpha) / 8`, in integer division; all-transparent
/// sources give the zero voxel.
pub open spec fn mip_voxel(child: Seq<Voxel>, px: int, py: int, pz: int) -> Voxel {
    let sa = mip_alpha_sum(child, px, py, pz);
    if sa == 0 {
        Voxel::zero()
    } else {
        Voxel {
            r: (mip_channel_sum(child, px, py, pz, 0) / sa) as u8,
            g: (mip_channel_sum(child, px, py, pz, 1) / sa) as u8,
            b: (mip_channel_sum(child, px, py, pz, 2) / sa) as u8,
            a: (sa / 8) as u8,
        }
    }
}

} // verus!
