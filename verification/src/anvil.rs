//! The compute side of world loading. Region files come in Minecraft's
//! Anvil layout, one file per 32x32 chunks of 16-voxel sections; an
//! off-the-shelf parser turns them into block names outside this crate.
//! Here live the verified parts: which regions a world of a given depth
//! spans, where a section's brick lands in the octree, the name-to-color
//! palette, and the assembly of a brick from resolved colors.

use vstd::arithmetic::power2::pow2;
use vstd::prelude::*;

use crate::brick::{Brick, Voxel};
use crate::math::{pow2_u32, UVec3};

verus! {

/// Chunks (16-voxel sections) per world side: the world is `2^world_depth`
/// voxels across.
pub open spec fn side_length_chunks(world_depth: int) -> int {
    pow2((world_depth - 4) as nat) as int
}

/// Regions per world side (32 chunks each), at least one.
pub open spec fn side_length_regions(world_depth: int) -> int {
    if side_length_chunks(world_depth) / 32 >= 1 {
        side_length_chunks(world_depth) / 32
    } else {
        1
    }
}

/// The region files a world of depth `world_depth` spans, in scan order: a
/// square centered on the origin, x-major.
pub fn region_coords(world_depth: u32) -> (r: Vec<(i32, i32)>)
    requires
        5 <= world_depth <= 24,
    ensures
        ({
            let half = side_length_regions(world_depth as int) / 2;
            let w = if half >= 1 {
                2 * half
            } else {
                1
            };
            &&& r@.len() == w * w
            &&& forall|i: int|
                0 <= i < r@.len() ==> #[trigger] r@[i] == (((-half + i / w) as i32, (-half + i
                    % w) as i32))
        }),
{
    let slc = pow2_u32(world_depth - 4);
    let slr: u32 = if slc / 32 >= 1 {
        slc / 32
    } else {
        1
    };
    let half: u32 = slr / 2;
    let w: u32 = if half >= 1 {
        2 * half
    } else {
        1
    };
    proof {
        vstd::arithmetic::power2::lemma2_to64();
        vstd::arithmetic::power2::lemma_pow2_strictly_increases((world_depth - 4) as nat, 21);
        assert((w as int) * (w as int) <= 0x4000_0000) by (nonlinear_arith)
            requires
                0 < w <= 0x8000,
        ;
    }
    let mut out: Vec<(i32, i32)> = Vec::new();
    let mut i: usize = 0;
    while i < (w as usize) * (w as usize)
        invariant
            1 <= w <= 0x8000,
            half <= 0x4000,
            w as int == (if half as int >= 1 {
                2 * (half as int)
            } else {
                1int
            }),
            half as int == side_length_regions(world_depth as int) / 2,
            i <= (w as int) * (w as int),
            (w as int) * (w as int) <= 0x4000_0000,
            out@.len() == i,
            forall|q: int|
                0 <= q < i ==> #[trigger] out@[q] == (((-(half as int) + q / (w as int)) as i32, (
                -(half as int) + q % (w as int)) as i32)),
        decreases (w as int) * (w as int) - i,
    {
        let rx: i32 = -(half as i32) + (i as u32 / w) as i32;
        let rz: i32 = -(half as i32) + (i as u32 % w) as i32;
        proof {
            assert(i as int / w as int <= w as int) by (nonlinear_arith)
                requires
                    0 <= i as int,
                    1 <= w as int,
                    i as int <= (w as int) * (w as int),
            ;
        }
        out.push((rx, rz));
        i = i + 1;
    }
    out
}

/// Where the section at `(region, chunk, section_y)` lands in the octree,
/// in brick units; `None` when it falls outside the world cube (including
/// below it, which unsigned arithmetic would otherwise wrap).
pub fn section_brick_pos(
    region_x: i32,
    region_z: i32,
    chunk_x: u32,
    chunk_z: u32,
    section_y: i32,
    world_depth: u32,
) -> (r: Option<UVec3>)
    requires
        5 <= world_depth <= 24,
        chunk_x < 32,
        chunk_z < 32,
        -0x10_0000 <= region_x <= 0x10_0000,
        -0x10_0000 <= region_z <= 0x10_0000,
        -0x10_0000 <= section_y <= 0x10_0000,
    ensures
        ({
            let slc = side_length_chunks(world_depth as int);
            let half = side_length_regions(world_depth as int) / 2;
            let px = 32 * (region_x + half) + chunk_x;
            let py = section_y + slc / 2;
            let pz = 32 * (region_z + half) + chunk_z;
            if 0 <= px < slc && 0 <= py < slc && 0 <= pz < slc {
                r == Some(UVec3 { x: px as u32, y: py as u32, z: pz as u32 })
            } else {
                r is None
            }
        }),
{
    let slc = pow2_u32(world_depth - 4);
    let slr: u32 = if slc / 32 >= 1 {
        slc / 32
    } else {
        1
    };
    let half: i64 = (slr / 2) as i64;
    proof {
        vstd::arithmetic::power2::lemma2_to64();
        vstd::arithmetic::power2::lemma_pow2_strictly_increases((world_depth - 4) as nat, 21);
    }
    let px: i64 = 32 * (region_x as i64 + half) + chunk_x as i64;
    let py: i64 = section_y as i64 + (slc / 2) as i64;
    let pz: i64 = 32 * (region_z as i64 + half) + chunk_z as i64;
    if 0 <= px && px < slc as i64 && 0 <= py && py < slc as i64 && 0 <= pz && pz < slc as i64 {
        Some(UVec3::new(px as u32, py as u32, pz as u32))
    } else {
        None
    }
}

/// The first palette entry with this name, else the fallback.
pub open spec fn spec_lookup(
    entries: Seq<(Vec<u8>, Voxel)>,
    name: Seq<u8>,
    fallback: Voxel,
) -> Voxel
    decreases entries.len(),
{
    if entries.len() == 0 {
        fallback
    } else if entries[0].0@ == name {
        entries[0].1
    } else {
        spec_lookup(entries.drop_first(), name, fallback)
    }
}

/// Compares two byte strings.
fn bytes_eq(a: &Vec<u8>, b: &Vec<u8>) -> (r: bool)
    ensures
        r == (a@ == b@),
{
    if a.len() != b.len() {
        return false;
    }
    let mut i: usize = 0;
    while i < a.len()
        invariant
            a@.len() == b@.len(),
            i <= a@.len(),
            forall|j: int| 0 <= j < i ==> a@[j] == b@[j],
        decreases a@.len() - i,
    {
        if a[i] != b[i] {
            return false;
        }
        i = i + 1;
    }
    proof {
        assert(a@ =~= b@);
    }
    true
}

/// The block-name to color palette: names map to RGBA colors, and names
/// that are missing fall back to a marked default.
pub struct Palette {
    pub entries: Vec<(Vec<u8>, Voxel)>,
    pub fallback: Voxel,
}

impl Palette {
    pub fn new(fallback: Voxel) -> (p: Palette)
        ensures
            p.entries@.len() == 0,
            p.fallback == fallback,
    {
        Palette { entries: Vec::new(), fallback }
    }

    pub fn insert(&mut self, name: Vec<u8>, colour: Voxel)
        ensures
            final(self).entries@ == old(self).entries@.push((name, colour)),
            final(self).fallback == old(self).fallback,
    {
        self.entries.push((name, colour));
    }

    /// The color of `name`: its first entry, or the fallback when the
    /// palette does not know the name.
    pub fn lookup(&self, name: &Vec<u8>) -> (c: Voxel)
        ensures
            c == spec_lookup(self.entries@, name@, self.fallback),
    {
        let mut i: usize = 0;
        proof {
            assert(self.entries@.skip(0) =~= self.entries@);
        }
        while i < self.entries.len()
            invariant
                i <= self.entries@.len(),
                spec_lookup(self.entries@, name@, self.fallback) == spec_lookup(
                    self.entries@.skip(i as int),
                    name@,
                    self.fallback,
                ),
            decreases self.entries@.len() - i,
        {
            proof {
                assert(self.entries@.skip(i as int).drop_first() =~= self.entries@.skip(
                    i as int + 1,
                ));
                assert(self.entries@.skip(i as int)[0] == self.entries@[i as int]);
            }
            if bytes_eq(&self.entries[i].0, name) {
                return self.entries[i].1;
            }
            i = i + 1;
        }
        proof {
            assert(self.entries@.skip(self.entries@.len() as int).len() == 0);
        }
        self.fallback
    }
}

/// Builds a brick from 4096 resolved colors in linear voxel order.
pub fn brick_from_colors(colours: &Vec<Voxel>) -> (b: Brick)
    requires
        colours@.len() == 4096,
    ensures
        b.wf(),
        b.data@ == colours@,
{
    let mut b = Brick::empty();
    let mut v: usize = 0;
    while v < 4096
        invariant
            colours@.len() == 4096,
            b.wf(),
            v <= 4096,
            forall|j: int| 0 <= j < v ==> b.data@[j] == colours@[j],
        decreases 4096 - v,
    {
        b.data.set(v, colours[v]);
        v = v + 1;
    }
    proof {
        assert(b.data@ =~= colours@);
    }
    b
}

} // verus!
