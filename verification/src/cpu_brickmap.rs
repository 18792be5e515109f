//! The host-side octree: unbounded, built once at load time, then immutable.
//!
//! Nodes live in a flat array, eight children to a group; node 0..8 are the
//! root group. A node holds a child group index (`0` = none) and a brick
//! index into `bricks` (`0` = the canonical empty brick).

use vstd::arithmetic::power2::pow2;
use vstd::prelude::*;

use crate::brick::{mip_voxel, Brick, Voxel};
use crate::error::VoxelError;
use crate::math::{pow2_u32, UVec3};

verus! {

/// One octree node: a child group index and a brick index, each 0 for none.
#[derive(Clone, Copy, PartialEq, Eq, Structural, Debug)]
pub struct Node {
    pub children: u32,
    pub brick: u32,
}

impl Node {
    pub fn zero() -> (n: Node)
        ensures
            n == (Node { children: 0u32, brick: 0u32 }),
    {
        Node { children: 0, brick: 0 }
    }
}

/// Where a descent through the octree ends: the node index reached, the
/// origin of its cube in brick units, and its depth in node levels.
pub struct Descent {
    pub index: int,
    pub x: int,
    pub y: int,
    pub z: int,
    pub depth: int,
}

/// One step of the descent from a group at `(base, origin, d)`: the child
/// octant holding `pos` is chosen; the walk stops at an empty child or at
/// `max_depth`, else continues into the child's group.
pub open spec fn spec_descend(
    nodes: Seq<Node>,
    total_depth: int,
    pos: UVec3,
    max_depth: int,
    base: int,
    ox: int,
    oy: int,
    oz: int,
    d: int,
) -> Descent
    decreases total_depth - d,
{
    let half = pow2((total_depth - d) as nat) as int;
    let mx = pos.x as int >= ox + half;
    let my = pos.y as int >= oy + half;
    let mz = pos.z as int >= oz + half;
    let child = (if mx { 4int } else { 0int }) + (if my { 2int } else { 0int }) + (if mz { 1int } else { 0int });
    let nx = if mx { ox + half } else { ox };
    let ny = if my { oy + half } else { oy };
    let nz = if mz { oz + half } else { oz };
    let index = base + child;
    let c = nodes[index].children as int;
    if c == 0 || d >= max_depth || d >= total_depth {
        Descent { index, x: nx, y: ny, z: nz, depth: d }
    } else {
        spec_descend(nodes, total_depth, pos, max_depth, 8 * c, nx, ny, nz, d + 1)
    }
}

/// Child groups sit strictly to the right of their parent and inside the
/// arena; descents therefore move right and stay in bounds.
pub open spec fn nodes_ordered(nodes: Seq<Node>) -> bool {
    forall|j: int|
        0 <= j < nodes.len() && (#[trigger] nodes[j]).children != 0 ==> {
            let c = nodes[j].children as int;
            &&& 8 * c > j
            &&& 8 * c + 8 <= nodes.len()
        }
}

/// A descent that starts inside a valid group ends at a valid index at or
/// after the group's base.
pub proof fn lemma_descend_in_range(
    nodes: Seq<Node>,
    total_depth: int,
    pos: UVec3,
    maxd: int,
    base: int,
    ox: int,
    oy: int,
    oz: int,
    d: int,
)
    requires
        nodes_ordered(nodes),
        0 <= base,
        base + 8 <= nodes.len(),
    ensures
        ({
            let r = spec_descend(nodes, total_depth, pos, maxd, base, ox, oy, oz, d);
            base <= r.index && r.index < nodes.len()
        }),
    decreases total_depth - d,
{
    reveal_with_fuel(spec_descend, 2);
    let half = pow2((total_depth - d) as nat) as int;
    let mx = pos.x as int >= ox + half;
    let my = pos.y as int >= oy + half;
    let mz = pos.z as int >= oz + half;
    let child = (if mx { 4int } else { 0int }) + (if my { 2int } else { 0int }) + (if mz {
        1int
    } else {
        0int
    });
    let nx = if mx { ox + half } else { ox };
    let ny = if my { oy + half } else { oy };
    let nz = if mz { oz + half } else { oz };
    let index = base + child;
    let c = nodes[index].children as int;
    if !(c == 0 || d >= maxd || d >= total_depth) {
        lemma_descend_in_range(nodes, total_depth, pos, maxd, 8 * c, nx, ny, nz, d + 1);
    }
}

/// One definitional unfolding of `spec_descend`, packaged so that callers
/// need not raise the fuel themselves.
pub proof fn lemma_descend_unfold(
    nodes: Seq<Node>,
    total_depth: int,
    pos: UVec3,
    maxd: int,
    base: int,
    ox: int,
    oy: int,
    oz: int,
    d: int,
)
    ensures
        ({
            let half = pow2((total_depth - d) as nat) as int;
            let mx = pos.x as int >= ox + half;
            let my = pos.y as int >= oy + half;
            let mz = pos.z as int >= oz + half;
            let child = (if mx { 4int } else { 0int }) + (if my { 2int } else { 0int }) + (if mz {
                1int
            } else {
                0int
            });
            let nx = if mx { ox + half } else { ox };
            let ny = if my { oy + half } else { oy };
            let nz = if mz { oz + half } else { oz };
            let index = base + child;
            let c = nodes[index].children as int;
            let r = spec_descend(nodes, total_depth, pos, maxd, base, ox, oy, oz, d);
            if c == 0 || d >= maxd || d >= total_depth {
                r == (Descent { index, x: nx, y: ny, z: nz, depth: d })
            } else {
                r == spec_descend(nodes, total_depth, pos, maxd, 8 * c, nx, ny, nz, d + 1)
            }
        }),
{
    reveal_with_fuel(spec_descend, 2);
}

/// Editing the arena only at the end point of a descent (and appending new
/// slots) leaves the walk to that end point unchanged; from there the new
/// walk follows the edited node.
pub proof fn lemma_descend_update(
    nodes: Seq<Node>,
    nodes2: Seq<Node>,
    total_depth: int,
    pos: UVec3,
    maxd: int,
    base: int,
    ox: int,
    oy: int,
    oz: int,
    d: int,
)
    requires
        nodes_ordered(nodes),
        0 <= base,
        base + 8 <= nodes.len(),
        nodes2.len() >= nodes.len(),
        forall|j: int|
            0 <= j < nodes.len() && j != spec_descend(
                nodes,
                total_depth,
                pos,
                maxd,
                base,
                ox,
                oy,
                oz,
                d,
            ).index ==> nodes2[j] == nodes[j],
    ensures
        ({
            let r = spec_descend(nodes, total_depth, pos, maxd, base, ox, oy, oz, d);
            let c2 = nodes2[r.index].children as int;
            if c2 != 0 && r.depth < maxd && r.depth < total_depth {
                spec_descend(nodes2, total_depth, pos, maxd, base, ox, oy, oz, d)
                    == spec_descend(nodes2, total_depth, pos, maxd, 8 * c2, r.x, r.y, r.z, r.depth + 1)
            } else {
                spec_descend(nodes2, total_depth, pos, maxd, base, ox, oy, oz, d) == (Descent {
                    index: r.index,
                    x: r.x,
                    y: r.y,
                    z: r.z,
                    depth: r.depth,
                })
            }
        }),
    decreases total_depth - d,
{
    reveal_with_fuel(spec_descend, 2);
    let r = spec_descend(nodes, total_depth, pos, maxd, base, ox, oy, oz, d);
    let half = pow2((total_depth - d) as nat) as int;
    let mx = pos.x as int >= ox + half;
    let my = pos.y as int >= oy + half;
    let mz = pos.z as int >= oz + half;
    let child = (if mx { 4int } else { 0int }) + (if my { 2int } else { 0int }) + (if mz {
        1int
    } else {
        0int
    });
    let nx = if mx { ox + half } else { ox };
    let ny = if my { oy + half } else { oy };
    let nz = if mz { oz + half } else { oz };
    let index = base + child;
    let c = nodes[index].children as int;
    if c == 0 || d >= maxd || d >= total_depth {
        // The walk in `nodes` stops right here, so `r.index == index`.
        assert(r.index == index);
    } else {
        lemma_descend_in_range(nodes, total_depth, pos, maxd, 8 * c, nx, ny, nz, d + 1);
        assert(r == spec_descend(nodes, total_depth, pos, maxd, 8 * c, nx, ny, nz, d + 1));
        assert(r.index >= 8 * c);
        assert(index < 8 * c);
        assert(nodes2[index] == nodes[index]);
        lemma_descend_update(nodes, nodes2, total_depth, pos, maxd, 8 * c, nx, ny, nz, d + 1);
    }
}

/// The linear texel index of voxel `(px, py, pz)` in a `side^3` RGBA
/// texture, x-fastest.
pub open spec fn texel(side: int, px: int, py: int, pz: int) -> int {
    pz * (side * side) + py * side + px
}

/// Origin (in voxels) of brick slot `b` inside a cubic texture of
/// `d` bricks per side, along each axis.
pub open spec fn slot_origin_x(d: int, b: int) -> int {
    16 * (b / (d * d))
}

pub open spec fn slot_origin_y(d: int, b: int) -> int {
    16 * ((b / d) % d)
}

pub open spec fn slot_origin_z(d: int, b: int) -> int {
    16 * (b % d)
}

/// A texel index decomposes back into its coordinates, so the map from
/// coordinates to indices is injective.
pub proof fn lemma_texel_decompose(side: int, px: int, py: int, pz: int)
    requires
        1 <= side,
        0 <= px < side,
        0 <= py < side,
        0 <= pz < side,
    ensures
        ({
            let t = texel(side, px, py, pz);
            &&& 0 <= t < side * side * side
            &&& t % side == px
            &&& (t / side) % side == py
            &&& t / (side * side) == pz
        }),
{
    let t = texel(side, px, py, pz);
    assert(t == side * (pz * side + py) + px && 0 <= pz * side + py < side * side && t < side
        * side * side) by (nonlinear_arith)
        requires
            0 <= px < side,
            0 <= py < side,
            0 <= pz < side,
            1 <= side,
            t == pz * (side * side) + py * side + px,
    ;
    vstd::arithmetic::div_mod::lemma_div_multiples_vanish_fancy(pz * side + py, px, side);
    vstd::arithmetic::div_mod::lemma_fundamental_div_mod(t, side);
    vstd::arithmetic::div_mod::lemma_div_multiples_vanish_fancy(pz, py, side);
    vstd::arithmetic::div_mod::lemma_fundamental_div_mod(t / side, side);
    vstd::arithmetic::div_mod::lemma_div_denominator(t, side, side);
}

/// A slot index decomposes back into its origin triple, so distinct slots
/// have distinct origins.
pub proof fn lemma_slot_decompose(d: int, b: int)
    requires
        1 <= d,
        0 <= b < d * d * d,
    ensures
        0 <= b / (d * d) < d,
        0 <= (b / d) % d < d,
        0 <= b % d < d,
        b == (b / (d * d)) * (d * d) + ((b / d) % d) * d + b % d,
{
    vstd::arithmetic::div_mod::lemma_fundamental_div_mod(b, d);
    vstd::arithmetic::div_mod::lemma_fundamental_div_mod(b / d, d);
    vstd::arithmetic::div_mod::lemma_div_denominator(b, d, d);
    vstd::arithmetic::div_mod::lemma_multiply_divide_lt(b, d * d, d);
    vstd::arithmetic::div_mod::lemma_div_pos_is_pos(b, d);
    assert(b % d < d && (b / d) % d < d && 0 <= b % d && 0 <= (b / d) % d);
    assert(d * (d * (b / (d * d)) + (b / d) % d) == (b / (d * d)) * (d * d) + ((b / d) % d)
        * d) by (nonlinear_arith);
}

/// A voxel's linear index decomposes into its local coordinates.
pub proof fn lemma_voxel_decompose(v: int)
    requires
        0 <= v < 4096,
    ensures
        0 <= v % 16 < 16,
        0 <= (v / 16) % 16 < 16,
        0 <= v / 256 < 16,
        v == (v / 256) * 256 + ((v / 16) % 16) * 16 + v % 16,
{
    vstd::arithmetic::div_mod::lemma_fundamental_div_mod(v, 16);
    vstd::arithmetic::div_mod::lemma_fundamental_div_mod(v / 16, 16);
    vstd::arithmetic::div_mod::lemma_div_denominator(v, 16, 16);
}

/// Writes the four RGBA bytes of one texel, touching no other texel.
fn write_texel(bytes: &mut Vec<u8>, side: usize, px: usize, py: usize, pz: usize, c: Voxel)
    requires
        1 <= side,
        (side as int) * (side as int) * (side as int) <= 0x1000_0000,
        old(bytes)@.len() == 4 * (side as int) * (side as int) * (side as int),
        px < side,
        py < side,
        pz < side,
    ensures
        final(bytes)@.len() == old(bytes)@.len(),
        ({
            let t = texel(side as int, px as int, py as int, pz as int);
            &&& final(bytes)@[4 * t] == c.r
            &&& final(bytes)@[4 * t + 1] == c.g
            &&& final(bytes)@[4 * t + 2] == c.b
            &&& final(bytes)@[4 * t + 3] == c.a
        }),
        forall|qx: int, qy: int, qz: int|
            #![trigger texel(side as int, qx, qy, qz)]
            0 <= qx < side && 0 <= qy < side && 0 <= qz < side && !(qx == px && qy == py && qz
                == pz) ==> {
                let t = texel(side as int, qx, qy, qz);
                &&& final(bytes)@[4 * t] == old(bytes)@[4 * t]
                &&& final(bytes)@[4 * t + 1] == old(bytes)@[4 * t + 1]
                &&& final(bytes)@[4 * t + 2] == old(bytes)@[4 * t + 2]
                &&& final(bytes)@[4 * t + 3] == old(bytes)@[4 * t + 3]
            },
{
    proof {
        lemma_texel_decompose(side as int, px as int, py as int, pz as int);
        assert(4 * texel(side as int, px as int, py as int, pz as int) + 3 < 4 * (side as int)
            * (side as int) * (side as int)) by (nonlinear_arith)
            requires
                0 <= texel(side as int, px as int, py as int, pz as int) < (side as int) * (
                side as int) * (side as int),
        ;
        assert((pz as int) * ((side as int) * (side as int)) + (py as int) * (side as int) + (
        px as int) == texel(side as int, px as int, py as int, pz as int)) by (nonlinear_arith);
        assert(0 <= (pz as int) * ((side as int) * (side as int)) && 0 <= (py as int) * (
        side as int) && (side as int) * (side as int) <= (side as int) * (side as int) * (
        side as int)) by (nonlinear_arith)
            requires
                0 <= pz,
                0 <= py,
                1 <= side,
        ;
        assert(4 * ((side as int) * (side as int) * (side as int)) == 4 * (side as int) * (
        side as int) * (side as int)) by (nonlinear_arith);
    }
    let t: usize = pz * (side * side) + py * side + px;
    let colour = c;
    bytes.set(4 * t, colour.r);
    bytes.set(4 * t + 1, colour.g);
    bytes.set(4 * t + 2, colour.b);
    bytes.set(4 * t + 3, colour.a);
    proof {
        assert forall|qx: int, qy: int, qz: int|
            #![trigger texel(side as int, qx, qy, qz)]
            0 <= qx < side && 0 <= qy < side && 0 <= qz < side && !(qx == px && qy == py && qz
                == pz) implies {
            let t2 = texel(side as int, qx, qy, qz);
            &&& bytes@[4 * t2] == old(bytes)@[4 * t2]
            &&& bytes@[4 * t2 + 1] == old(bytes)@[4 * t2 + 1]
            &&& bytes@[4 * t2 + 2] == old(bytes)@[4 * t2 + 2]
            &&& bytes@[4 * t2 + 3] == old(bytes)@[4 * t2 + 3]
        } by {
            lemma_texel_decompose(side as int, qx, qy, qz);
            assert(texel(side as int, qx, qy, qz) != t as int);
            assert(4 * texel(side as int, qx, qy, qz) + 3 < bytes@.len());
        };
    }
}

/// The host-side brickmap.
pub struct CpuBrickmap {
    /// The node arena; groups of eight consecutive slots are the children of
    /// one node; slots 0..8 are the root group.
    pub brickmap: Vec<Node>,
    /// Depth in node levels; the world is `2^brickmap_depth` bricks on a side.
    pub brickmap_depth: u32,
    /// Brick storage; index 0 is the canonical empty brick.
    pub bricks: Vec<Brick>,
    /// The depth of each node slot, in node levels (root group is depth 1).
    pub depths: Ghost<Seq<u32>>,
}

impl CpuBrickmap {
    pub open spec fn num_nodes(self) -> int {
        self.brickmap@.len() as int
    }

    /// Structural well-formedness of the node arena: child groups are in
    /// range and strictly to the right of their parent, depths are
    /// consistent and capped, child groups and bricks are referenced at most
    /// once, and internal nodes carry a mip brick.
    pub open spec fn node_wf(self) -> bool {
        &&& 1 <= self.brickmap_depth <= 20
        &&& self.brickmap@.len() % 8 == 0
        &&& 8 <= self.brickmap@.len() <= 0x1000_0000
        &&& self.depths@.len() == self.brickmap@.len()
        &&& (forall|j: int| 0 <= j < 8 ==> #[trigger] self.depths@[j] == 1)
        &&& (forall|j: int|
            0 <= j < self.num_nodes() ==> 1 <= #[trigger] self.depths@[j]
                <= self.brickmap_depth)
        &&& nodes_ordered(self.brickmap@)
        &&& (forall|j: int|
            0 <= j < self.num_nodes() && (#[trigger] self.brickmap@[j]).children != 0 ==> {
                let c = self.brickmap@[j].children as int;
                &&& self.depths@[j] < self.brickmap_depth
                &&& (forall|k: int|
                    0 <= k < 8 ==> #[trigger] self.depths@[8 * c + k] == self.depths@[j] + 1)
                &&& self.brickmap@[j].brick != 0
            })
        &&& (forall|j: int|
            0 <= j < self.num_nodes() ==> (#[trigger] self.brickmap@[j]).brick
                < self.bricks@.len())
        &&& (forall|i: int, j: int|
            0 <= i < self.num_nodes() && 0 <= j < self.num_nodes() && i != j
                && (#[trigger] self.brickmap@[i]).children != 0
                && (#[trigger] self.brickmap@[j]).children != 0
                ==> self.brickmap@[i].children != self.brickmap@[j].children)
        &&& (forall|i: int, j: int|
            0 <= i < self.num_nodes() && 0 <= j < self.num_nodes() && i != j
                && (#[trigger] self.brickmap@[i]).brick != 0
                && (#[trigger] self.brickmap@[j]).brick != 0
                ==> self.brickmap@[i].brick != self.brickmap@[j].brick)
    }

    /// Well-formedness of the brick storage.
    pub open spec fn bricks_wf(self) -> bool {
        &&& 1 <= self.bricks@.len() <= 0x8000_0000
        &&& (forall|b: int| 0 <= b < self.bricks@.len() ==> (#[trigger] self.bricks@[b]).wf())
        &&& self.bricks@[0].is_all_zero()
    }

    pub open spec fn wf(self) -> bool {
        &&& self.node_wf()
        &&& self.bricks_wf()
    }

    /// `pos` addresses a brick inside the world cube.
    pub open spec fn pos_in_bounds(self, pos: UVec3) -> bool {
        &&& pos.x < pow2(self.brickmap_depth as nat)
        &&& pos.y < pow2(self.brickmap_depth as nat)
        &&& pos.z < pow2(self.brickmap_depth as nat)
    }

    /// The full descent from the root group toward `pos`, stopping at an
    /// empty child or at `max_depth`.
    pub open spec fn spec_get_node(self, pos: UVec3, max_depth: int) -> Descent {
        spec_descend(self.brickmap@, self.brickmap_depth as int, pos, max_depth, 0, 0, 0, 0, 1)
    }

    /// A fresh octree of the given depth: the root group of eight empty
    /// nodes, and the canonical empty brick.
    pub fn new(brickmap_depth: u32) -> (r: CpuBrickmap)
        requires
            1 <= brickmap_depth <= 20,
        ensures
            r.wf(),
            r.brickmap_depth == brickmap_depth,
            r.brickmap@.len() == 8,
            forall|j: int| 0 <= j < 8 ==> #[trigger] r.brickmap@[j] == (Node {
                children: 0u32,
                brick: 0u32,
            }),
            r.bricks@.len() == 1,
    {
        let mut brickmap: Vec<Node> = Vec::new();
        let mut i: usize = 0;
        while i < 8
            invariant
                i <= 8,
                brickmap@.len() == i,
                forall|j: int|
                    0 <= j < i ==> #[trigger] brickmap@[j] == (Node { children: 0u32, brick: 0u32 }),
            decreases 8 - i,
        {
            brickmap.push(Node::zero());
            i = i + 1;
        }
        let mut bricks: Vec<Brick> = Vec::new();
        bricks.push(Brick::empty());
        CpuBrickmap {
            brickmap,
            brickmap_depth,
            bricks,
            depths: Ghost(Seq::new(8, |j: int| 1u32)),
        }
    }

    /// Stores `brick` as a fresh entry and points the childless node at
    /// `index` to it.
    fn set_leaf_brick(&mut self, index: usize, brick: Brick)
        requires
            old(self).wf(),
            brick.wf(),
            index < old(self).brickmap@.len(),
            old(self).brickmap@[index as int].children == 0,
            old(self).bricks@.len() + 1 <= 0x8000_0000,
        ensures
            final(self).wf(),
            final(self).brickmap_depth == old(self).brickmap_depth,
            final(self).depths == old(self).depths,
            final(self).bricks@ == old(self).bricks@.push(brick),
            final(self).brickmap@ == old(self).brickmap@.update(
                index as int,
                Node { children: 0u32, brick: old(self).bricks@.len() as u32 },
            ),
    {
        let brick_index = self.bricks.len() as u32;
        self.brickmap.set(index, Node { children: 0, brick: brick_index });
        self.bricks.push(brick);
    }

    /// Turns the childless node at `index` into an internal node: appends a
    /// fresh group of eight empty children and a fresh empty mip brick, and
    /// points the node at both.
    fn subdivide_at(&mut self, index: usize)
        requires
            old(self).wf(),
            index < old(self).brickmap@.len(),
            old(self).brickmap@[index as int].children == 0,
            old(self).depths@[index as int] < old(self).brickmap_depth,
            old(self).brickmap@.len() + 8 <= 0x1000_0000,
            old(self).bricks@.len() + 1 <= 0x8000_0000,
        ensures
            final(self).wf(),
            final(self).brickmap_depth == old(self).brickmap_depth,
            final(self).bricks@.len() == old(self).bricks@.len() + 1,
            forall|j: int|
                0 <= j < old(self).bricks@.len() ==> final(self).bricks@[j] == old(self).bricks@[j],
            final(self).brickmap@.len() == old(self).brickmap@.len() + 8,
            final(self).brickmap@[index as int] == (Node {
                children: (old(self).brickmap@.len() / 8) as u32,
                brick: old(self).bricks@.len() as u32,
            }),
            forall|j: int|
                0 <= j < old(self).brickmap@.len() && j != index ==> final(self).brickmap@[j]
                    == old(self).brickmap@[j],
            forall|j: int|
                old(self).brickmap@.len() <= j < final(self).brickmap@.len()
                    ==> final(self).brickmap@[j] == (Node { children: 0u32, brick: 0u32 }),
            final(self).depths@.len() == final(self).brickmap@.len(),
            forall|j: int|
                0 <= j < old(self).brickmap@.len()
                    ==> final(self).depths@[j] == old(self).depths@[j],
            forall|j: int|
                old(self).brickmap@.len() <= j < final(self).brickmap@.len()
                    ==> final(self).depths@[j] == old(self).depths@[index as int] + 1,
    {
        let new_children_index = self.brickmap.len();
        let brick_index = self.bricks.len() as u32;
        let ghost d = self.depths@[index as int];
        self.brickmap.set(
            index,
            Node { children: (new_children_index / 8) as u32, brick: brick_index },
        );
        self.brickmap.push(Node::zero());
        self.brickmap.push(Node::zero());
        self.brickmap.push(Node::zero());
        self.brickmap.push(Node::zero());
        self.brickmap.push(Node::zero());
        self.brickmap.push(Node::zero());
        self.brickmap.push(Node::zero());
        self.brickmap.push(Node::zero());
        self.bricks.push(Brick::empty());
        self.depths = Ghost(self.depths@ + Seq::new(8, |i: int| (d + 1) as u32));
    }

    /// Inserts `brick` as the leaf at `pos` (in brick units), walking from
    /// the root and subdividing empty children on the way down; each
    /// subdivision also allocates a fresh (empty) mip brick for the new
    /// internal node. Positions outside the world cube are rejected.
    #[verifier::rlimit(100)]
    pub fn place_brick(&mut self, brick: Brick, pos: UVec3) -> (r: Result<(), VoxelError>)
        requires
            old(self).wf(),
            brick.wf(),
            old(self).brickmap@.len() + 8 * old(self).brickmap_depth <= 0x1000_0000,
            old(self).bricks@.len() + old(self).brickmap_depth + 1 <= 0x8000_0000,
        ensures
            final(self).wf(),
            final(self).brickmap_depth == old(self).brickmap_depth,
            final(self).bricks@.len() >= old(self).bricks@.len(),
            final(self).brickmap@.len() >= old(self).brickmap@.len(),
            forall|j: int|
                0 <= j < old(self).bricks@.len() ==> final(self).bricks@[j] == old(self).bricks@[j],
            forall|j: int|
                0 <= j < old(self).brickmap@.len() && (#[trigger] old(self).brickmap@[j]).children != 0 ==> final(self).brickmap@[j] == old(self).brickmap@[j],
            match r {
                Ok(_) => {
                    &&& old(self).pos_in_bounds(pos)
                    &&& final(self).bricks@.len() >= old(self).bricks@.len() + 1
                    &&& final(self).bricks@.last() == brick
                    &&& ({
                        let d = final(self).spec_get_node(pos, final(self).brickmap_depth as int);
                        &&& d.depth == final(self).brickmap_depth
                        &&& d.x == pos.x
                        &&& d.y == pos.y
                        &&& d.z == pos.z
                        &&& 0 <= d.index < final(self).brickmap@.len()
                        &&& final(self).brickmap@[d.index].brick == final(self).bricks@.len() - 1
                    })
                },
                Err(e) => {
                    &&& e == VoxelError::OutOfBounds
                    &&& !old(self).pos_in_bounds(pos)
                    &&& *final(self) == *old(self)
                },
            },
    {
        let side = pow2_u32(self.brickmap_depth);
        if pos.x >= side || pos.y >= side || pos.z >= side {
            return Err(VoxelError::OutOfBounds);
        }
        proof {
            vstd::arithmetic::power2::lemma2_to64();
            vstd::arithmetic::power2::lemma_pow2_strictly_increases(
                self.brickmap_depth as nat,
                31,
            );
        }
        let ghost total: int = self.brickmap_depth as int;
        let mut node_index: usize = 0;
        let mut node_pos = UVec3::new(0, 0, 0);
        let mut node_depth: u32 = 1;
        loop
            invariant
                self.wf(),
                self.pos_in_bounds(pos),
                self.brickmap_depth == old(self).brickmap_depth,
                total == self.brickmap_depth as int,
                brick.wf(),
                1 <= node_depth <= self.brickmap_depth,
                node_index + 8 <= self.brickmap@.len(),
                node_index % 8 == 0,
                self.brickmap@.len() <= old(self).brickmap@.len() + 8 * (node_depth - 1),
                old(self).brickmap@.len() + 8 * old(self).brickmap_depth <= 0x1000_0000,
                self.bricks@.len() <= old(self).bricks@.len() + (node_depth - 1),
                old(self).bricks@.len() + old(self).brickmap_depth + 1 <= 0x8000_0000,
                forall|j: int|
                    0 <= j < old(self).bricks@.len() ==> self.bricks@[j] == old(self).bricks@[j],
                forall|j: int|
                    0 <= j < old(self).brickmap@.len() && (#[trigger] old(self).brickmap@[j]).children != 0 ==> self.brickmap@[j] == old(self).brickmap@[j],
                self.bricks@.len() >= old(self).bricks@.len(),
                self.brickmap@.len() >= old(self).brickmap@.len(),
                forall|k: int|
                    0 <= k < 8 ==> #[trigger] self.depths@[node_index + k] == node_depth,
                node_pos.x as int + pow2((self.brickmap_depth - node_depth + 1) as nat) <= pow2(
                    self.brickmap_depth as nat,
                ),
                node_pos.y as int + pow2((self.brickmap_depth - node_depth + 1) as nat) <= pow2(
                    self.brickmap_depth as nat,
                ),
                node_pos.z as int + pow2((self.brickmap_depth - node_depth + 1) as nat) <= pow2(
                    self.brickmap_depth as nat,
                ),
                node_pos.x <= pos.x < node_pos.x as int + pow2(
                    (self.brickmap_depth - node_depth + 1) as nat,
                ),
                node_pos.y <= pos.y < node_pos.y as int + pow2(
                    (self.brickmap_depth - node_depth + 1) as nat,
                ),
                node_pos.z <= pos.z < node_pos.z as int + pow2(
                    (self.brickmap_depth - node_depth + 1) as nat,
                ),
                pow2(self.brickmap_depth as nat) < 0x8000_0000,
                spec_descend(self.brickmap@, total, pos, total, 0, 0, 0, 0, 1) == spec_descend(
                    self.brickmap@,
                    total,
                    pos,
                    total,
                    node_index as int,
                    node_pos.x as int,
                    node_pos.y as int,
                    node_pos.z as int,
                    node_depth as int,
                ),
            decreases self.brickmap_depth - node_depth,
        {
            proof {
                vstd::arithmetic::power2::lemma_pow2_strictly_increases(
                    (self.brickmap_depth - node_depth) as nat,
                    (self.brickmap_depth - node_depth + 1) as nat,
                );
                vstd::arithmetic::power2::lemma_pow2_adds(
                    (self.brickmap_depth - node_depth) as nat,
                    1,
                );
                vstd::arithmetic::power2::lemma2_to64();
            }
            let ghost pre = *self;
            let ghost opos = node_pos;
            let offset = pow2_u32(self.brickmap_depth - node_depth);
            let mx = pos.x >= node_pos.x + offset;
            let my = pos.y >= node_pos.y + offset;
            let mz = pos.z >= node_pos.z + offset;
            node_pos = UVec3::new(
                if mx {
                    node_pos.x + offset
                } else {
                    node_pos.x
                },
                if my {
                    node_pos.y + offset
                } else {
                    node_pos.y
                },
                if mz {
                    node_pos.z + offset
                } else {
                    node_pos.z
                },
            );
            let child_index: usize = (if mx { 4usize } else { 0usize }) + (if my {
                2usize
            } else {
                0usize
            }) + (if mz { 1usize } else { 0usize });
            let index = node_index + child_index;

            let node = self.brickmap[index];
            if node.children == 0 {
                if node_depth == self.brickmap_depth {
                    self.set_leaf_brick(index, brick);
                    proof {
                        let r = Descent {
                            index: index as int,
                            x: node_pos.x as int,
                            y: node_pos.y as int,
                            z: node_pos.z as int,
                            depth: node_depth as int,
                        };
                        lemma_descend_unfold(
                            pre.brickmap@,
                            total,
                            pos,
                            total,
                            node_index as int,
                            opos.x as int,
                            opos.y as int,
                            opos.z as int,
                            node_depth as int,
                        );
                        assert(spec_descend(pre.brickmap@, total, pos, total, 0, 0, 0, 0, 1) == r);
                        lemma_descend_update(
                            pre.brickmap@,
                            self.brickmap@,
                            total,
                            pos,
                            total,
                            0,
                            0,
                            0,
                            0,
                            1,
                        );
                        assert(spec_descend(self.brickmap@, total, pos, total, 0, 0, 0, 0, 1)
                            == r);
                    }
                    return Ok(());
                } else {
                    let new_children_index = self.brickmap.len();
                    self.subdivide_at(index);
                    proof {
                        let r = Descent {
                            index: index as int,
                            x: node_pos.x as int,
                            y: node_pos.y as int,
                            z: node_pos.z as int,
                            depth: node_depth as int,
                        };
                        lemma_descend_unfold(
                            pre.brickmap@,
                            total,
                            pos,
                            total,
                            node_index as int,
                            opos.x as int,
                            opos.y as int,
                            opos.z as int,
                            node_depth as int,
                        );
                        assert(spec_descend(pre.brickmap@, total, pos, total, 0, 0, 0, 0, 1) == r);
                        lemma_descend_update(
                            pre.brickmap@,
                            self.brickmap@,
                            total,
                            pos,
                            total,
                            0,
                            0,
                            0,
                            0,
                            1,
                        );
                    }
                    node_depth = node_depth + 1;
                    node_index = new_children_index;
                }
            } else {
                proof {
                    assert(8 * (node.children as int) + 8 <= self.brickmap@.len());
                    lemma_descend_unfold(
                        self.brickmap@,
                        total,
                        pos,
                        total,
                        node_index as int,
                        opos.x as int,
                        opos.y as int,
                        opos.z as int,
                        node_depth as int,
                    );
                }
                let new_node: usize = 8 * (node.children as usize);
                node_depth = node_depth + 1;
                node_index = new_node;
            }
        }
    }

    /// Walks from the root toward `pos`, stopping at an empty child or at
    /// `max_depth`; returns the node index reached, the origin of its cube
    /// in brick units, and its depth.
    pub fn get_node(&self, pos: UVec3, max_depth: Option<u32>) -> (r: (usize, UVec3, u32))
        requires
            self.wf(),
            self.pos_in_bounds(pos),
        ensures
            ({
                let d = self.spec_get_node(
                    pos,
                    match max_depth {
                        Some(m) => m as int,
                        None => u32::MAX as int,
                    },
                );
                &&& r.0 as int == d.index
                &&& r.1.x as int == d.x
                &&& r.1.y as int == d.y
                &&& r.1.z as int == d.z
                &&& r.2 as int == d.depth
                &&& r.0 < self.brickmap@.len()
            }),
    {
        let ghost maxd: int = match max_depth {
            Some(m) => m as int,
            None => u32::MAX as int,
        };
        proof {
            vstd::arithmetic::power2::lemma2_to64();
            vstd::arithmetic::power2::lemma_pow2_strictly_increases(
                self.brickmap_depth as nat,
                31,
            );
        }
        let mut node_index: usize = 0;
        let mut node_pos = UVec3::new(0, 0, 0);
        let mut node_depth: u32 = 1;
        loop
            invariant
                self.wf(),
                self.pos_in_bounds(pos),
                maxd == match max_depth {
                    Some(m) => m as int,
                    None => u32::MAX as int,
                },
                1 <= node_depth <= self.brickmap_depth,
                node_index + 8 <= self.brickmap@.len(),
                node_index % 8 == 0,
                forall|k: int|
                    0 <= k < 8 ==> #[trigger] self.depths@[node_index + k] == node_depth,
                node_pos.x + pow2((self.brickmap_depth - node_depth + 1) as nat) <= pow2(
                    self.brickmap_depth as nat,
                ),
                node_pos.y + pow2((self.brickmap_depth - node_depth + 1) as nat) <= pow2(
                    self.brickmap_depth as nat,
                ),
                node_pos.z + pow2((self.brickmap_depth - node_depth + 1) as nat) <= pow2(
                    self.brickmap_depth as nat,
                ),
                pow2(self.brickmap_depth as nat) < 0x8000_0000,
                spec_descend(
                    self.brickmap@,
                    self.brickmap_depth as int,
                    pos,
                    maxd,
                    0,
                    0,
                    0,
                    0,
                    1,
                ) == spec_descend(
                    self.brickmap@,
                    self.brickmap_depth as int,
                    pos,
                    maxd,
                    node_index as int,
                    node_pos.x as int,
                    node_pos.y as int,
                    node_pos.z as int,
                    node_depth as int,
                ),
            decreases self.brickmap_depth - node_depth,
        {
            proof {
                reveal_with_fuel(spec_descend, 2);
                vstd::arithmetic::power2::lemma_pow2_strictly_increases(
                    (self.brickmap_depth - node_depth) as nat,
                    (self.brickmap_depth - node_depth + 1) as nat,
                );
                vstd::arithmetic::power2::lemma_pow2_adds(
                    (self.brickmap_depth - node_depth) as nat,
                    1,
                );
                vstd::arithmetic::power2::lemma2_to64();
            }
            let ghost opos = node_pos;
            let ghost prev = spec_descend(
                self.brickmap@,
                self.brickmap_depth as int,
                pos,
                maxd,
                node_index as int,
                node_pos.x as int,
                node_pos.y as int,
                node_pos.z as int,
                node_depth as int,
            );
            let offset = pow2_u32(self.brickmap_depth - node_depth);
            let mx = pos.x >= node_pos.x + offset;
            let my = pos.y >= node_pos.y + offset;
            let mz = pos.z >= node_pos.z + offset;
            node_pos = UVec3::new(
                if mx {
                    node_pos.x + offset
                } else {
                    node_pos.x
                },
                if my {
                    node_pos.y + offset
                } else {
                    node_pos.y
                },
                if mz {
                    node_pos.z + offset
                } else {
                    node_pos.z
                },
            );
            let child_index: usize = (if mx { 4usize } else { 0usize }) + (if my {
                2usize
            } else {
                0usize
            }) + (if mz { 1usize } else { 0usize });
            let index = node_index + child_index;

            let children = self.brickmap[index].children;
            let stop_for_depth = match max_depth {
                Some(m) => node_depth >= m,
                None => false,
            };
            if children == 0 || stop_for_depth || node_depth >= self.brickmap_depth {
                proof {
                    assert(prev == (Descent {
                        index: index as int,
                        x: node_pos.x as int,
                        y: node_pos.y as int,
                        z: node_pos.z as int,
                        depth: node_depth as int,
                    }));
                }
                return (index, node_pos, node_depth);
            }
            proof {
                assert(prev == spec_descend(
                    self.brickmap@,
                    self.brickmap_depth as int,
                    pos,
                    maxd,
                    8 * (children as int),
                    node_pos.x as int,
                    node_pos.y as int,
                    node_pos.z as int,
                    node_depth as int + 1,
                ));
            }
            node_depth = node_depth + 1;
            node_index = 8 * children as usize;
        }
    }

    /// Serializes the whole map for a one-shot GPU upload: every node
    /// packed as `children | brick << 16`, and every brick's colors
    /// written into a flat RGBA texture of size `brick_texture_size`,
    /// 16-voxel blocks in slot order (x-fastest). Bricks beyond the
    /// texture's capacity are dropped.
    #[verifier::rlimit(100)]
    pub fn to_gpu(&self, brick_texture_size: UVec3) -> (r: (Vec<u32>, Vec<u8>))
        requires
            self.wf(),
            brick_texture_size.x % 16 == 0,
            brick_texture_size.y % 16 == 0,
            brick_texture_size.z % 16 == 0,
            brick_texture_size.x >= 16,
            brick_texture_size.y >= 16,
            brick_texture_size.z >= 16,
            brick_texture_size.x == brick_texture_size.y,
            brick_texture_size.y == brick_texture_size.z,
            (brick_texture_size.x as int) * (brick_texture_size.y as int) * (
            brick_texture_size.z as int) <= 0x1000_0000,
            forall|j: int|
                0 <= j < self.brickmap@.len() ==> (#[trigger] self.brickmap@[j]).children < 0x10000
                    && self.brickmap@[j].brick < 0x10000,
        ensures
            r.0@.len() == self.brickmap@.len(),
            forall|j: int|
                0 <= j < self.brickmap@.len() ==> #[trigger] r.0@[j] == self.brickmap@[j].children
                    + 0x10000 * self.brickmap@[j].brick,
            r.1@.len() == 4 * (brick_texture_size.x as int) * (brick_texture_size.y as int) * (
            brick_texture_size.z as int),
            ({
                let side = brick_texture_size.x as int;
                let d = side / 16;
                forall|b: int, v: int|
                    #![trigger self.bricks@[b].data@[v]]
                    0 <= b < self.bricks@.len() && b < d * d * d && 0 <= v < 4096 ==> {
                        let t = texel(
                            side,
                            slot_origin_x(d, b) + v % 16,
                            slot_origin_y(d, b) + (v / 16) % 16,
                            slot_origin_z(d, b) + v / 256,
                        );
                        &&& r.1@[4 * t] == self.bricks@[b].data@[v].r
                        &&& r.1@[4 * t + 1] == self.bricks@[b].data@[v].g
                        &&& r.1@[4 * t + 2] == self.bricks@[b].data@[v].b
                        &&& r.1@[4 * t + 3] == self.bricks@[b].data@[v].a
                    }
            }),
    {
        let mut packed: Vec<u32> = Vec::new();
        let mut j: usize = 0;
        while j < self.brickmap.len()
            invariant
                self.wf(),
                j <= self.brickmap@.len(),
                packed@.len() == j,
                forall|q: int|
                    0 <= q < self.brickmap@.len() ==> (#[trigger] self.brickmap@[q]).children
                        < 0x10000 && self.brickmap@[q].brick < 0x10000,
                forall|q: int|
                    0 <= q < j ==> #[trigger] packed@[q] == self.brickmap@[q].children + 0x10000
                        * self.brickmap@[q].brick,
            decreases self.brickmap@.len() - j,
        {
            let node = self.brickmap[j];
            packed.push(node.children + 0x10000 * node.brick);
            j = j + 1;
        }

        let tx = brick_texture_size.x as usize;
        let ty = brick_texture_size.y as usize;
        let tz = brick_texture_size.z as usize;
        proof {
            assert((tx as int) * (ty as int) >= 1 && (tx as int) * (ty as int) * (tz as int) >= (
            tx as int) * (ty as int) && (tx as int) * (ty as int) * (tz as int) >= tx as int)
                by (nonlinear_arith)
                requires
                    tx >= 1,
                    ty >= 1,
                    tz >= 1,
            ;
        }
        let texture_length: usize = tx * ty * tz;
        let mut bytes: Vec<u8> = vec![0u8; 4 * texture_length];
        proof {
            assert(4 * ((tx as int) * (ty as int) * (tz as int)) == 4 * (tx as int) * (ty as int)
                * (tz as int)) by (nonlinear_arith);
        }

        let dx = tx / 16;
        let dy = ty / 16;
        let dz = tz / 16;
        proof {
            assert((dx as int) * (dy as int) >= 1 && (dx as int) * (dy as int) * (dz as int) >= (
            dx as int) * (dy as int)) by (nonlinear_arith)
                requires
                    dx >= 1,
                    dy >= 1,
                    dz >= 1,
            ;
            assert((dx as int) * (dy as int) * (dz as int) <= (tx as int) * (ty as int) * (
            tz as int)) by (nonlinear_arith)
                requires
                    dx <= tx,
                    dy <= ty,
                    dz <= tz,
                    dx >= 0,
                    dy >= 0,
                    dz >= 0,
                    tx >= 1,
                    ty >= 1,
                    tz >= 1,
            ;
            assert((tx as int) * (ty as int) <= (tx as int) * (ty as int) * (tz as int))
                by (nonlinear_arith)
                requires
                    tx >= 1,
                    ty >= 1,
                    tz >= 1,
            ;
        }
        let max_bricks: usize = dx * dy * dz;

        proof {
            vstd::arithmetic::div_mod::lemma_fundamental_div_mod(tx as int, 16);
        }
        let mut b: usize = 0;
        while b < self.bricks.len() && b < max_bricks
            invariant
                self.wf(),
                bytes@.len() == 4 * (tx as int) * (ty as int) * (tz as int),
                tx == brick_texture_size.x as int,
                ty == brick_texture_size.y as int,
                tz == brick_texture_size.z as int,
                tx % 16 == 0 && ty % 16 == 0 && tz % 16 == 0,
                tx >= 16 && ty >= 16 && tz >= 16,
                (tx as int) * (ty as int) * (tz as int) <= 0x1000_0000,
                dx == tx as int / 16 && dy == ty as int / 16 && dz == tz as int / 16,
                tx == ty && ty == tz,
                tx as int == 16 * (dx as int),
                (dx as int) * (dy as int) <= 0x1000_0000,
                (tx as int) * (ty as int) <= 0x1000_0000,
                4 * ((tx as int) * (ty as int) * (tz as int)) == 4 * (tx as int) * (ty as int) * (
                tz as int),
                max_bricks == (dx as int) * (dy as int) * (dz as int),
                b <= self.bricks@.len(),
                forall|b2: int, w: int|
                    #![trigger self.bricks@[b2].data@[w]]
                    0 <= b2 < b && b2 < max_bricks && 0 <= w < 4096 ==> {
                        let t = texel(
                            tx as int,
                            slot_origin_x(dx as int, b2) + w % 16,
                            slot_origin_y(dx as int, b2) + (w / 16) % 16,
                            slot_origin_z(dx as int, b2) + w / 256,
                        );
                        &&& bytes@[4 * t] == self.bricks@[b2].data@[w].r
                        &&& bytes@[4 * t + 1] == self.bricks@[b2].data@[w].g
                        &&& bytes@[4 * t + 2] == self.bricks@[b2].data@[w].b
                        &&& bytes@[4 * t + 3] == self.bricks@[b2].data@[w].a
                    },
            decreases self.bricks@.len() - b,
        {
            proof {
                lemma_slot_decompose(dx as int, b as int);
            }
            let bpx: usize = 16 * (b / (dx * dy));
            let bpy: usize = 16 * ((b / dx) % dy);
            let bpz: usize = 16 * (b % dx);
            proof {
                assert((dx as int) * (dy as int) == (dx as int) * (dx as int)
                    && (dx as int) * (dy as int) * (dz as int) == (dx as int) * (dx as int) * (
                dx as int)) by (nonlinear_arith)
                    requires
                        dx == dy && dy == dz,
                ;
                assert(bpx == slot_origin_x(dx as int, b as int));
                assert(bpy == slot_origin_y(dx as int, b as int));
                assert(bpz == slot_origin_z(dx as int, b as int));
                assert(bpx + 16 <= tx as int && bpy + 16 <= tx as int && bpz + 16 <= tx as int);
            }
            let brick = &self.bricks[b];
            let mut v: usize = 0;
            while v < 4096
                invariant
                    self.wf(),
                    *brick == self.bricks@[b as int],
                    brick.wf(),
                    v <= 4096,
                    b < self.bricks@.len(),
                    b < max_bricks,
                    bytes@.len() == 4 * (tx as int) * (ty as int) * (tz as int),
                    tx >= 16 && ty >= 16 && tz >= 16,
                    (tx as int) * (ty as int) * (tz as int) <= 0x1000_0000,
                    (tx as int) * (ty as int) <= 0x1000_0000,
                    4 * ((tx as int) * (ty as int) * (tz as int)) == 4 * (tx as int) * (
                    ty as int) * (tz as int),
                    tx == ty && ty == tz,
                    tx as int == 16 * (dx as int),
                    dx == dy && dy == dz,
                    max_bricks == (dx as int) * (dy as int) * (dz as int),
                    max_bricks == (dx as int) * (dx as int) * (dx as int),
                    bpx == slot_origin_x(dx as int, b as int),
                    bpy == slot_origin_y(dx as int, b as int),
                    bpz == slot_origin_z(dx as int, b as int),
                    bpx + 16 <= tx as int,
                    bpy + 16 <= tx as int,
                    bpz + 16 <= tx as int,
                    forall|w: int|
                        #![trigger brick.data@[w]]
                        0 <= w < v ==> {
                            let t = texel(
                                tx as int,
                                bpx + w % 16,
                                bpy + (w / 16) % 16,
                                bpz + w / 256,
                            );
                            &&& bytes@[4 * t] == brick.data@[w].r
                            &&& bytes@[4 * t + 1] == brick.data@[w].g
                            &&& bytes@[4 * t + 2] == brick.data@[w].b
                            &&& bytes@[4 * t + 3] == brick.data@[w].a
                        },
                    forall|b2: int, w: int|
                        #![trigger self.bricks@[b2].data@[w]]
                        0 <= b2 < b && b2 < max_bricks && 0 <= w < 4096 ==> {
                            let t = texel(
                                tx as int,
                                slot_origin_x(dx as int, b2) + w % 16,
                                slot_origin_y(dx as int, b2) + (w / 16) % 16,
                                slot_origin_z(dx as int, b2) + w / 256,
                            );
                            &&& bytes@[4 * t] == self.bricks@[b2].data@[w].r
                            &&& bytes@[4 * t + 1] == self.bricks@[b2].data@[w].g
                            &&& bytes@[4 * t + 2] == self.bricks@[b2].data@[w].b
                            &&& bytes@[4 * t + 3] == self.bricks@[b2].data@[w].a
                        },
                decreases 4096 - v,
            {
                let lx = v % 16;
                let ly = (v / 16) % 16;
                let lz = v / 256;
                let colour = brick.data[v];
                let ghost pre_bytes = bytes@;
                write_texel(&mut bytes, tx, bpx + lx, bpy + ly, bpz + lz, colour);
                proof {
                    lemma_voxel_decompose(v as int);
                    assert forall|w: int|
                        #![trigger brick.data@[w]]
                        0 <= w < v + 1 implies {
                        let t = texel(tx as int, bpx + w % 16, bpy + (w / 16) % 16, bpz + w
                            / 256);
                        &&& bytes@[4 * t] == brick.data@[w].r
                        &&& bytes@[4 * t + 1] == brick.data@[w].g
                        &&& bytes@[4 * t + 2] == brick.data@[w].b
                        &&& bytes@[4 * t + 3] == brick.data@[w].a
                    } by {
                        lemma_voxel_decompose(w);
                        if w < v {
                            // A different voxel of the same brick has
                            // different local coordinates, hence a
                            // different texel.
                            assert(!(bpx + w % 16 == bpx + lx && bpy + (w / 16) % 16 == bpy + ly
                                && bpz + w / 256 == bpz + lz));
                            assert(texel(tx as int, bpx + w % 16, bpy + (w / 16) % 16, bpz + w
                                / 256) == texel(tx as int, bpx + w % 16, bpy + (w / 16) % 16, bpz
                                + w / 256));
                        }
                    };
                    assert forall|b2: int, w: int|
                        #![trigger self.bricks@[b2].data@[w]]
                        0 <= b2 < b && b2 < max_bricks && 0 <= w < 4096 implies {
                        let t = texel(
                            tx as int,
                            slot_origin_x(dx as int, b2) + w % 16,
                            slot_origin_y(dx as int, b2) + (w / 16) % 16,
                            slot_origin_z(dx as int, b2) + w / 256,
                        );
                        &&& bytes@[4 * t] == self.bricks@[b2].data@[w].r
                        &&& bytes@[4 * t + 1] == self.bricks@[b2].data@[w].g
                        &&& bytes@[4 * t + 2] == self.bricks@[b2].data@[w].b
                        &&& bytes@[4 * t + 3] == self.bricks@[b2].data@[w].a
                    } by {
                        lemma_voxel_decompose(w);
                        lemma_slot_decompose(dx as int, b2);
                        lemma_slot_decompose(dx as int, b as int);
                        let qx = slot_origin_x(dx as int, b2) + w % 16;
                        let qy = slot_origin_y(dx as int, b2) + (w / 16) % 16;
                        let qz = slot_origin_z(dx as int, b2) + w / 256;
                        // Distinct slots have distinct origins, and each
                        // coordinate pins its origin down: the texel lies
                        // outside the box being written.
                        if qx == bpx + lx && qy == bpy + ly && qz == bpz + lz {
                            vstd::arithmetic::div_mod::lemma_div_multiples_vanish_fancy(
                                b2 / ((dx as int) * (dx as int)),
                                w % 16,
                                16,
                            );
                            vstd::arithmetic::div_mod::lemma_div_multiples_vanish_fancy(
                                b as int / ((dx as int) * (dx as int)),
                                lx as int,
                                16,
                            );
                            vstd::arithmetic::div_mod::lemma_div_multiples_vanish_fancy(
                                (b2 / (dx as int)) % (dx as int),
                                (w / 16) % 16,
                                16,
                            );
                            vstd::arithmetic::div_mod::lemma_div_multiples_vanish_fancy(
                                (b as int / (dx as int)) % (dx as int),
                                ly as int,
                                16,
                            );
                            vstd::arithmetic::div_mod::lemma_div_multiples_vanish_fancy(
                                b2 % (dx as int),
                                w / 256,
                                16,
                            );
                            vstd::arithmetic::div_mod::lemma_div_multiples_vanish_fancy(
                                b as int % (dx as int),
                                lz as int,
                                16,
                            );
                            assert(b2 == b as int);
                            assert(false);
                        }
                        assert(0 <= qx < tx as int && 0 <= qy < tx as int && 0 <= qz
                            < tx as int);
                    };
                }
                v = v + 1;
            }
            b = b + 1;
        }
        (packed, bytes)
    }

    /// The value that mipmapping assigns to voxel `v` (linear index) of the
    /// internal node `j`'s own brick: the alpha-weighted average of the
    /// corresponding eight voxels of the contributing child's brick, or zero
    /// if that child has no brick.
    pub open spec fn mip_expected(self, j: int, v: int) -> Voxel {
        let px = v % 16;
        let py = (v / 16) % 16;
        let pz = v / 256;
        let c = self.brickmap@[j].children as int;
        let k = (if px >= 8 { 4int } else { 0int }) + (if py >= 8 { 2int } else { 0int }) + (if pz
            >= 8 {
            1int
        } else {
            0int
        });
        let cb = self.brickmap@[8 * c + k].brick as int;
        if cb == 0 {
            Voxel::zero()
        } else {
            mip_voxel(self.bricks@[cb].data@, px, py, pz)
        }
    }

    /// Internal node `j`'s own brick holds exactly the mip of its children.
    pub open spec fn node_mipped(self, j: int) -> bool {
        forall|v: int|
            0 <= v < 4096 ==> self.bricks@[self.brickmap@[j].brick as int].data@[v]
                == self.mip_expected(j, v)
    }

    /// Rebuilds every internal node's own brick as the alpha-weighted
    /// average of its children's bricks, bottom-up. Child groups sit
    /// strictly to the right of their parent in the arena, so a single
    /// right-to-left sweep visits children before parents (a post-order).
    #[verifier::rlimit(100)]
    pub fn recreate_mipmaps(&mut self)
        requires
            old(self).wf(),
        ensures
            final(self).wf(),
            final(self).brickmap@ == old(self).brickmap@,
            final(self).brickmap_depth == old(self).brickmap_depth,
            final(self).depths == old(self).depths,
            final(self).bricks@.len() == old(self).bricks@.len(),
            forall|j: int|
                0 <= j < final(self).num_nodes() && (#[trigger] final(self).brickmap@[j]).children != 0 ==> final(self).node_mipped(j),
            forall|b: int|
                0 <= b < old(self).bricks@.len() && !(exists|i: int|
                    0 <= i < old(self).num_nodes() && (#[trigger] old(self).brickmap@[i]).children != 0 && old(self).brickmap@[i].brick == b) ==> final(self).bricks@[b] == old(self).bricks@[b],
    {
        let mut j: usize = self.brickmap.len();
        while j > 0
            invariant
                self.wf(),
                self.brickmap@ == old(self).brickmap@,
                self.brickmap_depth == old(self).brickmap_depth,
                self.depths == old(self).depths,
                self.bricks@.len() == old(self).bricks@.len(),
                j <= self.brickmap@.len(),
                forall|i: int|
                    j <= i < self.num_nodes() && (#[trigger] self.brickmap@[i]).children != 0
                        ==> self.node_mipped(i),
                forall|b: int|
                    0 <= b < self.bricks@.len() && !(exists|i: int|
                        j <= i < self.num_nodes() && (#[trigger] self.brickmap@[i]).children != 0
                            && self.brickmap@[i].brick == b) ==> self.bricks@[b] == old(self).bricks@[b],
            decreases j,
        {
            j = j - 1;
            if self.brickmap[j].children != 0 {
                let nb = self.compute_mip_brick(j);
                let pb = self.brickmap[j].brick as usize;
                let ghost pre = *self;
                self.bricks.set(pb, nb);
                proof {
                    let c = self.brickmap@[j as int].children as int;
                    assert forall|v: int| 0 <= v < 4096 implies self.bricks@[pb as int].data@[v]
                        == self.mip_expected(j as int, v) by {
                        let px = v % 16;
                        let py = (v / 16) % 16;
                        let pz = v / 256;
                        let k = (if px >= 8 { 4int } else { 0int }) + (if py >= 8 {
                            2int
                        } else {
                            0int
                        }) + (if pz >= 8 { 1int } else { 0int });
                        assert(self.brickmap@[8 * c + k] == pre.brickmap@[8 * c + k]);
                        if self.brickmap@[8 * c + k].brick != 0 {
                            // The contributing child's brick is not the one
                            // just replaced: distinct nodes hold distinct
                            // nonzero brick indices.
                            assert(8 * c + k != j);
                            assert(self.brickmap@[8 * c + k].brick != self.brickmap@[j as int].brick);
                            assert(self.bricks@[self.brickmap@[8 * c + k].brick as int]
                                == pre.bricks@[pre.brickmap@[8 * c + k].brick as int]);
                        }
                        assert(self.bricks@[pb as int] == nb);
                        assert(nb.data@[v] == pre.mip_expected(j as int, v));
                        assert(pre.mip_expected(j as int, v) == self.mip_expected(j as int, v));
                    };
                    assert(self.node_mipped(j as int));
                    assert forall|i: int|
                        j < i < self.num_nodes() && (#[trigger] self.brickmap@[i]).children != 0
                        implies self.node_mipped(i) by {
                        assert(pre.node_mipped(i));
                        let ci = self.brickmap@[i].children as int;
                        let bi = self.brickmap@[i].brick as int;
                        assert(bi != 0);
                        assert(bi != pb as int);
                        assert forall|v: int| 0 <= v < 4096 implies self.bricks@[bi].data@[v]
                            == self.mip_expected(i, v) by {
                            let px = v % 16;
                            let py = (v / 16) % 16;
                            let pz = v / 256;
                            let k = (if px >= 8 { 4int } else { 0int }) + (if py >= 8 {
                                2int
                            } else {
                                0int
                            }) + (if pz >= 8 { 1int } else { 0int });
                            assert(8 * ci + k > i);
                            if self.brickmap@[8 * ci + k].brick != 0 {
                                assert(8 * ci + k != j);
                                assert(self.brickmap@[8 * ci + k].brick != self.brickmap@[j as int].brick);
                                assert(self.bricks@[self.brickmap@[8 * ci + k].brick as int]
                                    == pre.bricks@[pre.brickmap@[8 * ci + k].brick as int]);
                            }
                            assert(self.bricks@[bi] == pre.bricks@[bi]);
                            assert(pre.bricks@[bi].data@[v] == pre.mip_expected(i, v));
                            assert(pre.mip_expected(i, v) == self.mip_expected(i, v));
                        };
                    };
                }
            }
        }
    }

    /// Computes the mip brick of internal node `j` from its children's
    /// bricks, without touching the map.
    #[verifier::rlimit(100)]
    fn compute_mip_brick(&self, j: usize) -> (b: Brick)
        requires
            self.wf(),
            j < self.brickmap@.len(),
            self.brickmap@[j as int].children != 0,
        ensures
            b.wf(),
            forall|v: int| 0 <= v < 4096 ==> b.data@[v] == self.mip_expected(j as int, v),
    {
        let c = self.brickmap[j].children as usize;
        proof {
            assert(8 * (c as int) + 8 <= self.brickmap@.len());
        }
        let mut result = Brick::empty();
        let mut v: usize = 0;
        while v < 4096
            invariant
                self.wf(),
                j < self.brickmap@.len(),
                self.brickmap@[j as int].children != 0,
                c == self.brickmap@[j as int].children as int,
                8 * c + 8 <= self.brickmap@.len(),
                v <= 4096,
                result.wf(),
                forall|w: int| 0 <= w < v ==> result.data@[w] == self.mip_expected(j as int, w),
            decreases 4096 - v,
        {
            let px: u32 = (v % 16) as u32;
            let py: u32 = ((v / 16) % 16) as u32;
            let pz: u32 = (v / 256) as u32;
            let k: usize = (if px >= 8 { 4usize } else { 0usize }) + (if py >= 8 {
                2usize
            } else {
                0usize
            }) + (if pz >= 8 { 1usize } else { 0usize });
            let cb = self.brickmap[8 * c + k].brick as usize;
            let voxel = if cb == 0 {
                Voxel::empty()
            } else {
                let child = &self.bricks[cb];
                let s0 = child.sample(px, py, pz, 0, 0, 0);
                let s1 = child.sample(px, py, pz, 1, 0, 0);
                let s2 = child.sample(px, py, pz, 0, 1, 0);
                let s3 = child.sample(px, py, pz, 1, 1, 0);
                let s4 = child.sample(px, py, pz, 0, 0, 1);
                let s5 = child.sample(px, py, pz, 1, 0, 1);
                let s6 = child.sample(px, py, pz, 0, 1, 1);
                let s7 = child.sample(px, py, pz, 1, 1, 1);
                let sa: u32 = s0.a as u32 + s1.a as u32 + s2.a as u32 + s3.a as u32 + s4.a as u32
                    + s5.a as u32 + s6.a as u32 + s7.a as u32;
                if sa == 0 {
                    Voxel::empty()
                } else {
                    proof {
                        lemma_weighted_le(s0.r as int, s0.a as int);
                        lemma_weighted_le(s1.r as int, s1.a as int);
                        lemma_weighted_le(s2.r as int, s2.a as int);
                        lemma_weighted_le(s3.r as int, s3.a as int);
                        lemma_weighted_le(s4.r as int, s4.a as int);
                        lemma_weighted_le(s5.r as int, s5.a as int);
                        lemma_weighted_le(s6.r as int, s6.a as int);
                        lemma_weighted_le(s7.r as int, s7.a as int);
                        lemma_weighted_le(s0.g as int, s0.a as int);
                        lemma_weighted_le(s1.g as int, s1.a as int);
                        lemma_weighted_le(s2.g as int, s2.a as int);
                        lemma_weighted_le(s3.g as int, s3.a as int);
                        lemma_weighted_le(s4.g as int, s4.a as int);
                        lemma_weighted_le(s5.g as int, s5.a as int);
                        lemma_weighted_le(s6.g as int, s6.a as int);
                        lemma_weighted_le(s7.g as int, s7.a as int);
                        lemma_weighted_le(s0.b as int, s0.a as int);
                        lemma_weighted_le(s1.b as int, s1.a as int);
                        lemma_weighted_le(s2.b as int, s2.a as int);
                        lemma_weighted_le(s3.b as int, s3.a as int);
                        lemma_weighted_le(s4.b as int, s4.a as int);
                        lemma_weighted_le(s5.b as int, s5.a as int);
                        lemma_weighted_le(s6.b as int, s6.a as int);
                        lemma_weighted_le(s7.b as int, s7.a as int);
                    }
                    let rs: u32 = s0.r as u32 * s0.a as u32 + s1.r as u32 * s1.a as u32
                        + s2.r as u32 * s2.a as u32 + s3.r as u32 * s3.a as u32 + s4.r as u32
                        * s4.a as u32 + s5.r as u32 * s5.a as u32 + s6.r as u32 * s6.a as u32
                        + s7.r as u32 * s7.a as u32;
                    let gs: u32 = s0.g as u32 * s0.a as u32 + s1.g as u32 * s1.a as u32
                        + s2.g as u32 * s2.a as u32 + s3.g as u32 * s3.a as u32 + s4.g as u32
                        * s4.a as u32 + s5.g as u32 * s5.a as u32 + s6.g as u32 * s6.a as u32
                        + s7.g as u32 * s7.a as u32;
                    let bs: u32 = s0.b as u32 * s0.a as u32 + s1.b as u32 * s1.a as u32
                        + s2.b as u32 * s2.a as u32 + s3.b as u32 * s3.a as u32 + s4.b as u32
                        * s4.a as u32 + s5.b as u32 * s5.a as u32 + s6.b as u32 * s6.a as u32
                        + s7.b as u32 * s7.a as u32;
                                        proof {
                        lemma_quotient_le_255(rs as int, sa as int);
                        lemma_quotient_le_255(gs as int, sa as int);
                        lemma_quotient_le_255(bs as int, sa as int);
                    }
                    Voxel { r: (rs / sa) as u8, g: (gs / sa) as u8, b: (bs / sa) as u8, a: (sa
                        / 8) as u8 }
                }
            };
            result.data.set(v, voxel);
            v = v + 1;
        }
        result
    }
}

/// A channel weighted by alpha is at most `255 * alpha`.
proof fn lemma_weighted_le(chan: int, alpha: int)
    requires
        0 <= chan <= 255,
        0 <= alpha,
    ensures
        chan * alpha <= 255 * alpha,
{
    vstd::arithmetic::mul::lemma_mul_inequality(chan, 255, alpha);
}

/// A weighted sum at most `255 * sa` divides by `sa` to at most 255.
proof fn lemma_quotient_le_255(sum: int, sa: int)
    requires
        0 <= sum <= 255 * sa,
        1 <= sa,
    ensures
        0 <= sum / sa <= 255,
{
    vstd::arithmetic::div_mod::lemma_div_is_ordered(sum, 255 * sa, sa);
    vstd::arithmetic::div_mod::lemma_div_multiples_vanish(255, sa);
    vstd::arithmetic::div_mod::lemma_div_pos_is_pos(sum, sa);
}

} // verus!
