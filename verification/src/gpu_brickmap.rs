//! The GPU-side residency structure: a bounded mirror of the host octree.
//!
//! A node is a packed `u32`: words below [`BRICK_OFFSET`](crate::BRICK_OFFSET)
//! are internal and hold a child group index; words at or above it are leaves
//! holding `BRICK_OFFSET + brick_slot`, slot 0 meaning empty. Free groups and
//! free brick slots are kept on stacks; `gpu_to_cpu` maps every resident slot
//! to the host node it mirrors.

use vstd::arithmetic::power2::pow2;
use vstd::multiset::Multiset;
use vstd::prelude::*;

use crate::cpu_brickmap::CpuBrickmap;
use crate::error::VoxelError;
use crate::math::{pow2_u32, UVec3};
use crate::BRICK_OFFSET;

verus! {

/// An order to copy the color bytes and occupancy bitmask of the host brick
/// `cpu_brick` into GPU brick slot `slot`; the caller performs the writes.
#[derive(Clone, Copy, PartialEq, Eq, Structural, Debug)]
pub struct BrickUpload {
    pub slot: u32,
    pub cpu_brick: u32,
}

/// How many of the eight children of the host group at `base` carry a brick.
pub open spec fn count_bricks(nodes: Seq<crate::cpu_brickmap::Node>, base: int, k: int) -> int
    decreases k,
{
    if k <= 0 {
        0
    } else {
        count_bricks(nodes, base, k - 1) + if nodes[base + (k - 1)].brick != 0 {
            1int
        } else {
            0int
        }
    }
}

/// `count_bricks` grows weakly with `k`.
pub proof fn lemma_count_bricks_mono(
    nodes: Seq<crate::cpu_brickmap::Node>,
    base: int,
    k1: int,
    k2: int,
)
    requires
        0 <= k1 <= k2,
    ensures
        count_bricks(nodes, base, k1) <= count_bricks(nodes, base, k2),
        count_bricks(nodes, base, k2) <= count_bricks(nodes, base, k1) + (k2 - k1),
    decreases k2 - k1,
{
    if k1 < k2 {
        lemma_count_bricks_mono(nodes, base, k1, k2 - 1);
    }
}

/// Every count value up to `count_bricks(.., k)` is hit by exactly the
/// position of some brick-carrying child.
pub proof fn lemma_count_bricks_surjective(
    nodes: Seq<crate::cpu_brickmap::Node>,
    base: int,
    k: int,
    s: int,
)
    requires
        0 <= k,
        1 <= s <= count_bricks(nodes, base, k),
    ensures
        exists|j: int|
            0 <= j < k && (#[trigger] nodes[base + j]).brick != 0 && count_bricks(
                nodes,
                base,
                j + 1,
            ) == s,
    decreases k,
{
    if k > 0 {
        if nodes[base + (k - 1)].brick != 0 && count_bricks(nodes, base, k) == s {
            assert(count_bricks(nodes, base, k) == s);
        } else {
            lemma_count_bricks_mono(nodes, base, k - 1, k);
            lemma_count_bricks_surjective(nodes, base, k - 1, s);
        }
    }
}

/// A sequence with pairwise distinct entries.
pub open spec fn distinct_seq(s: Seq<u32>) -> bool {
    forall|t1: int, t2: int| 0 <= t1 < t2 < s.len() ==> #[trigger] s[t1] != #[trigger] s[t2]
}

/// Popping the top of a distinct stack removes exactly that element.
pub proof fn lemma_distinct_pop(s: Seq<u32>)
    requires
        s.len() > 0,
        distinct_seq(s),
    ensures
        forall|x: u32|
            #[trigger] s.subrange(0, s.len() - 1).contains(x) <==> (s.contains(x) && x
                != s.last()),
{
    let sub = s.subrange(0, s.len() - 1);
    assert forall|x: u32| #[trigger] sub.contains(x) implies s.contains(x) && x != s.last() by {
        let t = choose|t: int| 0 <= t < sub.len() && sub[t] == x;
        assert(s[t] == x);
    };
    assert forall|x: u32| s.contains(x) && x != s.last() implies #[trigger] sub.contains(x) by {
        let t = choose|t: int| 0 <= t < s.len() && s[t] == x;
        assert(sub[t] == x);
    };
}

/// Membership in a prefix implies membership in the whole.
pub proof fn lemma_take_contains(s: Seq<u32>, n: int)
    requires
        0 <= n <= s.len(),
    ensures
        forall|x: u32| #[trigger] s.subrange(0, n).contains(x) ==> s.contains(x),
{
    let sub = s.subrange(0, n);
    assert forall|x: u32| #[trigger] sub.contains(x) implies s.contains(x) by {
        let t = choose|t: int| 0 <= t < sub.len() && sub[t] == x;
        assert(s[t] == x);
    };
}

/// Membership after a push.
pub proof fn lemma_push_contains(s: Seq<u32>, y: u32)
    ensures
        forall|x: u32| #[trigger] s.push(y).contains(x) <==> (s.contains(x) || x == y),
{
    assert forall|x: u32| #[trigger] s.push(y).contains(x) implies s.contains(x) || x == y by {
        let t = choose|t: int| 0 <= t < s.push(y).len() && s.push(y)[t] == x;
        if t < s.len() {
            assert(s[t] == x);
        }
    };
    assert forall|x: u32| s.contains(x) || x == y implies #[trigger] s.push(y).contains(x) by {
        if s.contains(x) {
            let t = choose|t: int| 0 <= t < s.len() && s[t] == x;
            assert(s.push(y)[t] == x);
        } else {
            assert(s.push(y)[s.len() as int] == x);
        }
    };
}

/// The brick slots held by the non-empty leaves among the first `k`
/// children of group `base / 8`, in child order.
pub open spec fn child_slots(nodes: Seq<u32>, base: int, k: int) -> Seq<u32>
    decreases k,
{
    if k <= 0 {
        Seq::empty()
    } else {
        child_slots(nodes, base, k - 1) + if nodes[base + (k - 1)] > BRICK_OFFSET {
            seq![(nodes[base + (k - 1)] - BRICK_OFFSET) as u32]
        } else {
            Seq::empty()
        }
    }
}

/// Every entry of `child_slots` is the slot of some non-empty leaf child,
/// and every non-empty leaf child's slot is an entry.
pub proof fn lemma_child_slots_members(nodes: Seq<u32>, base: int, k: int)
    requires
        0 <= k <= 8,
    ensures
        forall|t: int|
            #![trigger child_slots(nodes, base, k)[t]]
            0 <= t < child_slots(nodes, base, k).len() ==> exists|k2: int|
                #![trigger nodes[base + k2]]
                0 <= k2 < k && nodes[base + k2] > BRICK_OFFSET && child_slots(nodes, base, k)[t]
                    == (nodes[base + k2] - BRICK_OFFSET) as u32,
        forall|k2: int|
            0 <= k2 < k && #[trigger] nodes[base + k2] > BRICK_OFFSET ==> child_slots(
                nodes,
                base,
                k,
            ).contains((nodes[base + k2] - BRICK_OFFSET) as u32),
        child_slots(nodes, base, k).len() <= k,
    decreases k,
{
    if k > 0 {
        lemma_child_slots_members(nodes, base, k - 1);
        let cs = child_slots(nodes, base, k);
        let prev = child_slots(nodes, base, k - 1);
        assert forall|t: int|
            #![trigger cs[t]]
            0 <= t < cs.len() implies exists|k2: int|
            #![trigger nodes[base + k2]]
            0 <= k2 < k && nodes[base + k2] > BRICK_OFFSET && cs[t] == (nodes[base + k2]
                - BRICK_OFFSET) as u32 by {
            if t < prev.len() {
                assert(cs[t] == prev[t]);
                let k2 = choose|k2: int|
                    #![trigger nodes[base + k2]]
                    0 <= k2 < k - 1 && nodes[base + k2] > BRICK_OFFSET && prev[t] == (nodes[base
                        + k2] - BRICK_OFFSET) as u32;
                assert(0 <= k2 < k && nodes[base + k2] > BRICK_OFFSET && cs[t] == (nodes[base + k2]
                    - BRICK_OFFSET) as u32);
            } else {
                assert(nodes[base + (k - 1)] > BRICK_OFFSET);
                assert(cs[t] == (nodes[base + (k - 1)] - BRICK_OFFSET) as u32);
            }
        };
        assert forall|k2: int|
            0 <= k2 < k && #[trigger] nodes[base + k2] > BRICK_OFFSET implies cs.contains(
            (nodes[base + k2] - BRICK_OFFSET) as u32,
        ) by {
            if k2 < k - 1 {
                let x = (nodes[base + k2] - BRICK_OFFSET) as u32;
                let t = choose|t: int| 0 <= t < prev.len() && prev[t] == x;
                assert(cs[t] == x);
            } else {
                assert(cs[prev.len() as int] == (nodes[base + k2] - BRICK_OFFSET) as u32);
            }
        };
    }
}

/// Distinct child words give distinct child slots.
pub proof fn lemma_child_slots_distinct(nodes: Seq<u32>, base: int, k: int)
    requires
        0 <= k <= 8,
        forall|k1: int, k2: int|
            #![trigger nodes[base + k1], nodes[base + k2]]
            0 <= k1 < k2 < 8 && nodes[base + k1] > BRICK_OFFSET && nodes[base + k2] > BRICK_OFFSET
                ==> nodes[base + k1] != nodes[base + k2],
    ensures
        distinct_seq(child_slots(nodes, base, k)),
    decreases k,
{
    if k > 0 {
        lemma_child_slots_distinct(nodes, base, k - 1);
        lemma_child_slots_members(nodes, base, k - 1);
        let cs = child_slots(nodes, base, k);
        let prev = child_slots(nodes, base, k - 1);
        assert forall|t1: int, t2: int| 0 <= t1 < t2 < cs.len() implies #[trigger] cs[t1]
            != #[trigger] cs[t2] by {
            if t2 >= prev.len() {
                assert(nodes[base + (k - 1)] > BRICK_OFFSET);
                assert(cs[t2] == (nodes[base + (k - 1)] - BRICK_OFFSET) as u32);
                assert(cs[t1] == prev[t1]);
                let k2 = choose|k2: int|
                    #![trigger nodes[base + k2]]
                    0 <= k2 < k - 1 && nodes[base + k2] > BRICK_OFFSET && prev[t1] == (nodes[base
                        + k2] - BRICK_OFFSET) as u32;
                assert(nodes[base + k2] != nodes[base + (k - 1)]);
            } else {
                assert(cs[t1] == prev[t1] && cs[t2] == prev[t2]);
            }
        };
    }
}

/// Membership in a concatenation.
pub proof fn lemma_concat_contains(s1: Seq<u32>, s2: Seq<u32>)
    ensures
        forall|x: u32| #[trigger] (s1 + s2).contains(x) <==> (s1.contains(x) || s2.contains(x)),
{
    assert forall|x: u32| #[trigger] (s1 + s2).contains(x) implies s1.contains(x) || s2.contains(
        x,
    ) by {
        let t = choose|t: int| 0 <= t < (s1 + s2).len() && (s1 + s2)[t] == x;
        if t < s1.len() {
            assert(s1[t] == x);
        } else {
            assert(s2[t - s1.len()] == x);
        }
    };
    assert forall|x: u32| s1.contains(x) || s2.contains(x) implies #[trigger] (s1 + s2).contains(
        x,
    ) by {
        if s1.contains(x) {
            let t = choose|t: int| 0 <= t < s1.len() && s1[t] == x;
            assert((s1 + s2)[t] == x);
        } else {
            let t = choose|t: int| 0 <= t < s2.len() && s2[t] == x;
            assert((s1 + s2)[s1.len() + t] == x);
        }
    };
}

/// A successful divide leaves the structure well formed and the mirror
/// faithful.
#[verifier::rlimit(100)]
proof fn lemma_divide_reestablish(
    pre: GpuVoxelWorld,
    post: GpuVoxelWorld,
    cpu: CpuBrickmap,
    index: int,
)
    requires
        pre.wf(),
        pre.mirror_wf(cpu),
        cpu.wf(),
        0 <= index < pre.brickmap@.len(),
        pre.divide_ok(cpu, index),
        pre.divide_post(post, cpu, index),
    ensures
        post.wf(),
        post.mirror_wf(cpu),
{
    let g = pre.brickmap_holes@.last() as int;
    let ci = pre.gpu_to_cpu@[index] as int;
    let cc = 8 * (cpu.brickmap@[ci].children as int);
    let s = pre.brickmap@[index] - BRICK_OFFSET;
    let bl = pre.brick_holes@.len() as int;
    let needed = count_bricks(cpu.brickmap@, cc, 8);
    let take = pre.brick_holes@.subrange(0, bl - needed);

    assert(1 <= g < pre.node_capacity());
    assert(!pre.live(8 * g));
    assert(index < 8 || !pre.hole_flags@[index / 8]);
    assert(pre.hole_flags@[g]);
    // `index` is live, `g` was free, so `index` is not in group `g`.
    assert(!(8 * g <= index < 8 * g + 8));

    lemma_distinct_pop(pre.brickmap_holes@);
    lemma_count_bricks_mono(cpu.brickmap@, cc, 0, 8);
    assert(0 <= needed <= bl);
    lemma_take_contains(pre.brick_holes@, bl - needed);
    lemma_push_contains(take, s as u32);
    assert(post.brick_holes@ == take.push(s as u32));

    // Characterize the new free stacks.
    assert forall|x: u32| #[trigger] post.brickmap_holes@.contains(x) implies
        pre.brickmap_holes@.contains(x) && x as int != g by {}
    assert forall|x: u32|
        pre.brickmap_holes@.contains(x) && x as int != g implies #[trigger] post.brickmap_holes@.contains(x) by {}
    // Slots at the popped positions are not in the kept prefix.
    assert forall|p: int| bl - needed <= p < bl implies !take.contains(
        #[trigger] pre.brick_holes@[p],
    ) by {
        if take.contains(pre.brick_holes@[p]) {
            let t = choose|t: int| 0 <= t < take.len() && take[t] == pre.brick_holes@[p];
            assert(pre.brick_holes@[t] == pre.brick_holes@[p]);
        }
    };
    // The parent's slot was allocated, so it is not on the old stack.
    assert(!pre.brick_holes@.contains(s as u32));

    // Liveness only grows, by exactly group `g`.
    assert forall|i: int| #[trigger] post.live(i) implies (pre.live(i) || 8 * g <= i < 8 * g
        + 8) by {
        if i >= 8 && !(8 * g <= i < 8 * g + 8) {
            assert(post.hole_flags@[i / 8] == pre.hole_flags@[i / 8]);
        }
    };
    assert forall|i: int| pre.live(i) implies #[trigger] post.live(i) by {
        if i >= 8 {
            assert(pre.brickmap_holes@.contains((i / 8) as u32) == false);
            assert(post.hole_flags@[i / 8] == pre.hole_flags@[i / 8]);
        }
    };
    assert forall|i: int| 8 * g <= i < 8 * g + 8 implies #[trigger] post.live(i) by {}

    // Depth bookkeeping for the mirror of `index`.
    assert(cpu.brickmap@[ci].children != 0);
    assert(cc + 8 <= cpu.brickmap@.len());
    assert(cpu.depths@[ci] < cpu.brickmap_depth);
    assert(cpu.depths@[ci] == pre.depths@[index]);
    assert forall|k: int| 0 <= k < 8 implies #[trigger] cpu.depths@[cc + k] == pre.depths@[index]
        + 1 by {}

    // Fresh child slots are in range and distinct.
    assert forall|k: int| 0 <= k < 8 && (#[trigger] cpu.brickmap@[cc + k]).brick != 0 implies {
        let p = bl - count_bricks(cpu.brickmap@, cc, k + 1);
        &&& bl - needed <= p < bl
        &&& 1 <= pre.brick_holes@[p] < pre.brick_capacity()
    } by {
        lemma_count_bricks_mono(cpu.brickmap@, cc, 0, k);
        lemma_count_bricks_mono(cpu.brickmap@, cc, k + 1, 8);
        assert(count_bricks(cpu.brickmap@, cc, k + 1) == count_bricks(cpu.brickmap@, cc, k) + 1);
        let p = bl - count_bricks(cpu.brickmap@, cc, k + 1);
        assert(0 <= p < bl);
    };

    // The fresh group holds leaf words only.
    assert forall|k: int| 0 <= k < 8 implies #[trigger] post.brickmap@[8 * g + k]
        >= BRICK_OFFSET by {
        if cpu.brickmap@[cc + k].brick != 0 {
            let p = bl - count_bricks(cpu.brickmap@, cc, k + 1);
            assert(1 <= pre.brick_holes@[p] < pre.brick_capacity());
        }
    };

    assert(post.geometry_wf());

    // holes_wf
    assert forall|t: int| 0 <= t < post.brick_holes@.len() implies 1 <= #[trigger] post.brick_holes@[t] < post.brick_capacity() by {
        if t < take.len() {
            assert(post.brick_holes@[t] == pre.brick_holes@[t]);
        } else {
            assert(post.brick_holes@[t] == s as u32);
        }
    };
    assert forall|t1: int, t2: int| 0 <= t1 < t2 < post.brick_holes@.len() implies #[trigger] post.brick_holes@[t1] != #[trigger] post.brick_holes@[t2] by {
        if t2 < take.len() {
        } else {
            assert(post.brick_holes@[t2] == s as u32);
            assert(post.brick_holes@[t1] == pre.brick_holes@[t1]);
            assert(pre.brick_holes@.contains(pre.brick_holes@[t1]));
        }
    };
    assert forall|g2: int| 0 <= g2 < post.node_capacity() implies #[trigger] post.hole_flags@[g2]
        == post.brickmap_holes@.contains(g2 as u32) by {
        if g2 == g {
        } else {
            assert(post.hole_flags@[g2] == pre.hole_flags@[g2]);
        }
    };
    assert(post.holes_wf());

    // nodes_wf
    assert forall|i: int|
        post.live(i) && #[trigger] post.brickmap@[i] < BRICK_OFFSET implies {
        let gi = post.brickmap@[i] as int;
        &&& 1 <= gi < post.node_capacity()
        &&& !post.hole_flags@[gi]
        &&& post.depths@[i] < post.brickmap_depth
        &&& (forall|k: int|
            0 <= k < 8 ==> #[trigger] post.depths@[8 * gi + k] == post.depths@[i] + 1)
    } by {
        if i == index {
            assert(post.brickmap@[i] as int == g);
            assert(post.depths@[i] == pre.depths@[index]);
        } else if 8 * g <= i < 8 * g + 8 {
            // Slots of the fresh group hold leaf words, never internal ones.
            let k = i - 8 * g;
            assert(post.brickmap@[8 * g + k] == post.brickmap@[i]);
            if cpu.brickmap@[cc + k].brick != 0 {
                let p = bl - count_bricks(cpu.brickmap@, cc, k + 1);
                assert(1 <= pre.brick_holes@[p] < pre.brick_capacity());
                assert(post.brickmap@[i] as int == BRICK_OFFSET + pre.brick_holes@[p]);
            }
            assert(false);
        } else {
            assert(pre.live(i));
            assert(post.brickmap@[i] == pre.brickmap@[i]);
            let gi = post.brickmap@[i] as int;
            assert(!pre.brickmap_holes@.contains(gi as u32));
            assert(gi != g);
            assert(post.depths@[i] == pre.depths@[i]);
            assert forall|k: int| 0 <= k < 8 implies #[trigger] post.depths@[8 * gi + k]
                == post.depths@[i] + 1 by {
                assert(!(8 * g <= 8 * gi + k < 8 * g + 8));
                assert(post.depths@[8 * gi + k] == pre.depths@[8 * gi + k]);
            };
        }
    };
    assert forall|i: int|
        post.live(i) && #[trigger] post.brickmap@[i] > BRICK_OFFSET implies {
        let si = post.brickmap@[i] - BRICK_OFFSET;
        &&& 1 <= si < post.brick_capacity()
        &&& !post.brick_holes@.contains(si as u32)
    } by {
        if 8 * g <= i < 8 * g + 8 {
            let k = i - 8 * g;
            assert(post.brickmap@[8 * g + k] == post.brickmap@[i]);
            assert(cpu.brickmap@[cc + k].brick != 0);
            let p = bl - count_bricks(cpu.brickmap@, cc, k + 1);
            assert(post.brickmap@[i] - BRICK_OFFSET == pre.brick_holes@[p]);
            assert(!take.contains(pre.brick_holes@[p]));
            assert(pre.brick_holes@[p] != s as u32);
        } else if i == index {
            assert(false);
        } else {
            assert(pre.live(i));
            assert(post.brickmap@[i] == pre.brickmap@[i]);
            let si = post.brickmap@[i] - BRICK_OFFSET;
            assert(!pre.brick_holes@.contains(si as u32));
            if si == s {
                assert(pre.brickmap@[i] == pre.brickmap@[index]);
                assert(false);
            }
            if take.contains(si as u32) {
                assert(pre.brick_holes@.contains(si as u32));
            }
        }
    };
    assert forall|i: int| #![trigger post.depths@[i]] post.live(i) implies 1 <= post.depths@[i]
        <= post.brickmap_depth by {
        if 8 * g <= i < 8 * g + 8 {
            assert(post.depths@[8 * g + (i - 8 * g)] == post.depths@[i]);
        } else {
            assert(pre.live(i));
            assert(post.depths@[i] == pre.depths@[i]);
        }
    };
    assert forall|i: int| 0 <= i < 8 implies #[trigger] post.depths@[i] == 1 by {
        assert(!(8 * g <= i < 8 * g + 8));
    };
    assert(post.nodes_wf());

    // injective_wf
    assert forall|i1: int, i2: int|
        #![trigger post.brickmap@[i1], post.brickmap@[i2]]
        post.live(i1) && post.live(i2) && i1 != i2 && post.brickmap@[i1] < BRICK_OFFSET
            && post.brickmap@[i2] < BRICK_OFFSET implies post.brickmap@[i1]
        != post.brickmap@[i2] by {
        if 8 * g <= i1 < 8 * g + 8 {
            assert(post.brickmap@[8 * g + (i1 - 8 * g)] == post.brickmap@[i1]);
            assert(false);
        } else if 8 * g <= i2 < 8 * g + 8 {
            assert(post.brickmap@[8 * g + (i2 - 8 * g)] == post.brickmap@[i2]);
            assert(false);
        } else {
            if i1 == index && i2 != index {
                assert(pre.live(i2));
                assert(post.brickmap@[i2] == pre.brickmap@[i2]);
                assert(!pre.brickmap_holes@.contains(pre.brickmap@[i2]));
            } else if i2 == index && i1 != index {
                assert(pre.live(i1));
                assert(post.brickmap@[i1] == pre.brickmap@[i1]);
                assert(!pre.brickmap_holes@.contains(pre.brickmap@[i1]));
            } else {
                assert(post.brickmap@[i1] == pre.brickmap@[i1]);
                assert(post.brickmap@[i2] == pre.brickmap@[i2]);
            }
        }
    };
    assert forall|i1: int, i2: int|
        #![trigger post.brickmap@[i1], post.brickmap@[i2]]
        post.live(i1) && post.live(i2) && i1 != i2 && post.brickmap@[i1] > BRICK_OFFSET
            && post.brickmap@[i2] > BRICK_OFFSET implies post.brickmap@[i1]
        != post.brickmap@[i2] by {
        if 8 * g <= i1 < 8 * g + 8 && 8 * g <= i2 < 8 * g + 8 {
            let k1 = i1 - 8 * g;
            let k2 = i2 - 8 * g;
            assert(post.brickmap@[8 * g + k1] == post.brickmap@[i1]);
            assert(post.brickmap@[8 * g + k2] == post.brickmap@[i2]);
            let p1 = bl - count_bricks(cpu.brickmap@, cc, k1 + 1);
            let p2 = bl - count_bricks(cpu.brickmap@, cc, k2 + 1);
            if k1 < k2 {
                lemma_count_bricks_mono(cpu.brickmap@, cc, k1 + 1, k2);
                assert(count_bricks(cpu.brickmap@, cc, k2 + 1) == count_bricks(
                    cpu.brickmap@,
                    cc,
                    k2,
                ) + 1);
                assert(p1 != p2);
            } else {
                lemma_count_bricks_mono(cpu.brickmap@, cc, k2 + 1, k1);
                assert(count_bricks(cpu.brickmap@, cc, k1 + 1) == count_bricks(
                    cpu.brickmap@,
                    cc,
                    k1,
                ) + 1);
                assert(p1 != p2);
            }
        } else if 8 * g <= i1 < 8 * g + 8 {
            assert(pre.live(i2) && i2 != index);
            assert(post.brickmap@[i2] == pre.brickmap@[i2]);
            let k1 = i1 - 8 * g;
            assert(post.brickmap@[8 * g + k1] == post.brickmap@[i1]);
            let p1 = bl - count_bricks(cpu.brickmap@, cc, k1 + 1);
            assert(pre.brick_holes@.contains(pre.brick_holes@[p1]));
            assert(!pre.brick_holes@.contains((pre.brickmap@[i2] - BRICK_OFFSET) as u32));
        } else if 8 * g <= i2 < 8 * g + 8 {
            assert(pre.live(i1) && i1 != index);
            assert(post.brickmap@[i1] == pre.brickmap@[i1]);
            let k2 = i2 - 8 * g;
            assert(post.brickmap@[8 * g + k2] == post.brickmap@[i2]);
            let p2 = bl - count_bricks(cpu.brickmap@, cc, k2 + 1);
            assert(pre.brick_holes@.contains(pre.brick_holes@[p2]));
            assert(!pre.brick_holes@.contains((pre.brickmap@[i1] - BRICK_OFFSET) as u32));
        } else {
            assert(i1 != index && i2 != index);
            assert(post.brickmap@[i1] == pre.brickmap@[i1]);
            assert(post.brickmap@[i2] == pre.brickmap@[i2]);
        }
    };
    assert(post.injective_wf());

    // no_orphans_wf
    assert forall|g2: int|
        1 <= g2 < post.node_capacity() && !(#[trigger] post.hole_flags@[g2]) implies exists|i: int|
        #![trigger post.brickmap@[i]]
        post.live(i) && post.brickmap@[i] as int == g2 by {
        if g2 == g {
            assert(post.live(index) && post.brickmap@[index] as int == g);
        } else {
            assert(pre.hole_flags@[g2] == post.hole_flags@[g2]);
            let w = choose|i: int|
                #![trigger pre.brickmap@[i]]
                pre.live(i) && pre.brickmap@[i] as int == g2;
            assert(w != index);
            assert(!(8 * g <= w < 8 * g + 8));
            assert(post.live(w) && post.brickmap@[w] as int == g2);
        }
    };
    assert forall|s2: int|
        1 <= s2 < post.brick_capacity() && !(#[trigger] post.brick_holes@.contains(s2 as u32))
        implies exists|i: int|
        #![trigger post.brickmap@[i]]
        post.live(i) && post.brickmap@[i] as int == BRICK_OFFSET + s2 by {
        if s2 == s {
            assert(false);
        } else if pre.brick_holes@.contains(s2 as u32) {
            // A slot freshly handed to one of the new children.
            let p = choose|p: int| 0 <= p < bl && pre.brick_holes@[p] == s2 as u32;
            assert(!take.contains(s2 as u32));
            if p < bl - needed {
                assert(take[p] == s2 as u32);
                assert(take.contains(s2 as u32));
            }
            assert(bl - needed <= p < bl);
            lemma_count_bricks_surjective(cpu.brickmap@, cc, 8, bl - p);
            let k = choose|k: int|
                0 <= k < 8 && (#[trigger] cpu.brickmap@[cc + k]).brick != 0 && count_bricks(
                    cpu.brickmap@,
                    cc,
                    k + 1,
                ) == bl - p;
            assert(post.brickmap@[8 * g + k] as int == BRICK_OFFSET + s2);
            assert(post.live(8 * g + k));
        } else {
            let w = choose|i: int|
                #![trigger pre.brickmap@[i]]
                pre.live(i) && pre.brickmap@[i] as int == BRICK_OFFSET + s2;
            assert(w != index);
            assert(!(8 * g <= w < 8 * g + 8));
            assert(post.live(w) && post.brickmap@[w] as int == BRICK_OFFSET + s2);
        }
    };
    assert(post.no_orphans_wf());

    // mirror_wf
    assert forall|i: int| #![trigger post.gpu_to_cpu@[i]] post.live(i) implies post.gpu_to_cpu@[i]
        < cpu.brickmap@.len() by {
        if 8 * g <= i < 8 * g + 8 {
            assert(post.gpu_to_cpu@[8 * g + (i - 8 * g)] == post.gpu_to_cpu@[i]);
        } else {
            assert(pre.live(i));
            assert(post.gpu_to_cpu@[i] == pre.gpu_to_cpu@[i]);
        }
    };
    assert forall|i: int| 0 <= i < 8 implies #[trigger] post.gpu_to_cpu@[i] == i by {
        assert(!(8 * g <= i < 8 * g + 8));
    };
    assert forall|i: int| #![trigger post.gpu_to_cpu@[i]] post.live(i) implies cpu.depths@[post.gpu_to_cpu@[i] as int] == post.depths@[i] by {
        if 8 * g <= i < 8 * g + 8 {
            let k = i - 8 * g;
            assert(post.gpu_to_cpu@[8 * g + k] == post.gpu_to_cpu@[i]);
            assert(post.depths@[8 * g + k] == post.depths@[i]);
            assert(post.gpu_to_cpu@[i] as int == cc + k);
            assert(post.depths@[i] == pre.depths@[index] + 1);
        } else {
            assert(pre.live(i));
            assert(post.gpu_to_cpu@[i] == pre.gpu_to_cpu@[i]);
            assert(post.depths@[i] == pre.depths@[i]);
        }
    };
    assert forall|i: int|
        #![trigger post.brickmap@[i]]
        post.live(i) && post.brickmap@[i] < BRICK_OFFSET implies {
        let cc2 = cpu.brickmap@[post.gpu_to_cpu@[i] as int].children as int;
        &&& cc2 != 0
        &&& (forall|k: int|
            0 <= k < 8 ==> #[trigger] post.gpu_to_cpu@[8 * (post.brickmap@[i] as int) + k] as int
                == 8 * cc2 + k)
    } by {
        if i == index {
            assert(post.gpu_to_cpu@[i] == pre.gpu_to_cpu@[i]);
            assert(post.brickmap@[i] as int == g);
        } else if 8 * g <= i < 8 * g + 8 {
            assert(post.brickmap@[8 * g + (i - 8 * g)] == post.brickmap@[i]);
            assert(false);
        } else {
            assert(pre.live(i));
            assert(post.brickmap@[i] == pre.brickmap@[i]);
            assert(post.gpu_to_cpu@[i] == pre.gpu_to_cpu@[i]);
            let gi = pre.brickmap@[i] as int;
            assert(!pre.brickmap_holes@.contains(gi as u32));
            assert(gi != g);
            let cc2 = cpu.brickmap@[pre.gpu_to_cpu@[i] as int].children as int;
            assert forall|k: int| 0 <= k < 8 implies #[trigger] post.gpu_to_cpu@[8 * gi + k] as int
                == 8 * cc2 + k by {
                assert(!(8 * g <= 8 * gi + k < 8 * g + 8));
                assert(post.gpu_to_cpu@[8 * gi + k] == pre.gpu_to_cpu@[8 * gi + k]);
            };
        }
    };
    assert forall|i: int|
        #![trigger post.brickmap@[i]]
        post.live(i) && post.brickmap@[i] == BRICK_OFFSET implies cpu.brickmap@[post.gpu_to_cpu@[i] as int].children == 0 by {
        if 8 * g <= i < 8 * g + 8 {
            let k = i - 8 * g;
            assert(post.brickmap@[8 * g + k] == post.brickmap@[i]);
            assert(post.gpu_to_cpu@[8 * g + k] == post.gpu_to_cpu@[i]);
            assert(cpu.brickmap@[cc + k].brick == 0);
            if cpu.brickmap@[cc + k].children != 0 {
                assert(cpu.brickmap@[cc + k].brick != 0);
            }
        } else if i == index {
            assert(false);
        } else {
            assert(pre.live(i));
            assert(post.brickmap@[i] == pre.brickmap@[i]);
            assert(post.gpu_to_cpu@[i] == pre.gpu_to_cpu@[i]);
        }
    };
    assert(post.mirror_wf(cpu));
}

/// One node visited by a traversal: its slot, the origin of its cube in
/// brick units, and its depth.
#[derive(Clone, Copy, PartialEq, Eq, Structural, Debug)]
pub struct VisitEntry {
    pub index: usize,
    pub pos: UVec3,
    pub depth: u32,
}

/// The pre-order visit sequence rooted at slot `i` (depth `d`, cube origin
/// `(x, y, z)` in brick units): the node itself, then the subtrees of its
/// eight children while it is internal and above the leaf level.
pub open spec fn visits_from(s: GpuVoxelWorld, i: int, x: int, y: int, z: int, d: int) -> Seq<
    VisitEntry,
>
    decreases s.brickmap_depth - d, 9int,
{
    let entry = VisitEntry {
        index: i as usize,
        pos: UVec3 { x: x as u32, y: y as u32, z: z as u32 },
        depth: d as u32,
    };
    if s.brickmap@[i] < BRICK_OFFSET && d < s.brickmap_depth {
        seq![entry] + visits_children(s, s.brickmap@[i] as int, 0, x, y, z, d)
    } else {
        seq![entry]
    }
}

/// The visit sequences of children `k..8` of group `g`, concatenated.
pub open spec fn visits_children(
    s: GpuVoxelWorld,
    g: int,
    k: int,
    x: int,
    y: int,
    z: int,
    d: int,
) -> Seq<VisitEntry>
    decreases s.brickmap_depth - d, 8 - k,
{
    if k < 0 || k >= 8 || d >= s.brickmap_depth {
        Seq::empty()
    } else {
        let half = pow2((s.brickmap_depth - d - 1) as nat) as int;
        let cx = x + (if k >= 4 { half } else { 0 });
        let cy = y + (if k == 2 || k == 3 || k == 6 || k == 7 { half } else { 0 });
        let cz = z + (if k % 2 == 1 { half } else { 0 });
        visits_from(s, 8 * g + k, cx, cy, cz, d + 1) + visits_children(s, g, k + 1, x, y, z, d)
    }
}

/// The full pre-order visit sequence: the eight root octants in order.
pub open spec fn spec_visits(s: GpuVoxelWorld) -> Seq<VisitEntry> {
    visits_children(s, 0, 0, 0, 0, 0, 0)
}

/// Every visited slot is a live, in-range slot at its stated depth.
pub proof fn lemma_visits_from_sound(s: GpuVoxelWorld, i: int, x: int, y: int, z: int, d: int)
    requires
        s.wf(),
        s.live(i),
        s.depths@[i] == d,
        1 <= d <= s.brickmap_depth,
        0 <= x && x + pow2((s.brickmap_depth - d) as nat) <= pow2(s.brickmap_depth as nat),
        0 <= y && y + pow2((s.brickmap_depth - d) as nat) <= pow2(s.brickmap_depth as nat),
        0 <= z && z + pow2((s.brickmap_depth - d) as nat) <= pow2(s.brickmap_depth as nat),
    ensures
        forall|t: int|
            #![trigger visits_from(s, i, x, y, z, d)[t]]
            0 <= t < visits_from(s, i, x, y, z, d).len() ==> {
                let v = visits_from(s, i, x, y, z, d)[t];
                &&& s.live(v.index as int)
                &&& v.index < s.brickmap@.len()
                &&& s.depths@[v.index as int] == v.depth
                &&& d <= v.depth <= s.brickmap_depth
                &&& v.pos.x as int + pow2((s.brickmap_depth - v.depth) as nat) <= pow2(
                    s.brickmap_depth as nat,
                )
                &&& v.pos.y as int + pow2((s.brickmap_depth - v.depth) as nat) <= pow2(
                    s.brickmap_depth as nat,
                )
                &&& v.pos.z as int + pow2((s.brickmap_depth - v.depth) as nat) <= pow2(
                    s.brickmap_depth as nat,
                )
            },
    decreases s.brickmap_depth - d, 9int,
{
    vstd::arithmetic::power2::lemma2_to64();
    vstd::arithmetic::power2::lemma_pow2_strictly_increases(s.brickmap_depth as nat, 31);
    vstd::arithmetic::power2::lemma_pow2_pos((s.brickmap_depth - d) as nat);
    if s.brickmap@[i] < BRICK_OFFSET && d < s.brickmap_depth {
        lemma_visits_children_sound(s, s.brickmap@[i] as int, 0, x, y, z, d);
        let g = s.brickmap@[i] as int;
        let cs = visits_children(s, g, 0, x, y, z, d);
        assert forall|t: int|
            #![trigger visits_from(s, i, x, y, z, d)[t]]
            0 <= t < visits_from(s, i, x, y, z, d).len() implies {
            let v = visits_from(s, i, x, y, z, d)[t];
            &&& s.live(v.index as int)
            &&& v.index < s.brickmap@.len()
            &&& s.depths@[v.index as int] == v.depth
            &&& d <= v.depth <= s.brickmap_depth
            &&& v.pos.x as int + pow2((s.brickmap_depth - v.depth) as nat) <= pow2(
                s.brickmap_depth as nat,
            )
            &&& v.pos.y as int + pow2((s.brickmap_depth - v.depth) as nat) <= pow2(
                s.brickmap_depth as nat,
            )
            &&& v.pos.z as int + pow2((s.brickmap_depth - v.depth) as nat) <= pow2(
                s.brickmap_depth as nat,
            )
        } by {
            if t > 0 {
                assert(visits_from(s, i, x, y, z, d)[t] == cs[t - 1]);
            }
        };
    }
}

/// Companion of `lemma_visits_from_sound` for a run of children.
pub proof fn lemma_visits_children_sound(
    s: GpuVoxelWorld,
    g: int,
    k: int,
    x: int,
    y: int,
    z: int,
    d: int,
)
    requires
        s.wf(),
        0 <= g < s.node_capacity(),
        !s.hole_flags@[g],
        0 <= k,
        0 <= d < s.brickmap_depth,
        forall|k2: int| 0 <= k2 < 8 ==> #[trigger] s.depths@[8 * g + k2] == d + 1,
        0 <= x && x + pow2((s.brickmap_depth - d) as nat) <= pow2(s.brickmap_depth as nat),
        0 <= y && y + pow2((s.brickmap_depth - d) as nat) <= pow2(s.brickmap_depth as nat),
        0 <= z && z + pow2((s.brickmap_depth - d) as nat) <= pow2(s.brickmap_depth as nat),
    ensures
        forall|t: int|
            #![trigger visits_children(s, g, k, x, y, z, d)[t]]
            0 <= t < visits_children(s, g, k, x, y, z, d).len() ==> {
                let v = visits_children(s, g, k, x, y, z, d)[t];
                &&& s.live(v.index as int)
                &&& v.index < s.brickmap@.len()
                &&& s.depths@[v.index as int] == v.depth
                &&& d + 1 <= v.depth <= s.brickmap_depth
                &&& v.pos.x as int + pow2((s.brickmap_depth - v.depth) as nat) <= pow2(
                    s.brickmap_depth as nat,
                )
                &&& v.pos.y as int + pow2((s.brickmap_depth - v.depth) as nat) <= pow2(
                    s.brickmap_depth as nat,
                )
                &&& v.pos.z as int + pow2((s.brickmap_depth - v.depth) as nat) <= pow2(
                    s.brickmap_depth as nat,
                )
            },
    decreases s.brickmap_depth - d, 8 - k,
{
    if !(k < 0 || k >= 8 || d >= s.brickmap_depth) {
        vstd::arithmetic::power2::lemma_pow2_adds((s.brickmap_depth - d - 1) as nat, 1);
        vstd::arithmetic::power2::lemma2_to64();
        vstd::arithmetic::power2::lemma_pow2_pos((s.brickmap_depth - d - 1) as nat);
        let half = pow2((s.brickmap_depth - d - 1) as nat) as int;
        let cx = x + (if k >= 4 { half } else { 0 });
        let cy = y + (if k == 2 || k == 3 || k == 6 || k == 7 { half } else { 0 });
        let cz = z + (if k % 2 == 1 { half } else { 0 });
        assert(s.live(8 * g + k));
        lemma_visits_from_sound(s, 8 * g + k, cx, cy, cz, d + 1);
        lemma_visits_children_sound(s, g, k + 1, x, y, z, d);
        let head = visits_from(s, 8 * g + k, cx, cy, cz, d + 1);
        let tail = visits_children(s, g, k + 1, x, y, z, d);
        assert forall|t: int|
            #![trigger visits_children(s, g, k, x, y, z, d)[t]]
            0 <= t < visits_children(s, g, k, x, y, z, d).len() implies {
            let v = visits_children(s, g, k, x, y, z, d)[t];
            &&& s.live(v.index as int)
            &&& v.index < s.brickmap@.len()
            &&& s.depths@[v.index as int] == v.depth
            &&& d + 1 <= v.depth <= s.brickmap_depth
            &&& v.pos.x as int + pow2((s.brickmap_depth - v.depth) as nat) <= pow2(
                s.brickmap_depth as nat,
            )
            &&& v.pos.y as int + pow2((s.brickmap_depth - v.depth) as nat) <= pow2(
                s.brickmap_depth as nat,
            )
            &&& v.pos.z as int + pow2((s.brickmap_depth - v.depth) as nat) <= pow2(
                s.brickmap_depth as nat,
            )
        } by {
            if t < head.len() {
                assert(visits_children(s, g, k, x, y, z, d)[t] == head[t]);
            } else {
                assert(visits_children(s, g, k, x, y, z, d)[t] == tail[t - head.len()]);
            }
        };
    }
}

/// Every entry of the full traversal is a live slot at a valid depth and
/// in-range position.
pub proof fn lemma_spec_visits_sound(s: GpuVoxelWorld)
    requires
        s.wf(),
    ensures
        forall|t: int|
            #![trigger spec_visits(s)[t]]
            0 <= t < spec_visits(s).len() ==> {
                let v = spec_visits(s)[t];
                &&& s.live(v.index as int)
                &&& v.index < s.brickmap@.len()
                &&& s.depths@[v.index as int] == v.depth
                &&& 1 <= v.depth <= s.brickmap_depth
                &&& v.pos.x as int + pow2((s.brickmap_depth - v.depth) as nat) <= pow2(
                    s.brickmap_depth as nat,
                )
                &&& v.pos.y as int + pow2((s.brickmap_depth - v.depth) as nat) <= pow2(
                    s.brickmap_depth as nat,
                )
                &&& v.pos.z as int + pow2((s.brickmap_depth - v.depth) as nat) <= pow2(
                    s.brickmap_depth as nat,
                )
            },
{
    lemma_visits_children_sound(s, 0, 0, 0, 0, 0, 0);
}

/// Two structures with the same node words and depth have the same
/// traversal.
pub proof fn lemma_visits_from_congruence(
    a: GpuVoxelWorld,
    b: GpuVoxelWorld,
    i: int,
    x: int,
    y: int,
    z: int,
    d: int,
)
    requires
        a.brickmap@ == b.brickmap@,
        a.brickmap_depth == b.brickmap_depth,
    ensures
        visits_from(a, i, x, y, z, d) == visits_from(b, i, x, y, z, d),
    decreases a.brickmap_depth - d, 9int,
{
    if a.brickmap@[i] < BRICK_OFFSET && d < a.brickmap_depth {
        lemma_visits_children_congruence(a, b, a.brickmap@[i] as int, 0, x, y, z, d);
    }
}

/// Companion of `lemma_visits_from_congruence` for runs of children.
pub proof fn lemma_visits_children_congruence(
    a: GpuVoxelWorld,
    b: GpuVoxelWorld,
    g: int,
    k: int,
    x: int,
    y: int,
    z: int,
    d: int,
)
    requires
        a.brickmap@ == b.brickmap@,
        a.brickmap_depth == b.brickmap_depth,
    ensures
        visits_children(a, g, k, x, y, z, d) == visits_children(b, g, k, x, y, z, d),
    decreases a.brickmap_depth - d, 8 - k,
{
    if !(k < 0 || k >= 8 || d >= a.brickmap_depth) {
        let half = pow2((a.brickmap_depth - d - 1) as nat) as int;
        let cx = x + (if k >= 4 { half } else { 0 });
        let cy = y + (if k == 2 || k == 3 || k == 6 || k == 7 { half } else { 0 });
        let cz = z + (if k % 2 == 1 { half } else { 0 });
        lemma_visits_from_congruence(a, b, 8 * g + k, cx, cy, cz, d + 1);
        lemma_visits_children_congruence(a, b, g, k + 1, x, y, z, d);
    }
}

/// A successful cull leaves the structure well formed and the mirror
/// faithful.
#[verifier::rlimit(100)]
proof fn lemma_cull_reestablish(pre: GpuVoxelWorld, post: GpuVoxelWorld, cpu: CpuBrickmap, index: int)
    requires
        pre.wf(),
        pre.mirror_wf(cpu),
        cpu.wf(),
        0 <= index < pre.brickmap@.len(),
        pre.cull_ok(index),
        pre.cull_post(post, index),
    ensures
        post.wf(),
        post.mirror_wf(cpu),
{
    let g = pre.brickmap@[index] as int;
    let cs = child_slots(pre.brickmap@, 8 * g, 8);
    let bl = pre.brick_holes@.len() as int;
    let a = if bl > 0 {
        pre.brick_holes@.last()
    } else {
        cs.last()
    };
    let base = if bl > 0 {
        pre.brick_holes@.subrange(0, bl - 1)
    } else {
        Seq::<u32>::empty()
    };

    assert(1 <= g < pre.node_capacity());
    assert(!pre.hole_flags@[g]);
    assert(!pre.brickmap_holes@.contains(g as u32));
    // A node is never inside its own child group: depths would disagree.
    assert(!(8 * g <= index < 8 * g + 8)) by {
        if 8 * g <= index < 8 * g + 8 {
            assert(pre.depths@[8 * g + (index - 8 * g)] == pre.depths@[index] + 1);
        }
    }
    // Group-g slots are live in `pre`.
    assert forall|k: int| 0 <= k < 8 implies #[trigger] pre.live(8 * g + k) by {}

    lemma_child_slots_members(pre.brickmap@, 8 * g, 8);
    lemma_child_slots_distinct(pre.brickmap@, 8 * g, 8);
    lemma_push_contains(pre.brickmap_holes@, g as u32);
    if bl > 0 {
        lemma_distinct_pop(pre.brick_holes@);
        lemma_take_contains(pre.brick_holes@, bl - 1);
        lemma_concat_contains(base, cs);
        assert(post.brick_holes@ == base + cs);
    } else {
        lemma_distinct_pop(cs);
        assert(post.brick_holes@ == cs.subrange(0, cs.len() - 1));
    }

    // Child slots are allocated, in range, and none equals a live leaf's
    // slot outside the group.
    assert forall|t: int| 0 <= t < cs.len() implies {
        &&& 1 <= #[trigger] cs[t] < pre.brick_capacity()
        &&& !pre.brick_holes@.contains(cs[t])
    } by {
        let k2 = choose|k2: int|
            #![trigger pre.brickmap@[8 * g + k2]]
            0 <= k2 < 8 && pre.brickmap@[8 * g + k2] > BRICK_OFFSET && cs[t] == (pre.brickmap@[8
                * g + k2] - BRICK_OFFSET) as u32;
        assert(pre.live(8 * g + k2));
    };

    // The ancestor slot is valid and was not free after the rearrangement.
    assert(1 <= a < pre.brick_capacity()) by {
        if bl > 0 {
        } else {
            assert(cs.contains(cs[cs.len() - 1]));
        }
    }

    // Liveness shrinks by exactly group g.
    assert forall|i: int| #[trigger] post.live(i) implies pre.live(i) && !(8 * g <= i < 8 * g
        + 8) by {
        if i >= 8 {
            assert(post.hole_flags@[i / 8] == (if i / 8 == g {
                true
            } else {
                pre.hole_flags@[i / 8]
            }));
        }
    };
    assert forall|i: int| pre.live(i) && !(8 * g <= i < 8 * g + 8) implies #[trigger] post.live(
        i,
    ) by {
        if i >= 8 {
            assert(post.hole_flags@[i / 8] == pre.hole_flags@[i / 8]);
        }
    };

    assert(post.geometry_wf());

    // holes_wf
    assert forall|t: int| 0 <= t < post.brick_holes@.len() implies 1 <= #[trigger] post.brick_holes@[t] < post.brick_capacity() by {
        if bl > 0 {
            if t < bl - 1 {
                assert(post.brick_holes@[t] == pre.brick_holes@[t]);
            } else {
                assert(post.brick_holes@[t] == cs[t - (bl - 1)]);
            }
        } else {
            assert(post.brick_holes@[t] == cs[t]);
        }
    };
    assert forall|t1: int, t2: int| 0 <= t1 < t2 < post.brick_holes@.len() implies #[trigger] post.brick_holes@[t1] != #[trigger] post.brick_holes@[t2] by {
        if bl > 0 {
            if t1 < bl - 1 && t2 >= bl - 1 {
                assert(post.brick_holes@[t1] == pre.brick_holes@[t1]);
                assert(post.brick_holes@[t2] == cs[t2 - (bl - 1)]);
                assert(pre.brick_holes@.contains(pre.brick_holes@[t1]));
            } else if t1 >= bl - 1 {
                assert(post.brick_holes@[t1] == cs[t1 - (bl - 1)]);
                assert(post.brick_holes@[t2] == cs[t2 - (bl - 1)]);
            } else {
                assert(post.brick_holes@[t1] == pre.brick_holes@[t1]);
                assert(post.brick_holes@[t2] == pre.brick_holes@[t2]);
            }
        } else {
            assert(post.brick_holes@[t1] == cs[t1]);
            assert(post.brick_holes@[t2] == cs[t2]);
        }
    };
    assert forall|g2: int| 0 <= g2 < post.node_capacity() implies #[trigger] post.hole_flags@[g2]
        == post.brickmap_holes@.contains(g2 as u32) by {
        if g2 == g {
            assert(post.brickmap_holes@.contains(g as u32));
        }
    };
    assert forall|t: int| 0 <= t < post.brickmap_holes@.len() implies 1 <= #[trigger] post.brickmap_holes@[t] < post.node_capacity() by {
        if t < pre.brickmap_holes@.len() {
            assert(post.brickmap_holes@[t] == pre.brickmap_holes@[t]);
        } else {
            assert(post.brickmap_holes@[t] == g as u32);
        }
    };
    assert forall|t1: int, t2: int| 0 <= t1 < t2 < post.brickmap_holes@.len() implies #[trigger] post.brickmap_holes@[t1] != #[trigger] post.brickmap_holes@[t2] by {
        if t2 == pre.brickmap_holes@.len() {
            assert(post.brickmap_holes@[t1] == pre.brickmap_holes@[t1]);
            assert(pre.brickmap_holes@.contains(pre.brickmap_holes@[t1]));
        }
    };
    assert(post.holes_wf());

    // A helper: the new free stack's membership.
    assert forall|x: u32| #[trigger] post.brick_holes@.contains(x) implies (base.contains(x)
        || cs.contains(x)) by {
        if bl == 0 {
            let t = choose|t: int| 0 <= t < post.brick_holes@.len() && post.brick_holes@[t] == x;
            assert(cs[t] == x);
        }
    };

    // nodes_wf
    assert forall|i: int|
        post.live(i) && #[trigger] post.brickmap@[i] < BRICK_OFFSET implies {
        let gi = post.brickmap@[i] as int;
        &&& 1 <= gi < post.node_capacity()
        &&& !post.hole_flags@[gi]
        &&& post.depths@[i] < post.brickmap_depth
        &&& (forall|k: int|
            0 <= k < 8 ==> #[trigger] post.depths@[8 * gi + k] == post.depths@[i] + 1)
    } by {
        assert(i != index);
        assert(post.brickmap@[i] == pre.brickmap@[i]);
        let gi = pre.brickmap@[i] as int;
        assert(gi != g);
    };
    assert forall|i: int|
        post.live(i) && #[trigger] post.brickmap@[i] > BRICK_OFFSET implies {
        let si = post.brickmap@[i] - BRICK_OFFSET;
        &&& 1 <= si < post.brick_capacity()
        &&& !post.brick_holes@.contains(si as u32)
    } by {
        if i == index {
            assert(post.brickmap@[i] as int == BRICK_OFFSET + a);
            if bl > 0 {
                if base.contains(a as u32) {
                    assert(pre.brick_holes@.contains(a));
                }
                if cs.contains(a as u32) {
                    assert(!pre.brick_holes@.contains(a));
                }
            } else {
                if base.contains(a) {
                    assert(false);
                }
                if post.brick_holes@.contains(a) {
                    let t = choose|t: int|
                        0 <= t < post.brick_holes@.len() && post.brick_holes@[t] == a;
                    assert(cs[t] == cs[cs.len() - 1]);
                }
            }
        } else {
            assert(post.brickmap@[i] == pre.brickmap@[i]);
            let si = pre.brickmap@[i] - BRICK_OFFSET;
            assert(!pre.brick_holes@.contains(si as u32));
            if base.contains(si as u32) {
                assert(pre.brick_holes@.contains(si as u32));
            }
            if cs.contains(si as u32) {
                let t = choose|t: int| 0 <= t < cs.len() && cs[t] == si as u32;
                let k2 = choose|k2: int|
                    #![trigger pre.brickmap@[8 * g + k2]]
                    0 <= k2 < 8 && pre.brickmap@[8 * g + k2] > BRICK_OFFSET && cs[t] == (
                    pre.brickmap@[8 * g + k2] - BRICK_OFFSET) as u32;
                assert(pre.live(8 * g + k2));
                assert(i != 8 * g + k2);
                assert(pre.brickmap@[i] != pre.brickmap@[8 * g + k2]);
                assert(false);
            }
        }
    };
    assert forall|i: int| #![trigger post.depths@[i]] post.live(i) implies 1 <= post.depths@[i]
        <= post.brickmap_depth by {}
    assert(post.nodes_wf());

    // injective_wf: the only new leaf word is at `index`; its slot is fresh
    // with respect to every surviving leaf.
    assert forall|i1: int, i2: int|
        #![trigger post.brickmap@[i1], post.brickmap@[i2]]
        post.live(i1) && post.live(i2) && i1 != i2 && post.brickmap@[i1] > BRICK_OFFSET
            && post.brickmap@[i2] > BRICK_OFFSET implies post.brickmap@[i1]
        != post.brickmap@[i2] by {
        if i1 == index || i2 == index {
            let io = if i1 == index {
                i2
            } else {
                i1
            };
            assert(post.brickmap@[io] == pre.brickmap@[io]);
            let so = pre.brickmap@[io] - BRICK_OFFSET;
            assert(!pre.brick_holes@.contains(so as u32));
            if bl > 0 {
                if so == a {
                    assert(pre.brick_holes@.contains(a));
                }
            } else {
                if so == a {
                    let t = choose|t: int| 0 <= t < cs.len() && cs[t] == so as u32;
                    let k2 = choose|k2: int|
                        #![trigger pre.brickmap@[8 * g + k2]]
                        0 <= k2 < 8 && pre.brickmap@[8 * g + k2] > BRICK_OFFSET && cs.last() == (
                        pre.brickmap@[8 * g + k2] - BRICK_OFFSET) as u32;
                    assert(pre.live(8 * g + k2));
                    assert(io != 8 * g + k2);
                    assert(pre.brickmap@[io] != pre.brickmap@[8 * g + k2]);
                }
            }
        } else {
            assert(post.brickmap@[i1] == pre.brickmap@[i1]);
            assert(post.brickmap@[i2] == pre.brickmap@[i2]);
        }
    };
    assert forall|i1: int, i2: int|
        #![trigger post.brickmap@[i1], post.brickmap@[i2]]
        post.live(i1) && post.live(i2) && i1 != i2 && post.brickmap@[i1] < BRICK_OFFSET
            && post.brickmap@[i2] < BRICK_OFFSET implies post.brickmap@[i1]
        != post.brickmap@[i2] by {
        assert(i1 != index && i2 != index);
        assert(post.brickmap@[i1] == pre.brickmap@[i1]);
        assert(post.brickmap@[i2] == pre.brickmap@[i2]);
    };
    assert(post.injective_wf());

    // no_orphans_wf: group g is now free; the witnesses of all other
    // allocated groups were not among g's children (those are leaves).
    assert forall|g2: int|
        1 <= g2 < post.node_capacity() && !(#[trigger] post.hole_flags@[g2]) implies exists|i: int|
        #![trigger post.brickmap@[i]]
        post.live(i) && post.brickmap@[i] as int == g2 by {
        assert(g2 != g);
        assert(!pre.hole_flags@[g2]);
        let w = choose|i: int|
            #![trigger pre.brickmap@[i]]
            pre.live(i) && pre.brickmap@[i] as int == g2;
        assert(w != index);
        if 8 * g <= w < 8 * g + 8 {
            assert(pre.brickmap@[8 * g + (w - 8 * g)] == pre.brickmap@[w]);
            assert(false);
        }
        assert(post.live(w) && post.brickmap@[w] as int == g2);
    };
    assert forall|s2: int|
        1 <= s2 < post.brick_capacity() && !(#[trigger] post.brick_holes@.contains(s2 as u32))
        implies exists|i: int|
        #![trigger post.brickmap@[i]]
        post.live(i) && post.brickmap@[i] as int == BRICK_OFFSET + s2 by {
        if s2 == a {
            assert(post.brickmap@[index] as int == BRICK_OFFSET + a);
            assert(post.live(index));
        } else if pre.brick_holes@.contains(s2 as u32) {
            // It was free before and was not handed out, so it is still
            // free now: contradiction.
            let t = choose|t: int| 0 <= t < bl && pre.brick_holes@[t] == s2 as u32;
            assert(bl > 0);
            if t < bl - 1 {
                assert(base[t] == s2 as u32);
                assert(base.contains(s2 as u32));
                assert((base + cs).contains(s2 as u32));
            } else {
                assert(s2 == a);
            }
            assert(false);
        } else {
            let w = choose|i: int|
                #![trigger pre.brickmap@[i]]
                pre.live(i) && pre.brickmap@[i] as int == BRICK_OFFSET + s2;
            assert(w != index);
            if 8 * g <= w < 8 * g + 8 {
                let k2 = w - 8 * g;
                assert(pre.brickmap@[8 * g + k2] == pre.brickmap@[w]);
                assert(cs.contains((pre.brickmap@[8 * g + k2] - BRICK_OFFSET) as u32));
                if bl > 0 {
                    assert((base + cs).contains(s2 as u32));
                    assert(false);
                } else {
                    let t = choose|t: int| 0 <= t < cs.len() && cs[t] == s2 as u32;
                    if t < cs.len() - 1 {
                        assert(post.brick_holes@[t] == s2 as u32);
                        assert(post.brick_holes@.contains(s2 as u32));
                    } else {
                        assert(s2 == a);
                    }
                    assert(false);
                }
            }
            assert(post.live(w) && post.brickmap@[w] as int == BRICK_OFFSET + s2);
        }
    };
    assert(post.no_orphans_wf());

    // mirror_wf: the maps are untouched and the live set shrank; the new
    // leaf at `index` is non-empty.
    assert forall|i: int|
        #![trigger post.brickmap@[i]]
        post.live(i) && post.brickmap@[i] < BRICK_OFFSET implies {
        let cc2 = cpu.brickmap@[post.gpu_to_cpu@[i] as int].children as int;
        &&& cc2 != 0
        &&& (forall|k: int|
            0 <= k < 8 ==> #[trigger] post.gpu_to_cpu@[8 * (post.brickmap@[i] as int) + k] as int
                == 8 * cc2 + k)
    } by {
        assert(i != index);
        assert(post.brickmap@[i] == pre.brickmap@[i]);
    };
    assert forall|i: int|
        #![trigger post.brickmap@[i]]
        post.live(i) && post.brickmap@[i] == BRICK_OFFSET implies cpu.brickmap@[post.gpu_to_cpu@[i] as int].children == 0 by {
        assert(i != index);
        assert(post.brickmap@[i] == pre.brickmap@[i]);
    };
    assert(post.mirror_wf(cpu));
}

/// How many of the first `n` flags are set.
pub open spec fn count_true(flags: Seq<bool>, n: int) -> int
    decreases n,
{
    if n <= 0 {
        0
    } else {
        count_true(flags, n - 1) + if flags[n - 1] {
            1int
        } else {
            0int
        }
    }
}

/// Counting is pointwise.
proof fn lemma_count_true_congruent(f1: Seq<bool>, f2: Seq<bool>, n: int)
    requires
        forall|j: int| 0 <= j < n ==> f1[j] == f2[j],
    ensures
        count_true(f1, n) == count_true(f2, n),
    decreases n,
{
    if n > 0 {
        lemma_count_true_congruent(f1, f2, n - 1);
    }
}

/// Clearing one set flag lowers the count by one.
proof fn lemma_count_true_update(flags: Seq<bool>, g: int, n: int)
    requires
        0 <= g < n <= flags.len(),
    ensures
        count_true(flags.update(g, false), n) == count_true(flags, n) - (if flags[g] {
            1int
        } else {
            0int
        }),
    decreases n,
{
    if g == n - 1 {
        lemma_count_true_congruent(flags.update(g, false), flags, n - 1);
    } else {
        lemma_count_true_update(flags, g, n - 1);
    }
}

/// All-clear flags count to zero.
proof fn lemma_count_true_none(flags: Seq<bool>, n: int)
    requires
        forall|j: int| 0 <= j < n ==> !flags[j],
    ensures
        count_true(flags, n) == 0,
    decreases n,
{
    if n > 0 {
        lemma_count_true_none(flags, n - 1);
    }
}

/// Flags that mirror membership in a duplicate-free list count to exactly
/// the list's length.
proof fn lemma_distinct_flags_count(flags: Seq<bool>, holes: Seq<u32>, n: int)
    requires
        n <= flags.len(),
        n <= 0x8000_0000,
        forall|t: int| 0 <= t < holes.len() ==> 0 <= #[trigger] holes[t] < n,
        distinct_seq(holes),
        forall|g: int| 0 <= g < n ==> (#[trigger] flags[g] <==> holes.contains(g as u32)),
    ensures
        count_true(flags, n) == holes.len(),
    decreases holes.len(),
{
    if holes.len() == 0 {
        assert forall|j: int| 0 <= j < n implies !flags[j] by {
            if flags[j] {
                assert(holes.contains(j as u32));
            }
        };
        lemma_count_true_none(flags, n);
    } else {
        let g = holes.last() as int;
        assert(holes.contains(holes.last()));
        assert(flags[g]);
        let flags2 = flags.update(g, false);
        let holes2 = holes.subrange(0, holes.len() - 1);
        lemma_distinct_pop(holes);
        assert forall|g2: int| 0 <= g2 < n implies (#[trigger] flags2[g2] <==> holes2.contains(
            g2 as u32,
        )) by {
            if g2 != g {
                assert(flags2[g2] == flags[g2]);
            } else {
                assert(!holes2.contains(g as u32));
            }
        };
        lemma_distinct_flags_count(flags2, holes2, n);
        lemma_count_true_update(flags, g, n);
    }
}

/// A concatenation's multiset is the sum of the parts' multisets.
proof fn lemma_to_multiset_concat(s1: Seq<u32>, s2: Seq<u32>)
    ensures
        (s1 + s2).to_multiset() == s1.to_multiset().add(s2.to_multiset()),
    decreases s2.len(),
{
    broadcast use vstd::seq_lib::group_to_multiset_ensures;

    if s2.len() == 0 {
        assert(s1 + s2 =~= s1);
        assert(s2.to_multiset() =~= Multiset::empty());
        assert(s1.to_multiset().add(Multiset::empty()) =~= s1.to_multiset());
    } else {
        let s2p = s2.subrange(0, s2.len() - 1);
        let x = s2.last();
        lemma_to_multiset_concat(s1, s2p);
        assert(s2p.push(x) =~= s2);
        assert(s1 + s2 =~= (s1 + s2p).push(x));
        assert(((s1 + s2p).push(x)).to_multiset() =~= (s1 + s2p).to_multiset().insert(x));
        assert(s2p.push(x).to_multiset() =~= s2p.to_multiset().insert(x));
        assert(s1.to_multiset().add(s2p.to_multiset().insert(x)) =~= s1.to_multiset().add(
            s2p.to_multiset(),
        ).insert(x));
    }
}

/// The GPU-resident mirror of the octree.
pub struct GpuVoxelWorld {
    /// Packed node words, `8 * node_capacity` of them; slots 0..8 are the
    /// root group.
    pub brickmap: Vec<u32>,
    /// For each resident slot, the host node index it mirrors.
    pub gpu_to_cpu: Vec<u32>,
    /// Stack of free child-group indices (each frees eight slots).
    pub brickmap_holes: Vec<u32>,
    /// Stack of free brick slots; slot 0 is reserved for "empty" and never
    /// enters the stack.
    pub brick_holes: Vec<u32>,
    /// `hole_flags[g]` holds exactly when `g` is on `brickmap_holes`; gives
    /// constant-time liveness checks.
    pub hole_flags: Vec<bool>,
    /// Size of the GPU color texture in voxels; each 16^3 block is one brick
    /// slot.
    pub color_texture_size: UVec3,
    /// Depth of the mirrored octree, in node levels.
    pub brickmap_depth: u32,
    /// The depth of each resident slot, in node levels (root group is 1).
    pub depths: Ghost<Seq<u32>>,
}

impl GpuVoxelWorld {
    pub open spec fn node_capacity(self) -> int {
        self.brickmap@.len() as int / 8
    }

    pub open spec fn brick_capacity(self) -> int {
        (self.color_texture_size.x as int / 16) * (self.color_texture_size.y as int / 16) * (
        self.color_texture_size.z as int / 16)
    }

    /// A slot is live when its group is the root group or not on the free
    /// stack.
    pub open spec fn live(self, i: int) -> bool {
        &&& 0 <= i < self.brickmap@.len()
        &&& (i < 8 || !self.hole_flags@[i / 8])
    }

    /// Array sizes, capacity bounds and texture geometry.
    pub open spec fn geometry_wf(self) -> bool {
        &&& self.brickmap@.len() == 8 * self.node_capacity()
        &&& 1 <= self.node_capacity() <= 0x800_0000
        &&& 1 <= self.brick_capacity() <= 0x4000_0000
        &&& self.gpu_to_cpu@.len() == self.brickmap@.len()
        &&& self.depths@.len() == self.brickmap@.len()
        &&& self.hole_flags@.len() == self.node_capacity()
        &&& 1 <= self.brickmap_depth <= 20
        &&& self.color_texture_size.x % 16 == 0
        &&& self.color_texture_size.y % 16 == 0
        &&& self.color_texture_size.z % 16 == 0
        &&& self.color_texture_size.x >= 16
        &&& self.color_texture_size.y >= 16
        &&& self.color_texture_size.z >= 16
    }

    /// The free stacks hold valid, pairwise distinct entries; the flags
    /// mirror the group stack; the root group is never free.
    pub open spec fn holes_wf(self) -> bool {
        &&& (forall|t: int|
            0 <= t < self.brickmap_holes@.len() ==> 1 <= #[trigger] self.brickmap_holes@[t]
                < self.node_capacity())
        &&& distinct_seq(self.brickmap_holes@)
        &&& (forall|t: int|
            0 <= t < self.brick_holes@.len() ==> 1 <= #[trigger] self.brick_holes@[t]
                < self.brick_capacity())
        &&& distinct_seq(self.brick_holes@)
        &&& (forall|g: int|
            0 <= g < self.node_capacity() ==> #[trigger] self.hole_flags@[g]
                == self.brickmap_holes@.contains(g as u32))
    }

    /// Every live internal slot points at a live, in-range child group at
    /// the next depth; every live non-empty leaf holds an allocated,
    /// in-range brick slot; depths are consistent.
    pub open spec fn nodes_wf(self) -> bool {
        &&& (forall|i: int|
            #![trigger self.brickmap@[i]]
            self.live(i) && self.brickmap@[i] < BRICK_OFFSET ==> {
                let g = self.brickmap@[i] as int;
                &&& 1 <= g < self.node_capacity()
                &&& !self.hole_flags@[g]
                &&& self.depths@[i] < self.brickmap_depth
                &&& (forall|k: int|
                    0 <= k < 8 ==> #[trigger] self.depths@[8 * g + k] == self.depths@[i] + 1)
            })
        &&& (forall|i: int|
            #![trigger self.brickmap@[i]]
            self.live(i) && self.brickmap@[i] > BRICK_OFFSET ==> {
                let s = self.brickmap@[i] - BRICK_OFFSET;
                &&& 1 <= s < self.brick_capacity()
                &&& !self.brick_holes@.contains(s as u32)
            })
        &&& (forall|i: int| 0 <= i < 8 ==> #[trigger] self.depths@[i] == 1)
        &&& (forall|i: int|
            #![trigger self.depths@[i]]
            self.live(i) ==> 1 <= self.depths@[i] <= self.brickmap_depth)
    }

    /// No child group and no brick slot is referenced twice.
    pub open spec fn injective_wf(self) -> bool {
        &&& (forall|i1: int, i2: int|
            #![trigger self.brickmap@[i1], self.brickmap@[i2]]
            self.live(i1) && self.live(i2) && i1 != i2 && self.brickmap@[i1] < BRICK_OFFSET
                && self.brickmap@[i2] < BRICK_OFFSET ==> self.brickmap@[i1]
                != self.brickmap@[i2])
        &&& (forall|i1: int, i2: int|
            #![trigger self.brickmap@[i1], self.brickmap@[i2]]
            self.live(i1) && self.live(i2) && i1 != i2 && self.brickmap@[i1] > BRICK_OFFSET
                && self.brickmap@[i2] > BRICK_OFFSET ==> self.brickmap@[i1]
                != self.brickmap@[i2])
    }

    /// Every allocated child group is referenced by some live internal slot,
    /// and every allocated brick slot by some live leaf: nothing leaks.
    pub open spec fn no_orphans_wf(self) -> bool {
        &&& (forall|g: int|
            1 <= g < self.node_capacity() && !(#[trigger] self.hole_flags@[g]) ==> exists|i: int|
                #![trigger self.brickmap@[i]]
                self.live(i) && self.brickmap@[i] as int == g)
        &&& (forall|s: int|
            1 <= s < self.brick_capacity() && !(#[trigger] self.brick_holes@.contains(s as u32))
                ==> exists|i: int|
                #![trigger self.brickmap@[i]]
                self.live(i) && self.brickmap@[i] as int == BRICK_OFFSET + s)
    }

    pub open spec fn wf(self) -> bool {
        &&& self.geometry_wf()
        &&& self.holes_wf()
        &&& self.nodes_wf()
        &&& self.injective_wf()
        &&& self.no_orphans_wf()
    }

    /// The mirror map is faithful: every live slot mirrors a valid host node
    /// at the same depth, the roots mirror the host roots, a live internal
    /// slot's children mirror the host children, and an empty leaf mirrors a
    /// childless host node.
    pub open spec fn mirror_wf(self, cpu: CpuBrickmap) -> bool {
        &&& self.brickmap_depth == cpu.brickmap_depth
        &&& (forall|i: int|
            #![trigger self.gpu_to_cpu@[i]]
            self.live(i) ==> self.gpu_to_cpu@[i] < cpu.brickmap@.len())
        &&& (forall|i: int| 0 <= i < 8 ==> #[trigger] self.gpu_to_cpu@[i] == i)
        &&& (forall|i: int|
            #![trigger self.gpu_to_cpu@[i]]
            self.live(i) ==> cpu.depths@[self.gpu_to_cpu@[i] as int] == self.depths@[i])
        &&& (forall|i: int|
            #![trigger self.brickmap@[i]]
            self.live(i) && self.brickmap@[i] < BRICK_OFFSET ==> {
                let cc = cpu.brickmap@[self.gpu_to_cpu@[i] as int].children as int;
                &&& cc != 0
                &&& (forall|k: int|
                    0 <= k < 8 ==> #[trigger] self.gpu_to_cpu@[8 * (self.brickmap@[i] as int)
                        + k] as int == 8 * cc + k)
            })
        &&& (forall|i: int|
            #![trigger self.brickmap@[i]]
            self.live(i) && self.brickmap@[i] == BRICK_OFFSET ==> cpu.brickmap@[self.gpu_to_cpu@[
                i
            ] as int].children == 0)
    }

    /// A fresh GPU mirror holding only the root level: eight leaves, one per
    /// octant, each carrying the host root's mip brick (or empty where the
    /// host octant is empty); every other group and every other brick slot
    /// is free. The returned uploads say which host bricks to copy into
    /// which slots.
    #[verifier::rlimit(100)]
    pub fn new(cpu: &CpuBrickmap, node_capacity: usize, color_texture_size: UVec3) -> (r: Result<
        (GpuVoxelWorld, Vec<BrickUpload>),
        VoxelError,
    >)
        requires
            cpu.wf(),
            2 <= node_capacity <= 0x800_0000,
            color_texture_size.x % 16 == 0,
            color_texture_size.y % 16 == 0,
            color_texture_size.z % 16 == 0,
            color_texture_size.x >= 16,
            color_texture_size.y >= 16,
            color_texture_size.z >= 16,
            2 <= (color_texture_size.x as int / 16) * (color_texture_size.y as int / 16) * (
            color_texture_size.z as int / 16) <= 0x4000_0000,
        ensures
            match r {
                Ok(p) => {
                    &&& p.0.wf()
                    &&& p.0.mirror_wf(*cpu)
                    &&& p.0.brickmap_depth == cpu.brickmap_depth
                    &&& p.0.node_capacity() == node_capacity
                    &&& p.0.color_texture_size == color_texture_size
                    &&& (forall|k: int|
                        0 <= k < 8 ==> ((#[trigger] p.0.brickmap@[k] == BRICK_OFFSET)
                            <==> cpu.brickmap@[k].brick == 0))
                    &&& p.0.brickmap_holes@.len() == node_capacity - 1
                    &&& p.0.brick_holes@.len() == p.0.brick_capacity() - 1 - count_bricks(
                        cpu.brickmap@,
                        0,
                        8,
                    )
                    &&& p.1@.len() == count_bricks(cpu.brickmap@, 0, 8)
                    &&& (forall|t: int| 0 <= t < p.1@.len() ==> #[trigger] p.1@[t].slot == t + 1)
                },
                Err(e) => {
                    &&& e == VoxelError::Exhausted
                    &&& (color_texture_size.x as int / 16) * (color_texture_size.y as int / 16) * (
                    color_texture_size.z as int / 16) - 1 < count_bricks(cpu.brickmap@, 0, 8)
                },
            },
    {
        let dx = color_texture_size.x / 16;
        let dy = color_texture_size.y / 16;
        let dz = color_texture_size.z / 16;
        proof {
            assert((dx as int) * (dy as int) >= 1 && (dx as int) * (dy as int) * (dz as int) >= (
            dx as int) * (dy as int)) by (nonlinear_arith)
                requires
                    dx >= 1,
                    dy >= 1,
                    dz >= 1,
            ;
        }
        let bcap: usize = dx as usize * dy as usize * dz as usize;

        let mut needed: usize = 0;
        let mut k: usize = 0;
        while k < 8
            invariant
                cpu.wf(),
                k <= 8,
                needed == count_bricks(cpu.brickmap@, 0, k as int),
                needed <= k,
            decreases 8 - k,
        {
            if cpu.brickmap[k].brick != 0 {
                needed = needed + 1;
            }
            k = k + 1;
        }
        if bcap - 1 < needed {
            return Err(VoxelError::Exhausted);
        }

        let total_slots: usize = 8 * node_capacity;
        let mut brickmap: Vec<u32> = vec![BRICK_OFFSET; total_slots];
        let mut gpu_to_cpu: Vec<u32> = vec![0u32; total_slots];
        let mut i: usize = 0;
        while i < 8
            invariant
                i <= 8,
                gpu_to_cpu@.len() == total_slots,
                total_slots == 8 * node_capacity,
                node_capacity >= 2,
                forall|q: int| 0 <= q < i ==> #[trigger] gpu_to_cpu@[q] == q,
                forall|q: int| i <= q < total_slots ==> #[trigger] gpu_to_cpu@[q] == 0,
            decreases 8 - i,
        {
            gpu_to_cpu.set(i, i as u32);
            i = i + 1;
        }

        let mut node_holes: Vec<u32> = Vec::new();
        let mut t: usize = 0;
        while t < node_capacity - 1
            invariant
                node_capacity >= 2,
                node_capacity <= 0x800_0000,
                t <= node_capacity - 1,
                node_holes@.len() == t,
                forall|q: int|
                    0 <= q < t ==> #[trigger] node_holes@[q] == (node_capacity - 1 - q) as u32,
            decreases node_capacity - 1 - t,
        {
            node_holes.push((node_capacity - 1 - t) as u32);
            t = t + 1;
        }

        let mut brick_holes: Vec<u32> = Vec::new();
        let mut t2: usize = 0;
        while t2 < bcap - 1
            invariant
                bcap >= 1,
                bcap <= 0x4000_0000,
                t2 <= bcap - 1,
                brick_holes@.len() == t2,
                forall|q: int|
                    0 <= q < t2 ==> #[trigger] brick_holes@[q] == (bcap - 1 - q) as u32,
            decreases bcap - 1 - t2,
        {
            brick_holes.push((bcap - 1 - t2) as u32);
            t2 = t2 + 1;
        }

        let mut hole_flags: Vec<bool> = vec![true; node_capacity];
        hole_flags.set(0, false);

        let mut ups: Vec<BrickUpload> = Vec::new();
        let mut cnt: usize = 0;
        let mut k2: usize = 0;
        while k2 < 8
            invariant
                cpu.wf(),
                k2 <= 8,
                bcap >= 1,
                bcap <= 0x4000_0000,
                node_capacity >= 2,
                needed == count_bricks(cpu.brickmap@, 0, 8),
                needed <= bcap - 1,
                cnt == count_bricks(cpu.brickmap@, 0, k2 as int),
                cnt <= needed,
                brickmap@.len() == total_slots,
                total_slots == 8 * node_capacity,
                brick_holes@.len() == bcap - 1 - cnt,
                forall|q: int|
                    0 <= q < brick_holes@.len() ==> #[trigger] brick_holes@[q] == (bcap - 1
                        - q) as u32,
                forall|j: int|
                    0 <= j < k2 ==> #[trigger] brickmap@[j] == (if cpu.brickmap@[j].brick == 0 {
                        BRICK_OFFSET
                    } else {
                        (BRICK_OFFSET + count_bricks(cpu.brickmap@, 0, j + 1)) as u32
                    }),
                forall|j: int|
                    k2 <= j < total_slots ==> #[trigger] brickmap@[j] == BRICK_OFFSET,
                ups@.len() == cnt,
                forall|u: int| 0 <= u < cnt ==> #[trigger] ups@[u].slot == u + 1,
                forall|u: int|
                    #![trigger ups@[u]]
                    0 <= u < cnt ==> exists|j: int|
                        #![trigger cpu.brickmap@[j]]
                        0 <= j < 8 && cpu.brickmap@[j].brick != 0 && cpu.brickmap@[j].brick
                            == ups@[u].cpu_brick && count_bricks(cpu.brickmap@, 0, j + 1) == u + 1,
            decreases 8 - k2,
        {
            let node = cpu.brickmap[k2];
            if node.brick != 0 {
                proof {
                    lemma_count_bricks_mono(cpu.brickmap@, 0, k2 as int + 1, 8);
                    assert(count_bricks(cpu.brickmap@, 0, k2 as int + 1) == cnt + 1);
                }
                let s = match brick_holes.pop() {
                    Some(s) => s,
                    None => unreached(),
                };
                proof {
                    assert(s as int == cnt + 1);
                }
                brickmap.set(k2, BRICK_OFFSET + s);
                ups.push(BrickUpload { slot: s, cpu_brick: node.brick });
                cnt = cnt + 1;
            }
            k2 = k2 + 1;
        }

        let gw = GpuVoxelWorld {
            brickmap,
            gpu_to_cpu,
            brickmap_holes: node_holes,
            brick_holes,
            hole_flags,
            color_texture_size,
            brickmap_depth: cpu.brickmap_depth,
            depths: Ghost(Seq::new((8 * node_capacity) as nat, |q: int| 1u32)),
        };
        proof {
            assert(gw.node_capacity() == node_capacity);
            assert(gw.brick_capacity() == bcap as int);
            // All non-root groups are free, so only the roots are live.
            assert forall|q: int| gw.live(q) implies 0 <= q < 8 by {
                if q >= 8 {
                    assert(gw.hole_flags@[q / 8]);
                }
            };
            // Every word is a leaf word; the roots carry slots 1.. in order.
            assert forall|q: int| 0 <= q < 8 implies #[trigger] gw.brickmap@[q] == (
            if cpu.brickmap@[q].brick == 0 {
                BRICK_OFFSET
            } else {
                (BRICK_OFFSET + count_bricks(cpu.brickmap@, 0, q + 1)) as u32
            }) by {}
            assert forall|q: int| 8 <= q < gw.brickmap@.len() implies #[trigger] gw.brickmap@[q]
                == BRICK_OFFSET by {}
            assert forall|q: int| gw.live(q) implies #[trigger] gw.brickmap@[q]
                >= BRICK_OFFSET by {
                lemma_count_bricks_mono(cpu.brickmap@, 0, 0, q + 1);
                lemma_count_bricks_mono(cpu.brickmap@, 0, q + 1, 8);
            };
            // An empty root leaf mirrors a childless host octant.
            assert forall|q: int|
                gw.live(q) && #[trigger] gw.brickmap@[q] == BRICK_OFFSET implies cpu.brickmap@[gw.gpu_to_cpu@[q] as int].children == 0 by {
                assert(0 <= q < 8);
                assert(gw.gpu_to_cpu@[q] == q);
                if cpu.brickmap@[q].brick != 0 {
                    lemma_count_bricks_mono(cpu.brickmap@, 0, 0, q);
                    lemma_count_bricks_mono(cpu.brickmap@, 0, q + 1, 8);
                    assert(count_bricks(cpu.brickmap@, 0, q + 1) == count_bricks(
                        cpu.brickmap@,
                        0,
                        q,
                    ) + 1);
                    assert(gw.brickmap@[q] != BRICK_OFFSET);
                }
                if cpu.brickmap@[q].children != 0 {
                    assert(cpu.brickmap@[q].brick != 0);
                }
            };
            assert forall|q: int|
                0 <= q < 8 && #[trigger] gw.brickmap@[q] == BRICK_OFFSET implies cpu.brickmap@[q].brick == 0 by {
                if cpu.brickmap@[q].brick != 0 {
                    lemma_count_bricks_mono(cpu.brickmap@, 0, 0, q);
                    lemma_count_bricks_mono(cpu.brickmap@, 0, q + 1, 8);
                    assert(count_bricks(cpu.brickmap@, 0, q + 1) == count_bricks(
                        cpu.brickmap@,
                        0,
                        q,
                    ) + 1);
                }
            };
            // The flags mirror the free stack.
            assert forall|g: int| 0 <= g < gw.node_capacity() implies #[trigger] gw.hole_flags@[g]
                == gw.brickmap_holes@.contains(g as u32) by {
                if 1 <= g {
                    assert(gw.brickmap_holes@[node_capacity - 1 - g] == g as u32);
                } else {
                    assert forall|q: int| 0 <= q < gw.brickmap_holes@.len() implies gw.brickmap_holes@[q]
                        != 0u32 by {}
                }
            };
            // Allocated brick slots are exactly 1..=cnt, referenced by the
            // seeded roots.
            assert forall|s: int|
                1 <= s < gw.brick_capacity() && !(#[trigger] gw.brick_holes@.contains(s as u32))
                implies exists|q: int|
                #![trigger gw.brickmap@[q]]
                gw.live(q) && gw.brickmap@[q] as int == BRICK_OFFSET + s by {
                if s > count_bricks(cpu.brickmap@, 0, 8) {
                    assert(gw.brick_holes@[bcap - 1 - s] == s as u32);
                } else {
                    lemma_count_bricks_surjective(cpu.brickmap@, 0, 8, s);
                    let j = choose|j: int|
                        0 <= j < 8 && (#[trigger] cpu.brickmap@[j]).brick != 0 && count_bricks(
                            cpu.brickmap@,
                            0,
                            j + 1,
                        ) == s;
                    assert(gw.brickmap@[j] as int == BRICK_OFFSET + s);
                }
            };
            // Seeded leaves hold slots in range and off the free stack.
            assert forall|q: int|
                gw.live(q) && #[trigger] gw.brickmap@[q] > BRICK_OFFSET implies {
                let s = gw.brickmap@[q] - BRICK_OFFSET;
                &&& 1 <= s < gw.brick_capacity()
                &&& !gw.brick_holes@.contains(s as u32)
            } by {
                lemma_count_bricks_mono(cpu.brickmap@, 0, q + 1, 8);
                let s = gw.brickmap@[q] - BRICK_OFFSET;
                assert forall|u: int| 0 <= u < gw.brick_holes@.len() implies gw.brick_holes@[u]
                    != s as u32 by {}
            };
            // Distinct seeded leaves hold distinct slots.
            assert forall|i1: int, i2: int|
                gw.live(i1) && gw.live(i2) && i1 != i2 && #[trigger] gw.brickmap@[i1]
                    > BRICK_OFFSET && #[trigger] gw.brickmap@[i2] > BRICK_OFFSET implies gw.brickmap@[i1] != gw.brickmap@[i2] by {
                if i1 >= 8 {
                    assert(gw.hole_flags@[i1 / 8]);
                }
                if i2 >= 8 {
                    assert(gw.hole_flags@[i2 / 8]);
                }
                assert(cpu.brickmap@[i1].brick != 0);
                assert(cpu.brickmap@[i2].brick != 0);
                lemma_count_bricks_mono(cpu.brickmap@, 0, 0, i1 + 1);
                lemma_count_bricks_mono(cpu.brickmap@, 0, i1 + 1, 8);
                lemma_count_bricks_mono(cpu.brickmap@, 0, 0, i2 + 1);
                lemma_count_bricks_mono(cpu.brickmap@, 0, i2 + 1, 8);
                assert(gw.brickmap@[i1] as int == BRICK_OFFSET + count_bricks(
                    cpu.brickmap@,
                    0,
                    i1 + 1,
                ));
                assert(gw.brickmap@[i2] as int == BRICK_OFFSET + count_bricks(
                    cpu.brickmap@,
                    0,
                    i2 + 1,
                ));
                if i1 < i2 {
                    lemma_count_bricks_mono(cpu.brickmap@, 0, i1 + 1, i2);
                    assert(count_bricks(cpu.brickmap@, 0, i2 + 1) == count_bricks(
                        cpu.brickmap@,
                        0,
                        i2,
                    ) + 1);
                } else {
                    lemma_count_bricks_mono(cpu.brickmap@, 0, i2 + 1, i1);
                    assert(count_bricks(cpu.brickmap@, 0, i1 + 1) == count_bricks(
                        cpu.brickmap@,
                        0,
                        i1,
                    ) + 1);
                }
            };
        }
        Ok((gw, ups))
    }

    /// The host node mirrored by slot `i`.
    pub open spec fn mirror_of(self, cpu: CpuBrickmap, i: int) -> crate::cpu_brickmap::Node {
        cpu.brickmap@[self.gpu_to_cpu@[i] as int]
    }

    /// `divide_node(index)` succeeds exactly under these conditions: the
    /// slot is live, a non-empty leaf, its host mirror is internal, a group
    /// is free, and enough brick slots are free for the children that carry
    /// bricks.
    pub open spec fn divide_ok(self, cpu: CpuBrickmap, index: int) -> bool {
        let cc = 8 * (self.mirror_of(cpu, index).children as int);
        &&& self.live(index)
        &&& self.brickmap@[index] > BRICK_OFFSET
        &&& self.mirror_of(cpu, index).children != 0
        &&& self.brickmap_holes@.len() > 0
        &&& self.brick_holes@.len() >= count_bricks(cpu.brickmap@, cc, 8)
    }

    /// What a successful divide does, exactly: the top free group `g` is
    /// claimed; child `k` of the group becomes a leaf mirroring host child
    /// `k`, drawing brick slots off the top of the free stack in child
    /// order; the divided node's own brick slot is returned to the stack;
    /// the node then points at `g`.
    pub open spec fn divide_post(self, post: GpuVoxelWorld, cpu: CpuBrickmap, index: int) -> bool {
        let g = self.brickmap_holes@.last() as int;
        let cc = 8 * (self.mirror_of(cpu, index).children as int);
        let s = self.brickmap@[index] - BRICK_OFFSET;
        let bl = self.brick_holes@.len() as int;
        let needed = count_bricks(cpu.brickmap@, cc, 8);
        &&& post.brickmap@.len() == self.brickmap@.len()
        &&& post.brickmap@[index] as int == g
        &&& (forall|j: int|
            0 <= j < self.brickmap@.len() && j != index && !(8 * g <= j < 8 * g + 8)
                ==> #[trigger] post.brickmap@[j] == self.brickmap@[j])
        &&& (forall|k: int|
            0 <= k < 8 ==> #[trigger] post.brickmap@[8 * g + k] == (if cpu.brickmap@[cc
                + k].brick == 0 {
                BRICK_OFFSET
            } else {
                (BRICK_OFFSET + self.brick_holes@[bl - count_bricks(
                    cpu.brickmap@,
                    cc,
                    k + 1,
                )]) as u32
            }))
        &&& post.gpu_to_cpu@.len() == self.gpu_to_cpu@.len()
        &&& (forall|j: int|
            0 <= j < self.gpu_to_cpu@.len() && !(8 * g <= j < 8 * g + 8)
                ==> #[trigger] post.gpu_to_cpu@[j] == self.gpu_to_cpu@[j])
        &&& (forall|k: int|
            0 <= k < 8 ==> #[trigger] post.gpu_to_cpu@[8 * g + k] as int == cc + k)
        &&& post.depths@.len() == self.depths@.len()
        &&& (forall|j: int|
            0 <= j < self.depths@.len() && !(8 * g <= j < 8 * g + 8) ==> #[trigger] post.depths@[j]
                == self.depths@[j])
        &&& (forall|k: int|
            0 <= k < 8 ==> #[trigger] post.depths@[8 * g + k] == self.depths@[index] + 1)
        &&& post.brickmap_holes@ == self.brickmap_holes@.subrange(
            0,
            self.brickmap_holes@.len() - 1,
        )
        &&& post.hole_flags@ == self.hole_flags@.update(g, false)
        &&& post.brick_holes@ == self.brick_holes@.subrange(0, bl - needed).push(s as u32)
        &&& post.color_texture_size == self.color_texture_size
        &&& post.brickmap_depth == self.brickmap_depth
    }

    /// Refines the non-empty leaf at `index` into eight children mirroring
    /// its host children; the children's bricks are allocated and reported
    /// as uploads, and the leaf's own brick slot is freed. On failure
    /// nothing changes: `InvariantViolation` if the slot is not a live
    /// non-empty leaf with an internal host mirror, `Exhausted` if a free
    /// list is too short.
    #[verifier::rlimit(100)]
    pub fn divide_node(&mut self, index: usize, cpu: &CpuBrickmap) -> (r: Result<
        Vec<BrickUpload>,
        VoxelError,
    >)
        requires
            old(self).wf(),
            old(self).mirror_wf(*cpu),
            cpu.wf(),
            index < old(self).brickmap@.len(),
        ensures
            final(self).wf(),
            final(self).mirror_wf(*cpu),
            final(self).color_texture_size == old(self).color_texture_size,
            final(self).brickmap_depth == old(self).brickmap_depth,
            match r {
                Ok(ups) => {
                    let cc = 8 * (old(self).mirror_of(*cpu, index as int).children as int);
                    let bl = old(self).brick_holes@.len() as int;
                    &&& old(self).divide_ok(*cpu, index as int)
                    &&& old(self).divide_post(*final(self), *cpu, index as int)
                    &&& ups@.len() == count_bricks(cpu.brickmap@, cc, 8)
                    &&& (forall|k: int|
                        0 <= k < 8 && (#[trigger] cpu.brickmap@[cc + k]).brick != 0 ==> ups@[
                        count_bricks(cpu.brickmap@, cc, k + 1) - 1] == (BrickUpload {
                            slot: old(self).brick_holes@[bl - count_bricks(
                                cpu.brickmap@,
                                cc,
                                k + 1,
                            )],
                            cpu_brick: cpu.brickmap@[cc + k].brick,
                        }))
                },
                Err(e) => {
                    &&& *final(self) == *old(self)
                    &&& !old(self).divide_ok(*cpu, index as int)
                    &&& (e == VoxelError::InvariantViolation || e == VoxelError::Exhausted)
                    &&& (e == VoxelError::InvariantViolation <==> !(old(self).live(index as int)
                        && old(self).brickmap@[index as int] > BRICK_OFFSET && old(self).mirror_of(
                        *cpu,
                        index as int,
                    ).children != 0))
                },
            },
    {
        if index >= 8 && self.hole_flags[index / 8] {
            return Err(VoxelError::InvariantViolation);
        }
        let word = self.brickmap[index];
        if word <= BRICK_OFFSET {
            return Err(VoxelError::InvariantViolation);
        }
        let ci = self.gpu_to_cpu[index] as usize;
        let cpu_node = cpu.brickmap[ci];
        if cpu_node.children == 0 {
            return Err(VoxelError::InvariantViolation);
        }
        let cc: usize = 8 * cpu_node.children as usize;

        let mut needed: usize = 0;
        let mut k: usize = 0;
        while k < 8
            invariant
                cpu.wf(),
                k <= 8,
                cc == 8 * cpu_node.children as int,
                cpu_node.children != 0,
                cpu_node == cpu.brickmap@[ci as int],
                ci < cpu.brickmap@.len(),
                needed == count_bricks(cpu.brickmap@, cc as int, k as int),
                needed <= k,
            decreases 8 - k,
        {
            if cpu.brickmap[cc + k].brick != 0 {
                needed = needed + 1;
            }
            k = k + 1;
        }

        if self.brickmap_holes.len() == 0 {
            return Err(VoxelError::Exhausted);
        }
        if self.brick_holes.len() < needed {
            return Err(VoxelError::Exhausted);
        }

        let ghost pre = *self;
        let g: u32 = match self.brickmap_holes.pop() {
            Some(g) => g,
            None => unreached(),
        };
        self.hole_flags.set(g as usize, false);

        let gb: usize = 8 * g as usize;
        let mut ups: Vec<BrickUpload> = Vec::new();
        let mut k2: usize = 0;
        while k2 < 8
            invariant
                cpu.wf(),
                pre.wf(),
                k2 <= 8,
                cc == 8 * cpu_node.children as int,
                cpu_node.children != 0,
                cpu_node == cpu.brickmap@[ci as int],
                ci < cpu.brickmap@.len(),
                8 * (cpu_node.children as int) + 8 <= cpu.brickmap@.len(),
                needed == count_bricks(cpu.brickmap@, cc as int, 8),
                needed <= pre.brick_holes@.len(),
                g == pre.brickmap_holes@.last(),
                1 <= g < pre.node_capacity(),
                gb == 8 * g as int,
                index < pre.brickmap@.len(),
                self.brickmap@.len() == pre.brickmap@.len(),
                self.gpu_to_cpu@.len() == pre.gpu_to_cpu@.len(),
                self.depths@ == pre.depths@,
                self.brickmap_holes@ == pre.brickmap_holes@.subrange(
                    0,
                    pre.brickmap_holes@.len() - 1,
                ),
                self.hole_flags@ == pre.hole_flags@.update(g as int, false),
                self.brick_holes@ == pre.brick_holes@.subrange(
                    0,
                    pre.brick_holes@.len() - count_bricks(cpu.brickmap@, cc as int, k2 as int),
                ),
                self.color_texture_size == pre.color_texture_size,
                self.brickmap_depth == pre.brickmap_depth,
                forall|j: int|
                    0 <= j < pre.brickmap@.len() && !(gb <= j < gb + k2)
                        ==> #[trigger] self.brickmap@[j] == pre.brickmap@[j],
                forall|j: int|
                    0 <= j < pre.gpu_to_cpu@.len() && !(gb <= j < gb + k2)
                        ==> #[trigger] self.gpu_to_cpu@[j] == pre.gpu_to_cpu@[j],
                forall|k3: int|
                    0 <= k3 < k2 ==> #[trigger] self.brickmap@[gb + k3] == (
                    if cpu.brickmap@[cc + k3].brick == 0 {
                        BRICK_OFFSET
                    } else {
                        (BRICK_OFFSET + pre.brick_holes@[pre.brick_holes@.len() - count_bricks(
                            cpu.brickmap@,
                            cc as int,
                            k3 + 1,
                        )]) as u32
                    }),
                forall|k3: int|
                    0 <= k3 < k2 ==> #[trigger] self.gpu_to_cpu@[gb + k3] as int == cc + k3,
                ups@.len() == count_bricks(cpu.brickmap@, cc as int, k2 as int),
                forall|k3: int|
                    0 <= k3 < k2 && (#[trigger] cpu.brickmap@[cc + k3]).brick != 0 ==> ups@[
                    count_bricks(cpu.brickmap@, cc as int, k3 + 1) - 1] == (BrickUpload {
                        slot: pre.brick_holes@[pre.brick_holes@.len() - count_bricks(
                            cpu.brickmap@,
                            cc as int,
                            k3 + 1,
                        )],
                        cpu_brick: cpu.brickmap@[cc + k3].brick,
                    }),
            decreases 8 - k2,
        {
            let cpu_child = cpu.brickmap[cc + k2];
            if cpu_child.brick != 0 {
                proof {
                    lemma_count_bricks_mono(cpu.brickmap@, cc as int, k2 as int + 1, 8);
                    assert(count_bricks(cpu.brickmap@, cc as int, k2 as int + 1) == count_bricks(
                        cpu.brickmap@,
                        cc as int,
                        k2 as int,
                    ) + 1);
                }
                let s = match self.brick_holes.pop() {
                    Some(s) => s,
                    None => unreached(),
                };
                self.brickmap.set(gb + k2, BRICK_OFFSET + s);
                ups.push(BrickUpload { slot: s, cpu_brick: cpu_child.brick });
            } else {
                proof {
                    assert(count_bricks(cpu.brickmap@, cc as int, k2 as int + 1) == count_bricks(
                        cpu.brickmap@,
                        cc as int,
                        k2 as int,
                    ));
                }
                self.brickmap.set(gb + k2, BRICK_OFFSET);
            }
            self.gpu_to_cpu.set(gb + k2, (cc + k2) as u32);
            proof {
                assert(self.brick_holes@ =~= pre.brick_holes@.subrange(
                    0,
                    pre.brick_holes@.len() - count_bricks(
                        cpu.brickmap@,
                        cc as int,
                        k2 as int + 1,
                    ),
                ));
                assert forall|k3: int|
                    0 <= k3 < k2 + 1 && (#[trigger] cpu.brickmap@[cc + k3]).brick != 0 implies ups@[
                    count_bricks(cpu.brickmap@, cc as int, k3 + 1) - 1] == (BrickUpload {
                    slot: pre.brick_holes@[pre.brick_holes@.len() - count_bricks(
                        cpu.brickmap@,
                        cc as int,
                        k3 + 1,
                    )],
                    cpu_brick: cpu.brickmap@[cc + k3].brick,
                }) by {
                    lemma_count_bricks_mono(cpu.brickmap@, cc as int, 0, k3);
                    assert(count_bricks(cpu.brickmap@, cc as int, k3 + 1) == count_bricks(
                        cpu.brickmap@,
                        cc as int,
                        k3,
                    ) + 1);
                    if k3 < k2 {
                        lemma_count_bricks_mono(cpu.brickmap@, cc as int, k3 + 1, k2 as int);
                    }
                };
            }
            k2 = k2 + 1;
        }

        let s_parent: u32 = word - BRICK_OFFSET;
        self.brick_holes.push(s_parent);
        self.brickmap.set(index, g);
        let ghost dpar = pre.depths@[index as int];
        self.depths = Ghost(
            Seq::new(
                pre.depths@.len(),
                |q: int|
                    if gb <= q < gb + 8 {
                        (dpar + 1) as u32
                    } else {
                        pre.depths@[q]
                    },
            ),
        );
        proof {
            lemma_divide_reestablish(pre, *self, *cpu, index as int);
        }
        Ok(ups)
    }

    /// All eight children of group `g` are leaves.
    pub open spec fn children_are_leaves(self, g: int) -> bool {
        forall|k: int| 0 <= k < 8 ==> #[trigger] self.brickmap@[8 * g + k] >= BRICK_OFFSET
    }

    /// `cull_node(index)` succeeds exactly under these conditions: the slot
    /// is live and internal, all its children are already leaves (deeper
    /// levels must be culled first), and an ancestor brick slot can be had,
    /// from the free stack or from a freed child.
    pub open spec fn cull_ok(self, index: int) -> bool {
        let g = self.brickmap@[index] as int;
        &&& self.live(index)
        &&& self.brickmap@[index] < BRICK_OFFSET
        &&& self.children_are_leaves(g)
        &&& (self.brick_holes@.len() > 0 || child_slots(self.brickmap@, 8 * g, 8).len() > 0)
    }

    /// What a successful cull does, exactly: the children's brick slots are
    /// freed in child order, a slot for the ancestor's mip brick is taken
    /// (off the free stack if possible, else the last freed child slot),
    /// the node becomes a leaf holding it, and the child group is freed.
    pub open spec fn cull_post(self, post: GpuVoxelWorld, index: int) -> bool {
        let g = self.brickmap@[index] as int;
        let cs = child_slots(self.brickmap@, 8 * g, 8);
        let a = if self.brick_holes@.len() > 0 {
            self.brick_holes@.last()
        } else {
            cs.last()
        };
        &&& post.brickmap@ == self.brickmap@.update(index, (BRICK_OFFSET + a) as u32)
        &&& post.gpu_to_cpu@ == self.gpu_to_cpu@
        &&& post.depths@ == self.depths@
        &&& post.brickmap_holes@ == self.brickmap_holes@.push(g as u32)
        &&& post.hole_flags@ == self.hole_flags@.update(g, true)
        &&& post.brick_holes@ == (if self.brick_holes@.len() > 0 {
            self.brick_holes@.subrange(0, self.brick_holes@.len() - 1) + cs
        } else {
            cs.subrange(0, cs.len() - 1)
        })
        &&& post.color_texture_size == self.color_texture_size
        &&& post.brickmap_depth == self.brickmap_depth
    }

    /// Collapses the internal node at `index` back into a leaf carrying its
    /// host mirror's mip brick; the children's brick slots and the child
    /// group are freed. All children must already be leaves: culling runs
    /// deepest-first, and a node whose children are still refined is
    /// refused. On failure nothing changes.
    #[verifier::rlimit(100)]
    pub fn cull_node(&mut self, index: usize, cpu: &CpuBrickmap) -> (r: Result<
        Vec<BrickUpload>,
        VoxelError,
    >)
        requires
            old(self).wf(),
            old(self).mirror_wf(*cpu),
            cpu.wf(),
            index < old(self).brickmap@.len(),
        ensures
            final(self).wf(),
            final(self).mirror_wf(*cpu),
            final(self).color_texture_size == old(self).color_texture_size,
            final(self).brickmap_depth == old(self).brickmap_depth,
            match r {
                Ok(ups) => {
                    let g = old(self).brickmap@[index as int] as int;
                    let cs = child_slots(old(self).brickmap@, 8 * g, 8);
                    let a = if old(self).brick_holes@.len() > 0 {
                        old(self).brick_holes@.last()
                    } else {
                        cs.last()
                    };
                    &&& old(self).cull_ok(index as int)
                    &&& old(self).cull_post(*final(self), index as int)
                    &&& ups@.len() == 1
                    &&& ups@[0] == (BrickUpload {
                        slot: a,
                        cpu_brick: old(self).mirror_of(*cpu, index as int).brick,
                    })
                },
                Err(e) => {
                    &&& *final(self) == *old(self)
                    &&& !old(self).cull_ok(index as int)
                    &&& (e == VoxelError::InvariantViolation || e == VoxelError::Exhausted)
                    &&& (e == VoxelError::InvariantViolation <==> !(old(self).live(index as int)
                        && old(self).brickmap@[index as int] < BRICK_OFFSET && old(
                        self,
                    ).children_are_leaves(old(self).brickmap@[index as int] as int)))
                },
            },
    {
        if index >= 8 && self.hole_flags[index / 8] {
            return Err(VoxelError::InvariantViolation);
        }
        let word = self.brickmap[index];
        if word >= BRICK_OFFSET {
            return Err(VoxelError::InvariantViolation);
        }
        let g = word as usize;

        let mut k: usize = 0;
        let mut any: bool = false;
        while k < 8
            invariant
                self.wf(),
                self == old(self),
                old(self).wf(),
                old(self).mirror_wf(*cpu),
                cpu.wf(),
                index < self.brickmap@.len(),
                self.live(index as int),
                word == self.brickmap@[index as int],
                word < BRICK_OFFSET,
                g == word as int,
                1 <= g < self.node_capacity(),
                k <= 8,
                forall|k2: int|
                    0 <= k2 < k ==> #[trigger] self.brickmap@[8 * g + k2] >= BRICK_OFFSET,
                any == (child_slots(self.brickmap@, 8 * g, k as int).len() > 0),
            decreases 8 - k,
        {
            let w = self.brickmap[8 * g + k];
            if w < BRICK_OFFSET {
                return Err(VoxelError::InvariantViolation);
            }
            if w > BRICK_OFFSET {
                any = true;
            }
            proof {
                assert(child_slots(self.brickmap@, 8 * g, k as int + 1).len() == child_slots(
                    self.brickmap@,
                    8 * g,
                    k as int,
                ).len() + (if self.brickmap@[8 * g + k] > BRICK_OFFSET {
                    1int
                } else {
                    0int
                }));
            }
            k = k + 1;
        }
        if !any && self.brick_holes.len() == 0 {
            return Err(VoxelError::Exhausted);
        }

        let ghost pre = *self;
        let cpu_brick = cpu.brickmap[self.gpu_to_cpu[index] as usize].brick;

        let a: u32;
        if self.brick_holes.len() > 0 {
            a = match self.brick_holes.pop() {
                Some(a) => a,
                None => unreached(),
            };
            let mut k2: usize = 0;
            while k2 < 8
                invariant
                    pre.wf(),
                    k2 <= 8,
                    index < pre.brickmap@.len(),
                    1 <= g < pre.node_capacity(),
                    self.brickmap@ == pre.brickmap@,
                    self.gpu_to_cpu@ == pre.gpu_to_cpu@,
                    self.depths@ == pre.depths@,
                    self.brickmap_holes@ == pre.brickmap_holes@,
                    self.hole_flags@ == pre.hole_flags@,
                    self.color_texture_size == pre.color_texture_size,
                    self.brickmap_depth == pre.brickmap_depth,
                    self.brick_holes@ == pre.brick_holes@.subrange(
                        0,
                        pre.brick_holes@.len() - 1,
                    ) + child_slots(pre.brickmap@, 8 * g, k2 as int),
                decreases 8 - k2,
            {
                let w = self.brickmap[8 * g + k2];
                if w > BRICK_OFFSET {
                    self.brick_holes.push(w - BRICK_OFFSET);
                }
                proof {
                    assert(self.brick_holes@ =~= pre.brick_holes@.subrange(
                        0,
                        pre.brick_holes@.len() - 1,
                    ) + child_slots(pre.brickmap@, 8 * g, k2 as int + 1));
                }
                k2 = k2 + 1;
            }
        } else {
            let mut k2: usize = 0;
            while k2 < 8
                invariant
                    pre.wf(),
                    k2 <= 8,
                    index < pre.brickmap@.len(),
                    1 <= g < pre.node_capacity(),
                    self.brickmap@ == pre.brickmap@,
                    self.gpu_to_cpu@ == pre.gpu_to_cpu@,
                    self.depths@ == pre.depths@,
                    self.brickmap_holes@ == pre.brickmap_holes@,
                    self.hole_flags@ == pre.hole_flags@,
                    self.color_texture_size == pre.color_texture_size,
                    self.brickmap_depth == pre.brickmap_depth,
                    pre.brick_holes@.len() == 0,
                    self.brick_holes@ == child_slots(pre.brickmap@, 8 * g, k2 as int),
                decreases 8 - k2,
            {
                let w = self.brickmap[8 * g + k2];
                if w > BRICK_OFFSET {
                    self.brick_holes.push(w - BRICK_OFFSET);
                }
                proof {
                    assert(self.brick_holes@ =~= child_slots(
                        pre.brickmap@,
                        8 * g,
                        k2 as int + 1,
                    ));
                }
                k2 = k2 + 1;
            }
            a = match self.brick_holes.pop() {
                Some(a) => a,
                None => unreached(),
            };
            proof {
                assert(self.brick_holes@ =~= child_slots(pre.brickmap@, 8 * g, 8).subrange(
                    0,
                    child_slots(pre.brickmap@, 8 * g, 8).len() - 1,
                ));
            }
        }
        self.brickmap_holes.push(g as u32);
        self.hole_flags.set(g, true);
        proof {
            if pre.brick_holes@.len() > 0 {
                assert(1 <= pre.brick_holes@[pre.brick_holes@.len() - 1]
                    < pre.brick_capacity());
            } else {
                let cs = child_slots(pre.brickmap@, 8 * (g as int), 8);
                lemma_child_slots_members(pre.brickmap@, 8 * (g as int), 8);
                assert(cs.contains(cs[cs.len() - 1]));
                let k2 = choose|k2: int|
                    #![trigger pre.brickmap@[8 * (g as int) + k2]]
                    0 <= k2 < 8 && pre.brickmap@[8 * (g as int) + k2] > BRICK_OFFSET && cs[cs.len()
                        - 1] == (pre.brickmap@[8 * (g as int) + k2] - BRICK_OFFSET) as u32;
                assert(a as int == pre.brickmap@[8 * (g as int) + k2] - BRICK_OFFSET);
            }
            assert(a <= 0x7fff_ffff);
        }
        self.brickmap.set(index, BRICK_OFFSET + a);
        proof {
            assert(pre.cull_post(*self, index as int));
            lemma_cull_reestablish(pre, *self, *cpu, index as int);
        }
        let mut ups: Vec<BrickUpload> = Vec::new();
        ups.push(BrickUpload { slot: a, cpu_brick });
        Ok(ups)
    }

    /// Walks the resident octree in pre-order and returns every visited
    /// slot with its cube origin (brick units) and depth.
    pub fn recursive_search(&self) -> (out: Vec<VisitEntry>)
        requires
            self.wf(),
        ensures
            out@ == spec_visits(*self),
    {
        let mut out: Vec<VisitEntry> = Vec::new();
        let mut k: usize = 0;
        proof {
            vstd::arithmetic::power2::lemma2_to64();
            vstd::arithmetic::power2::lemma_pow2_strictly_increases(self.brickmap_depth as nat, 31);
            vstd::arithmetic::power2::lemma_pow2_adds((self.brickmap_depth - 1) as nat, 1);
        }
        while k < 8
            invariant
                self.wf(),
                k <= 8,
                out@ + visits_children(*self, 0, k as int, 0, 0, 0, 0) == spec_visits(*self),
            decreases 8 - k,
        {
            proof {
                vstd::arithmetic::power2::lemma2_to64();
                vstd::arithmetic::power2::lemma_pow2_strictly_increases(
                    self.brickmap_depth as nat,
                    31,
                );
                vstd::arithmetic::power2::lemma_pow2_adds((self.brickmap_depth - 1) as nat, 1);
            }
            let half = pow2_u32(self.brickmap_depth - 1);
            let cx = if k >= 4 {
                half
            } else {
                0
            };
            let cy = if k == 2 || k == 3 || k == 6 || k == 7 {
                half
            } else {
                0
            };
            let cz = if k % 2 == 1 {
                half
            } else {
                0
            };
            self.search_inner(k, UVec3::new(cx, cy, cz), 1, &mut out);
            proof {
                assert(out@ + visits_children(*self, 0, k as int + 1, 0, 0, 0, 0) == spec_visits(
                    *self,
                ));
            }
            k = k + 1;
        }
        out
    }

    /// Appends the pre-order visits of the subtree at `node_index` to `out`.
    fn search_inner(&self, node_index: usize, pos: UVec3, depth: u32, out: &mut Vec<VisitEntry>)
        requires
            self.wf(),
            self.live(node_index as int),
            self.depths@[node_index as int] == depth,
            1 <= depth <= self.brickmap_depth,
            pos.x as int + pow2((self.brickmap_depth - depth) as nat) <= pow2(
                self.brickmap_depth as nat,
            ),
            pos.y as int + pow2((self.brickmap_depth - depth) as nat) <= pow2(
                self.brickmap_depth as nat,
            ),
            pos.z as int + pow2((self.brickmap_depth - depth) as nat) <= pow2(
                self.brickmap_depth as nat,
            ),
            pow2(self.brickmap_depth as nat) < 0x8000_0000,
        ensures
            final(out)@ == old(out)@ + visits_from(
                *self,
                node_index as int,
                pos.x as int,
                pos.y as int,
                pos.z as int,
                depth as int,
            ),
        decreases self.brickmap_depth - depth,
    {
        out.push(VisitEntry { index: node_index, pos, depth });
        let word = self.brickmap[node_index];
        if word < BRICK_OFFSET && depth < self.brickmap_depth {
            let g = word as usize;
            proof {
                vstd::arithmetic::power2::lemma_pow2_strictly_increases(
                    (self.brickmap_depth - depth - 1) as nat,
                    (self.brickmap_depth - depth) as nat,
                );
                vstd::arithmetic::power2::lemma_pow2_adds(
                    (self.brickmap_depth - depth - 1) as nat,
                    1,
                );
                vstd::arithmetic::power2::lemma2_to64();
            }
            let half = pow2_u32(self.brickmap_depth - depth - 1);
            let ghost base = out@;
            let mut k: usize = 0;
            while k < 8
                invariant
                    self.wf(),
                    k <= 8,
                    self.live(node_index as int),
                    self.depths@[node_index as int] == depth,
                    1 <= depth < self.brickmap_depth,
                    word == self.brickmap@[node_index as int],
                    word < BRICK_OFFSET,
                    g == word as int,
                    1 <= g < self.node_capacity(),
                    !self.hole_flags@[g as int],
                    forall|k2: int|
                        0 <= k2 < 8 ==> #[trigger] self.depths@[8 * (g as int) + k2] == depth + 1,
                    half == pow2((self.brickmap_depth - depth - 1) as nat),
                    2 * (half as int) == pow2((self.brickmap_depth - depth) as nat),
                    pos.x as int + pow2((self.brickmap_depth - depth) as nat) <= pow2(
                        self.brickmap_depth as nat,
                    ),
                    pos.y as int + pow2((self.brickmap_depth - depth) as nat) <= pow2(
                        self.brickmap_depth as nat,
                    ),
                    pos.z as int + pow2((self.brickmap_depth - depth) as nat) <= pow2(
                        self.brickmap_depth as nat,
                    ),
                    pow2(self.brickmap_depth as nat) < 0x8000_0000,
                    base == old(out)@ + seq![
                        VisitEntry { index: node_index, pos, depth },
                    ],
                    out@ + visits_children(
                        *self,
                        g as int,
                        k as int,
                        pos.x as int,
                        pos.y as int,
                        pos.z as int,
                        depth as int,
                    ) == base + visits_children(
                        *self,
                        g as int,
                        0,
                        pos.x as int,
                        pos.y as int,
                        pos.z as int,
                        depth as int,
                    ),
                decreases 8 - k,
            {
                let cx = if k >= 4 {
                    pos.x + half
                } else {
                    pos.x
                };
                let cy = if k == 2 || k == 3 || k == 6 || k == 7 {
                    pos.y + half
                } else {
                    pos.y
                };
                let cz = if k % 2 == 1 {
                    pos.z + half
                } else {
                    pos.z
                };
                proof {
                    assert(self.live(8 * (g as int) + k as int));
                }
                self.search_inner(8 * g + k, UVec3::new(cx, cy, cz), depth + 1, out);
                k = k + 1;
            }
            proof {
                assert(out@ == base + visits_children(
                    *self,
                    g as int,
                    0,
                    pos.x as int,
                    pos.y as int,
                    pos.z as int,
                    depth as int,
                ));
                assert(out@ =~= old(out)@ + visits_from(
                    *self,
                    node_index as int,
                    pos.x as int,
                    pos.y as int,
                    pos.z as int,
                    depth as int,
                ));
            }
        } else {
            proof {
                assert(out@ =~= old(out)@ + visits_from(
                    *self,
                    node_index as int,
                    pos.x as int,
                    pos.y as int,
                    pos.z as int,
                    depth as int,
                ));
            }
        }
    }

    /// Takes one brick slot off the free stack.
    pub fn allocate_brick(&mut self) -> (r: Result<u32, VoxelError>)
        ensures
            final(self).brickmap@ == old(self).brickmap@,
            final(self).gpu_to_cpu@ == old(self).gpu_to_cpu@,
            final(self).brickmap_holes@ == old(self).brickmap_holes@,
            final(self).hole_flags@ == old(self).hole_flags@,
            final(self).color_texture_size == old(self).color_texture_size,
            final(self).brickmap_depth == old(self).brickmap_depth,
            final(self).depths@ == old(self).depths@,
            match r {
                Ok(s) => {
                    &&& old(self).brick_holes@.len() > 0
                    &&& s == old(self).brick_holes@.last()
                    &&& final(self).brick_holes@ == old(self).brick_holes@.subrange(
                        0,
                        old(self).brick_holes@.len() - 1,
                    )
                },
                Err(e) => {
                    &&& e == VoxelError::Exhausted
                    &&& old(self).brick_holes@.len() == 0
                    &&& final(self).brick_holes@ == old(self).brick_holes@
                },
            },
    {
        match self.brick_holes.pop() {
            Some(s) => Ok(s),
            None => Err(VoxelError::Exhausted),
        }
    }

    /// The position, in voxels, of brick slot `slot` inside the color
    /// texture: slots fill the texture x-fastest, then y, then z.
    pub fn brick_pos(&self, slot: u32) -> (p: UVec3)
        requires
            self.geometry_wf(),
            slot < self.brick_capacity(),
        ensures
            ({
                let dx = self.color_texture_size.x as int / 16;
                let dy = self.color_texture_size.y as int / 16;
                &&& p.x == 16 * (slot as int / (dx * dy))
                &&& p.y == 16 * ((slot as int / dx) % dy)
                &&& p.z == 16 * (slot as int % dx)
            }),
    {
        let dx = self.color_texture_size.x / 16;
        let dy = self.color_texture_size.y / 16;
        let dz = self.color_texture_size.z / 16;
        proof {
            let dxi = dx as int;
            let dyi = dy as int;
            let dzi = dz as int;
            assert(dxi * dyi >= 1 && dxi * dyi <= dxi * dyi * dzi) by (nonlinear_arith)
                requires
                    dxi >= 1,
                    dyi >= 1,
                    dzi >= 1,
            ;
            vstd::arithmetic::div_mod::lemma_fundamental_div_mod(
                self.color_texture_size.x as int,
                16,
            );
            vstd::arithmetic::div_mod::lemma_fundamental_div_mod(
                self.color_texture_size.y as int,
                16,
            );
            vstd::arithmetic::div_mod::lemma_fundamental_div_mod(
                self.color_texture_size.z as int,
                16,
            );
            vstd::arithmetic::div_mod::lemma_multiply_divide_lt(slot as int, dxi * dyi, dzi);
        }
        let px = slot / (dx * dy);
        let py = (slot / dx) % dy;
        let pz = slot % dx;
        UVec3::new(16 * px, 16 * py, 16 * pz)
    }
}

/// Node slots live outside the free groups, eight per allocated group.
pub open spec fn live_node_count(s: GpuVoxelWorld) -> int {
    8 * (s.node_capacity() - count_true(s.hole_flags@, s.node_capacity()))
}

/// Free-list conservation for nodes: the slots of the allocated groups and
/// the slots of the free groups always add up to the whole arena. The live
/// count is taken from the allocation flags; the theorem ties it to the
/// free list's length, which holds because the free list never carries a
/// group twice.
pub proof fn lemma_free_list_conservation(s: GpuVoxelWorld)
    requires
        s.wf(),
    ensures
        live_node_count(s) + 8 * s.brickmap_holes@.len() == 8 * s.node_capacity(),
        s.brick_capacity() - s.brick_holes@.len() >= 1,
{
    lemma_distinct_flags_count(s.hole_flags@, s.brickmap_holes@, s.node_capacity());
    if s.brick_holes@.len() > 0 {
        // Distinct in-range entries of [1, cap) number at most cap - 1.
        let m = Seq::new(s.brick_holes@.len(), |t: int| s.brick_holes@[t] as int);
        lemma_distinct_count_bound(s.brick_holes@, s.brick_capacity());
    }
}

/// A duplicate-free list of values in `[1, n)` has fewer than `n` entries.
proof fn lemma_distinct_count_bound(holes: Seq<u32>, n: int)
    requires
        forall|t: int| 0 <= t < holes.len() ==> 1 <= #[trigger] holes[t] < n,
        distinct_seq(holes),
        1 <= n <= 0x8000_0000,
    ensures
        holes.len() < n,
    decreases holes.len(),
{
    if holes.len() > 0 {
        // Build the indicator over [0, n) and count.
        let flags = Seq::new(n as nat, |g: int| holes.contains(g as u32));
        lemma_distinct_flags_count(flags, holes, n);
        lemma_count_true_bound(flags, n);
        assert(!flags[0]) by {
            if holes.contains(0u32) {
                let t = choose|t: int| 0 <= t < holes.len() && holes[t] == 0u32;
            }
        }
        lemma_count_true_drop_zero(flags, n);
    }
}

/// A count over `n` flags is at most `n`.
proof fn lemma_count_true_bound(flags: Seq<bool>, n: int)
    requires
        0 <= n,
    ensures
        count_true(flags, n) <= n,
    decreases n,
{
    if n > 0 {
        lemma_count_true_bound(flags, n - 1);
    }
}

/// If the first flag is clear, the count over `n` flags is below `n`.
proof fn lemma_count_true_drop_zero(flags: Seq<bool>, n: int)
    requires
        n >= 1,
        !flags[0],
    ensures
        count_true(flags, n) <= n - 1,
    decreases n,
{
    reveal_with_fuel(count_true, 2);
    if n > 1 {
        lemma_count_true_drop_zero(flags, n - 1);
    }
}

/// No dangling references: a live internal slot never points into the free
/// groups, and a live non-empty leaf never holds a freed brick slot.
pub proof fn lemma_no_dangling(s: GpuVoxelWorld)
    requires
        s.wf(),
    ensures
        forall|i: int|
            s.live(i) && #[trigger] s.brickmap@[i] < BRICK_OFFSET ==> !s.brickmap_holes@.contains(
                s.brickmap@[i],
            ),
        forall|i: int|
            s.live(i) && #[trigger] s.brickmap@[i] > BRICK_OFFSET ==> !s.brick_holes@.contains(
                (s.brickmap@[i] - BRICK_OFFSET) as u32,
            ),
{
    assert forall|i: int|
        s.live(i) && #[trigger] s.brickmap@[i] < BRICK_OFFSET implies !s.brickmap_holes@.contains(
        s.brickmap@[i],
    ) by {
        let g = s.brickmap@[i] as int;
        assert(!s.hole_flags@[g]);
    };
}

/// Every brick slot is either on the free list or referenced by exactly
/// one live leaf, never both and never neither: nothing leaks and nothing
/// dangles.
pub proof fn lemma_brick_slot_partition(s: GpuVoxelWorld)
    requires
        s.wf(),
    ensures
        forall|slot: int|
            1 <= slot < s.brick_capacity() ==> (#[trigger] s.brick_holes@.contains(slot as u32)
                <==> !(exists|i: int|
                #![trigger s.brickmap@[i]]
                s.live(i) && s.brickmap@[i] as int == BRICK_OFFSET + slot)),
        forall|i1: int, i2: int|
            #![trigger s.brickmap@[i1], s.brickmap@[i2]]
            s.live(i1) && s.live(i2) && s.brickmap@[i1] > BRICK_OFFSET && s.brickmap@[i1]
                == s.brickmap@[i2] ==> i1 == i2,
{
    assert forall|slot: int|
        1 <= slot < s.brick_capacity() && #[trigger] s.brick_holes@.contains(slot as u32) implies !(
    exists|i: int|
        #![trigger s.brickmap@[i]]
        s.live(i) && s.brickmap@[i] as int == BRICK_OFFSET + slot) by {
        if exists|i: int|
            #![trigger s.brickmap@[i]]
            s.live(i) && s.brickmap@[i] as int == BRICK_OFFSET + slot {
            let i = choose|i: int|
                #![trigger s.brickmap@[i]]
                s.live(i) && s.brickmap@[i] as int == BRICK_OFFSET + slot;
            assert(!s.brick_holes@.contains((s.brickmap@[i] - BRICK_OFFSET) as u32));
        }
    };
}

/// Dividing a node and then culling it restores the octree exactly: the
/// node, the mirror map and the depths are as before on every slot that
/// was resident, the group free list is untouched, and the brick free
/// list holds the same slots (reordered).
pub proof fn lemma_divide_cull_inverse(
    pre: GpuVoxelWorld,
    mid: GpuVoxelWorld,
    post: GpuVoxelWorld,
    cpu: CpuBrickmap,
    index: int,
)
    requires
        pre.wf(),
        pre.mirror_wf(cpu),
        cpu.wf(),
        0 <= index < pre.brickmap@.len(),
        pre.divide_ok(cpu, index),
        pre.divide_post(mid, cpu, index),
        mid.cull_post(post, index),
    ensures
        mid.cull_ok(index),
        post.brickmap_holes@ == pre.brickmap_holes@,
        post.hole_flags@ == pre.hole_flags@,
        post.brick_holes@.to_multiset() == pre.brick_holes@.to_multiset(),
        forall|j: int|
            #![trigger post.brickmap@[j]]
            pre.live(j) ==> post.brickmap@[j] == pre.brickmap@[j] && post.gpu_to_cpu@[j]
                == pre.gpu_to_cpu@[j] && post.depths@[j] == pre.depths@[j],
{
    lemma_divide_reestablish(pre, mid, cpu, index);
    let g = pre.brickmap_holes@.last() as int;
    let ci = pre.gpu_to_cpu@[index] as int;
    let cc = 8 * (cpu.brickmap@[ci].children as int);
    let s = pre.brickmap@[index] - BRICK_OFFSET;
    let bl = pre.brick_holes@.len() as int;
    let needed = count_bricks(cpu.brickmap@, cc, 8);
    let take = pre.brick_holes@.subrange(0, bl - needed);
    lemma_count_bricks_mono(cpu.brickmap@, cc, 0, 8);

    // `index` is not inside the fresh group, so it survives as a live slot
    // pointing at `g`.
    assert(pre.hole_flags@[g]);
    assert(!(8 * g <= index < 8 * g + 8));
    assert(mid.live(index)) by {
        if index >= 8 {
            assert(mid.hole_flags@[index / 8] == pre.hole_flags@[index / 8]);
        }
    }
    assert(mid.brickmap@[index] as int == g);

    // The fresh children are leaves, so the cull applies.
    assert forall|k: int| 0 <= k < 8 implies #[trigger] mid.brickmap@[8 * g + k]
        >= BRICK_OFFSET by {
        if cpu.brickmap@[cc + k].brick != 0 {
            lemma_count_bricks_mono(cpu.brickmap@, cc, 0, k);
            lemma_count_bricks_mono(cpu.brickmap@, cc, k + 1, 8);
            assert(count_bricks(cpu.brickmap@, cc, k + 1) == count_bricks(cpu.brickmap@, cc, k)
                + 1);
            assert(1 <= pre.brick_holes@[bl - count_bricks(cpu.brickmap@, cc, k + 1)]
                < pre.brick_capacity());
        }
    };
    assert(mid.brick_holes@.len() == bl - needed + 1);
    assert(mid.cull_ok(index));

    // The cull's ancestor slot is exactly the slot the divide freed.
    let cs = child_slots(mid.brickmap@, 8 * g, 8);
    assert(mid.brick_holes@.last() == s as u32);
    assert(post.brickmap@ == mid.brickmap@.update(index, (BRICK_OFFSET + s as u32) as u32));
    assert((BRICK_OFFSET + s as u32) as u32 == pre.brickmap@[index]);

    // The group free list and flags return to their old shape.
    assert(post.brickmap_holes@ =~= pre.brickmap_holes@);
    assert(post.hole_flags@ =~= pre.hole_flags@);

    // The freed child slots are the reversal of what the divide drew.
    lemma_child_slots_are_drawn(pre, mid, cpu, index, 8);
    assert(cs =~= Seq::new(needed as nat, |t: int| pre.brick_holes@[bl - 1 - t]));
    let tail = pre.brick_holes@.subrange(bl - needed, bl);
    assert(cs =~= tail.reverse());
    broadcast use vstd::seq_lib::group_to_multiset_ensures;

    tail.lemma_reverse_to_multiset();
    assert(post.brick_holes@ == mid.brick_holes@.subrange(0, mid.brick_holes@.len() - 1) + cs);
    assert(mid.brick_holes@.subrange(0, mid.brick_holes@.len() - 1) =~= take);
    lemma_to_multiset_concat(take, cs);
    lemma_to_multiset_concat(take, tail);
    assert(take + tail =~= pre.brick_holes@);
    assert(cs.to_multiset() == tail.to_multiset());
    assert(post.brick_holes@.to_multiset() == take.to_multiset().add(cs.to_multiset()));
    assert(pre.brick_holes@.to_multiset() == take.to_multiset().add(tail.to_multiset()));

    // Every slot that was resident before is exactly as it was.
    assert forall|j: int| pre.live(j) implies #[trigger] post.brickmap@[j] == pre.brickmap@[j]
        && post.gpu_to_cpu@[j] == pre.gpu_to_cpu@[j] && post.depths@[j] == pre.depths@[j] by {
        assert(!(8 * g <= j < 8 * g + 8));
        if j != index {
            assert(mid.brickmap@[j] == pre.brickmap@[j]);
            assert(post.brickmap@[j] == mid.brickmap@[j]);
        }
    };
}

/// Culling order is safe: a cull only ever succeeds on a node whose
/// children are all leaves, so the freed group never holds a reference to
/// a still-resident deeper group. Processing culls in reverse traversal
/// order (descendants before ancestors, as the streaming pass does) makes
/// every ancestor's children leaves by the time it is culled; a node
/// reached out of order is refused, not corrupted.
pub proof fn lemma_cull_frees_no_referenced_group(s: GpuVoxelWorld, index: int)
    requires
        s.wf(),
        0 <= index < s.brickmap@.len(),
        s.cull_ok(index),
    ensures
        forall|k: int|
            0 <= k < 8 ==> #[trigger] s.brickmap@[8 * (s.brickmap@[index] as int) + k]
                >= BRICK_OFFSET,
{
}

/// In the divided state, the freed child slots read back, in child order,
/// as the top of the old brick free stack from the top down.
proof fn lemma_child_slots_are_drawn(
    pre: GpuVoxelWorld,
    mid: GpuVoxelWorld,
    cpu: CpuBrickmap,
    index: int,
    k: int,
)
    requires
        pre.wf(),
        pre.mirror_wf(cpu),
        cpu.wf(),
        0 <= index < pre.brickmap@.len(),
        pre.divide_ok(cpu, index),
        pre.divide_post(mid, cpu, index),
        0 <= k <= 8,
    ensures
        ({
            let g = pre.brickmap_holes@.last() as int;
            let ci = pre.gpu_to_cpu@[index] as int;
            let cc = 8 * (cpu.brickmap@[ci].children as int);
            let bl = pre.brick_holes@.len() as int;
            let n = count_bricks(cpu.brickmap@, cc, k);
            child_slots(mid.brickmap@, 8 * g, k) =~= Seq::new(
                n as nat,
                |t: int| pre.brick_holes@[bl - 1 - t],
            )
        }),
    decreases k,
{
    let g = pre.brickmap_holes@.last() as int;
    let ci = pre.gpu_to_cpu@[index] as int;
    let cc = 8 * (cpu.brickmap@[ci].children as int);
    let bl = pre.brick_holes@.len() as int;
    if k > 0 {
        lemma_child_slots_are_drawn(pre, mid, cpu, index, k - 1);
        lemma_count_bricks_mono(cpu.brickmap@, cc, 0, k - 1);
        lemma_count_bricks_mono(cpu.brickmap@, cc, k, 8);
        if cpu.brickmap@[cc + (k - 1)].brick != 0 {
            assert(count_bricks(cpu.brickmap@, cc, k) == count_bricks(cpu.brickmap@, cc, k - 1)
                + 1);
            assert(1 <= pre.brick_holes@[bl - count_bricks(cpu.brickmap@, cc, k)]
                < pre.brick_capacity());
            assert(mid.brickmap@[8 * g + (k - 1)] as int == BRICK_OFFSET + pre.brick_holes@[bl
                - count_bricks(cpu.brickmap@, cc, k)]);
        } else {
            assert(mid.brickmap@[8 * g + (k - 1)] == BRICK_OFFSET);
        }
    }
}

} // verus!
