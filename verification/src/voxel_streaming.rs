//! The per-frame streaming pass: walks the resident octree, classifies
//! every node against the camera by an exact integer screen-ratio test,
//! then refines (divides) the near leaves and coarsens (culls) the far
//! internal nodes, deepest first.

use vstd::arithmetic::power2::pow2;
use vstd::prelude::*;

use crate::cpu_brickmap::CpuBrickmap;
use crate::gpu_brickmap::{spec_visits, BrickUpload, GpuVoxelWorld, VisitEntry};
use crate::math::{pow2_u32, IVec3};
use crate::BRICK_OFFSET;

verus! {

/// Runtime-tunable streaming thresholds, in thousandths of the screen
/// ratio `100 * node_size / distance`: leaves with a larger ratio than
/// `divide_ratio` are refined, internal nodes with a smaller ratio than
/// `cull_ratio` are coarsened. Keeping `cull_ratio` below `divide_ratio`
/// opens a hysteresis band.
#[derive(Clone, Copy, PartialEq, Eq, Structural, Debug)]
pub struct StreamingSettings {
    pub pause_streaming: bool,
    pub divide_ratio: u32,
    pub cull_ratio: u32,
}

impl Default for StreamingSettings {
    fn default() -> (s: StreamingSettings)
        ensures
            s == (StreamingSettings {
                pause_streaming: false,
                divide_ratio: 1000u32,
                cull_ratio: 1000u32,
            }),
    {
        StreamingSettings { pause_streaming: false, divide_ratio: 1000, cull_ratio: 1000 }
    }
}

/// The camera must sit within a billion voxels of the origin; the squared
/// distances then fit comfortably in 128 bits.
pub open spec fn camera_in_range(cam: IVec3) -> bool {
    &&& -0x4000_0000 <= cam.x <= 0x4000_0000
    &&& -0x4000_0000 <= cam.y <= 0x4000_0000
    &&& -0x4000_0000 <= cam.z <= 0x4000_0000
}

pub open spec fn settings_in_range(settings: StreamingSettings) -> bool {
    &&& settings.divide_ratio <= 1_000_000
    &&& settings.cull_ratio <= settings.divide_ratio
}

/// Twice the distance, squared, between the node's center and the
/// streaming position, in voxel units: positions are scaled by 32 (brick
/// units to double-voxels), the camera by 2, and the world center shift
/// `2^(depth-1)` bricks is added to the camera.
pub open spec fn scaled_dist_sq(v: VisitEntry, total_depth: int, cam: IVec3) -> int {
    let ns = pow2((total_depth - v.depth) as nat) as int;
    let shift = pow2((total_depth + 4) as nat) as int;
    let dx = 32 * (v.pos.x as int) + 16 * ns - 2 * (cam.x as int) - shift;
    let dy = 32 * (v.pos.y as int) + 16 * ns - 2 * (cam.y as int) - shift;
    let dz = 32 * (v.pos.z as int) + 16 * ns - 2 * (cam.z as int) - shift;
    dx * dx + dy * dy + dz * dz
}

/// `100 * node_size / distance > ratio / 1000`, in exact integers: both
/// sides are scaled by `2 * 1000` and squared.
pub open spec fn ratio_exceeds(v: VisitEntry, total_depth: int, cam: IVec3, ratio: u32) -> bool {
    let ns = pow2((total_depth - v.depth) as nat) as int;
    40_000_000_000 * ns * ns > (ratio as int) * (ratio as int) * scaled_dist_sq(
        v,
        total_depth,
        cam,
    )
}

/// `100 * node_size / distance < ratio / 1000`, in exact integers.
pub open spec fn ratio_below(v: VisitEntry, total_depth: int, cam: IVec3, ratio: u32) -> bool {
    let ns = pow2((total_depth - v.depth) as nat) as int;
    40_000_000_000 * ns * ns < (ratio as int) * (ratio as int) * scaled_dist_sq(
        v,
        total_depth,
        cam,
    )
}

/// A leaf close enough to refine, whose host mirror has children to offer.
pub open spec fn wants_divide(
    s: GpuVoxelWorld,
    cpu: CpuBrickmap,
    v: VisitEntry,
    cam: IVec3,
    settings: StreamingSettings,
) -> bool {
    &&& s.brickmap@[v.index as int] >= BRICK_OFFSET
    &&& cpu.brickmap@[s.gpu_to_cpu@[v.index as int] as int].children != 0
    &&& ratio_exceeds(v, s.brickmap_depth as int, cam, settings.divide_ratio)
}

/// An internal node far enough away to coarsen.
pub open spec fn wants_cull(
    s: GpuVoxelWorld,
    v: VisitEntry,
    cam: IVec3,
    settings: StreamingSettings,
) -> bool {
    &&& s.brickmap@[v.index as int] < BRICK_OFFSET
    &&& ratio_below(v, s.brickmap_depth as int, cam, settings.cull_ratio)
}

/// The first `k` visits that are due for division, in traversal order.
pub open spec fn divide_plan(
    s: GpuVoxelWorld,
    cpu: CpuBrickmap,
    cam: IVec3,
    settings: StreamingSettings,
    visits: Seq<VisitEntry>,
    k: int,
) -> Seq<VisitEntry>
    decreases k,
{
    if k <= 0 {
        Seq::empty()
    } else {
        divide_plan(s, cpu, cam, settings, visits, k - 1) + if wants_divide(
            s,
            cpu,
            visits[k - 1],
            cam,
            settings,
        ) {
            seq![visits[k - 1]]
        } else {
            Seq::empty()
        }
    }
}

/// The first `k` visits that are due for culling, in traversal order.
pub open spec fn cull_plan(
    s: GpuVoxelWorld,
    cam: IVec3,
    settings: StreamingSettings,
    visits: Seq<VisitEntry>,
    k: int,
) -> Seq<VisitEntry>
    decreases k,
{
    if k <= 0 {
        Seq::empty()
    } else {
        cull_plan(s, cam, settings, visits, k - 1) + if wants_cull(
            s,
            visits[k - 1],
            cam,
            settings,
        ) {
            seq![visits[k - 1]]
        } else {
            Seq::empty()
        }
    }
}

/// No node needs dividing and none needs culling: the residency is at a
/// fixed point for this camera.
pub open spec fn no_ops(
    s: GpuVoxelWorld,
    cpu: CpuBrickmap,
    cam: IVec3,
    settings: StreamingSettings,
) -> bool {
    &&& divide_plan(s, cpu, cam, settings, spec_visits(s), spec_visits(s).len() as int).len() == 0
    &&& cull_plan(s, cam, settings, spec_visits(s), spec_visits(s).len() as int).len() == 0
}

/// What one streaming pass did: how many nodes were divided and culled,
/// how many candidates had to be skipped (free lists ran dry, or a child
/// was still refined), and which host bricks the caller must now upload.
#[derive(Clone, Debug)]
pub struct FrameReport {
    pub divided: usize,
    pub divide_skipped: usize,
    pub culled: usize,
    pub cull_skipped: usize,
    pub uploads: Vec<BrickUpload>,
}

/// Decides both threshold tests for one visit, in exact integer
/// arithmetic (the comparison of squared scaled quantities).
fn ratio_tests(v: &VisitEntry, total_depth: u32, cam: IVec3, ratio: u32) -> (r: (bool, bool))
    requires
        camera_in_range(cam),
        ratio <= 1_000_000,
        1 <= total_depth <= 20,
        1 <= v.depth <= total_depth,
        v.pos.x < 0x20_0000,
        v.pos.y < 0x20_0000,
        v.pos.z < 0x20_0000,
    ensures
        r.0 == ratio_exceeds(*v, total_depth as int, cam, ratio),
        r.1 == ratio_below(*v, total_depth as int, cam, ratio),
{
    let ns: u32 = pow2_u32(total_depth - v.depth);
    let shift: u32 = pow2_u32(total_depth + 4);
    proof {
        vstd::arithmetic::power2::lemma2_to64();
        vstd::arithmetic::power2::lemma_pow2_strictly_increases(
            (total_depth - v.depth) as nat,
            20,
        );
        vstd::arithmetic::power2::lemma_pow2_strictly_increases((total_depth + 4) as nat, 25);
    }
    let dx: i64 = 32 * v.pos.x as i64 + 16 * ns as i64 - 2 * cam.x - shift as i64;
    let dy: i64 = 32 * v.pos.y as i64 + 16 * ns as i64 - 2 * cam.y - shift as i64;
    let dz: i64 = 32 * v.pos.z as i64 + 16 * ns as i64 - 2 * cam.z - shift as i64;
    proof {
        assert(-0x1_0000_0000i64 <= dx <= 0x1_0000_0000i64);
        assert(-0x1_0000_0000i64 <= dy <= 0x1_0000_0000i64);
        assert(-0x1_0000_0000i64 <= dz <= 0x1_0000_0000i64);
        lemma_square_bound(dx as int, 0x1_0000_0000);
        lemma_square_bound(dy as int, 0x1_0000_0000);
        lemma_square_bound(dz as int, 0x1_0000_0000);
    }
    let d2: i128 = (dx as i128) * (dx as i128) + (dy as i128) * (dy as i128) + (dz as i128) * (
    dz as i128);
    proof {
        lemma_square_bound(ns as int, 0x10_0000);
        assert((40_000_000_000i128) * ((ns as i128) * (ns as i128)) <= 0x1_0000_0000_0000_0000_0000_0000i128)
            by (nonlinear_arith)
            requires
                0 <= (ns as i128) * (ns as i128) <= 0x100_0000_0000i128,
        ;
        assert((ratio as i128) * (ratio as i128) <= 0x10_0000_0000_0000i128) by (nonlinear_arith)
            requires
                0 <= ratio <= 1_000_000,
        ;
        assert((ratio as i128) * (ratio as i128) * d2 <= 0x4000_0000_0000_0000_0000_0000_0000_0000i128
            && (ratio as i128) * (ratio as i128) * d2 >= 0) by (nonlinear_arith)
            requires
                0 <= (ratio as i128) * (ratio as i128) <= 0x10_0000_0000_0000i128,
                0 <= d2 <= 0x3_0000_0000_0000_0000i128,
        ;
    }
    let lhs: i128 = 40_000_000_000i128 * ((ns as i128) * (ns as i128));
    let rhs: i128 = (ratio as i128) * (ratio as i128) * d2;
    proof {
        vstd::arithmetic::mul::lemma_mul_is_associative(
            40_000_000_000,
            ns as int,
            ns as int,
        );
    }
    (lhs > rhs, lhs < rhs)
}

/// The two structures hold the same resident octree, free lists and
/// geometry.
pub open spec fn same_residency(a: GpuVoxelWorld, b: GpuVoxelWorld) -> bool {
    &&& a.brickmap@ == b.brickmap@
    &&& a.gpu_to_cpu@ == b.gpu_to_cpu@
    &&& a.brickmap_holes@ == b.brickmap_holes@
    &&& a.brick_holes@ == b.brick_holes@
    &&& a.hole_flags@ == b.hole_flags@
    &&& a.depths@ == b.depths@
    &&& a.color_texture_size == b.color_texture_size
    &&& a.brickmap_depth == b.brickmap_depth
}

/// Plan entries are drawn from the visit list.
proof fn lemma_divide_plan_entries(
    s: GpuVoxelWorld,
    cpu: CpuBrickmap,
    cam: IVec3,
    settings: StreamingSettings,
    visits: Seq<VisitEntry>,
    k: int,
    bound: int,
)
    requires
        k <= visits.len(),
        forall|t: int| 0 <= t < visits.len() ==> (#[trigger] visits[t]).index < bound,
    ensures
        forall|q: int|
            0 <= q < divide_plan(s, cpu, cam, settings, visits, k).len() ==> (#[trigger] divide_plan(
                s,
                cpu,
                cam,
                settings,
                visits,
                k,
            )[q]).index < bound,
    decreases k,
{
    if k > 0 {
        lemma_divide_plan_entries(s, cpu, cam, settings, visits, k - 1, bound);
        let p = divide_plan(s, cpu, cam, settings, visits, k);
        let prev = divide_plan(s, cpu, cam, settings, visits, k - 1);
        assert forall|q: int| 0 <= q < p.len() implies (#[trigger] p[q]).index < bound by {
            if q < prev.len() {
                assert(p[q] == prev[q]);
            } else {
                assert(p[q] == visits[k - 1]);
            }
        };
    }
}

/// Plan entries are drawn from the visit list.
proof fn lemma_cull_plan_entries(
    s: GpuVoxelWorld,
    cam: IVec3,
    settings: StreamingSettings,
    visits: Seq<VisitEntry>,
    k: int,
    bound: int,
)
    requires
        k <= visits.len(),
        forall|t: int| 0 <= t < visits.len() ==> (#[trigger] visits[t]).index < bound,
    ensures
        forall|q: int|
            0 <= q < cull_plan(s, cam, settings, visits, k).len() ==> (#[trigger] cull_plan(
                s,
                cam,
                settings,
                visits,
                k,
            )[q]).index < bound,
    decreases k,
{
    if k > 0 {
        lemma_cull_plan_entries(s, cam, settings, visits, k - 1, bound);
        let p = cull_plan(s, cam, settings, visits, k);
        let prev = cull_plan(s, cam, settings, visits, k - 1);
        assert forall|q: int| 0 <= q < p.len() implies (#[trigger] p[q]).index < bound by {
            if q < prev.len() {
                assert(p[q] == prev[q]);
            } else {
                assert(p[q] == visits[k - 1]);
            }
        };
    }
}

/// Divide candidates are live non-empty leaves whose host mirror is
/// internal: exactly what a divide needs, short of free-list room.
proof fn lemma_divide_plan_candidates_ok(
    s: GpuVoxelWorld,
    cpu: CpuBrickmap,
    cam: IVec3,
    settings: StreamingSettings,
    visits: Seq<VisitEntry>,
    k: int,
)
    requires
        s.wf(),
        s.mirror_wf(cpu),
        cpu.wf(),
        visits == spec_visits(s),
        k <= visits.len(),
    ensures
        forall|q: int|
            0 <= q < divide_plan(s, cpu, cam, settings, visits, k).len() ==> {
                let v = #[trigger] divide_plan(s, cpu, cam, settings, visits, k)[q];
                &&& s.live(v.index as int)
                &&& s.brickmap@[v.index as int] > BRICK_OFFSET
                &&& s.mirror_of(cpu, v.index as int).children != 0
            },
    decreases k,
{
    crate::gpu_brickmap::lemma_spec_visits_sound(s);
    if k > 0 {
        lemma_divide_plan_candidates_ok(s, cpu, cam, settings, visits, k - 1);
        let p = divide_plan(s, cpu, cam, settings, visits, k);
        let prev = divide_plan(s, cpu, cam, settings, visits, k - 1);
        assert forall|q: int| 0 <= q < p.len() implies {
            let v = #[trigger] p[q];
            &&& s.live(v.index as int)
            &&& s.brickmap@[v.index as int] > BRICK_OFFSET
            &&& s.mirror_of(cpu, v.index as int).children != 0
        } by {
            if q < prev.len() {
                assert(p[q] == prev[q]);
            } else {
                let v = visits[k - 1];
                assert(p[q] == v);
                assert(visits[k - 1] == spec_visits(s)[k - 1]);
                // An empty leaf mirrors a childless host node, so a
                // candidate's word is strictly above the empty mark.
                assert(s.brickmap@[v.index as int] >= BRICK_OFFSET);
                if s.brickmap@[v.index as int] == BRICK_OFFSET {
                    assert(cpu.brickmap@[s.gpu_to_cpu@[v.index as int] as int].children == 0);
                }
            }
        };
    }
}

impl GpuVoxelWorld {
    /// Classifies every visited node against the camera and returns, in
    /// traversal order, the leaves to divide and the internal nodes to
    /// cull.
    #[verifier::rlimit(100)]
    pub fn collect_plans(
        &self,
        cpu: &CpuBrickmap,
        camera: IVec3,
        settings: &StreamingSettings,
        visits: &Vec<VisitEntry>,
    ) -> (r: (Vec<VisitEntry>, Vec<VisitEntry>))
        requires
            self.wf(),
            self.mirror_wf(*cpu),
            cpu.wf(),
            camera_in_range(camera),
            settings_in_range(*settings),
            visits@ == spec_visits(*self),
        ensures
            r.0@ == divide_plan(*self, *cpu, camera, *settings, visits@, visits@.len() as int),
            r.1@ == cull_plan(*self, camera, *settings, visits@, visits@.len() as int),
    {
        proof {
            crate::gpu_brickmap::lemma_spec_visits_sound(*self);
            vstd::arithmetic::power2::lemma2_to64();
            vstd::arithmetic::power2::lemma_pow2_strictly_increases(
                self.brickmap_depth as nat,
                21,
            );
        }
        let mut to_divide: Vec<VisitEntry> = Vec::new();
        let mut to_cull: Vec<VisitEntry> = Vec::new();
        let mut t: usize = 0;
        while t < visits.len()
            invariant
                self.wf(),
                self.mirror_wf(*cpu),
                cpu.wf(),
                camera_in_range(camera),
                settings_in_range(*settings),
                visits@ == spec_visits(*self),
                t <= visits@.len(),
                to_divide@ == divide_plan(*self, *cpu, camera, *settings, visits@, t as int),
                to_cull@ == cull_plan(*self, camera, *settings, visits@, t as int),
                pow2(self.brickmap_depth as nat) < 0x20_0000,
                forall|q: int|
                    #![trigger spec_visits(*self)[q]]
                    0 <= q < spec_visits(*self).len() ==> {
                        let v = spec_visits(*self)[q];
                        &&& self.live(v.index as int)
                        &&& v.index < self.brickmap@.len()
                        &&& 1 <= v.depth <= self.brickmap_depth
                        &&& v.pos.x as int + pow2((self.brickmap_depth - v.depth) as nat) <= pow2(
                            self.brickmap_depth as nat,
                        )
                        &&& v.pos.y as int + pow2((self.brickmap_depth - v.depth) as nat) <= pow2(
                            self.brickmap_depth as nat,
                        )
                        &&& v.pos.z as int + pow2((self.brickmap_depth - v.depth) as nat) <= pow2(
                            self.brickmap_depth as nat,
                        )
                    },
            decreases visits@.len() - t,
        {
            let v = visits[t];
            proof {
                assert(visits@[t as int] == spec_visits(*self)[t as int]);
                vstd::arithmetic::power2::lemma_pow2_pos(
                    (self.brickmap_depth - v.depth) as nat,
                );
            }
            let word = self.brickmap[v.index];
            if word >= BRICK_OFFSET {
                let ci = self.gpu_to_cpu[v.index];
                let has_children = cpu.brickmap[ci as usize].children != 0;
                let tests = ratio_tests(&v, self.brickmap_depth, camera, settings.divide_ratio);
                if has_children && tests.0 {
                    to_divide.push(v);
                }
                proof {
                    assert(to_divide@ =~= divide_plan(
                        *self,
                        *cpu,
                        camera,
                        *settings,
                        visits@,
                        t as int + 1,
                    ));
                    assert(to_cull@ =~= cull_plan(*self, camera, *settings, visits@, t as int + 1));
                }
            } else {
                let tests = ratio_tests(&v, self.brickmap_depth, camera, settings.cull_ratio);
                if tests.1 {
                    to_cull.push(v);
                }
                proof {
                    assert(to_divide@ =~= divide_plan(
                        *self,
                        *cpu,
                        camera,
                        *settings,
                        visits@,
                        t as int + 1,
                    ));
                    assert(to_cull@ =~= cull_plan(*self, camera, *settings, visits@, t as int + 1));
                }
            }
            t = t + 1;
        }
        (to_divide, to_cull)
    }

    /// Runs one streaming pass: traverses the resident octree, divides the
    /// leaves the camera is close to (in traversal order, parents first)
    /// and culls the internal nodes it is far from (in reverse traversal
    /// order, deepest first). Candidates that cannot be applied — a free
    /// list ran dry, or a child was still refined — are skipped and
    /// counted; the structure stays well formed either way.
    #[verifier::rlimit(100)]
    pub fn advance(
        &mut self,
        cpu: &CpuBrickmap,
        camera: IVec3,
        settings: &StreamingSettings,
    ) -> (r: FrameReport)
        requires
            old(self).wf(),
            old(self).mirror_wf(*cpu),
            cpu.wf(),
            camera_in_range(camera),
            settings_in_range(*settings),
        ensures
            final(self).wf(),
            final(self).mirror_wf(*cpu),
            final(self).brickmap_depth == old(self).brickmap_depth,
            final(self).color_texture_size == old(self).color_texture_size,
            final(self).brickmap@.len() == old(self).brickmap@.len(),
            settings.pause_streaming ==> same_residency(*final(self), *old(self)) && r.divided
                == 0 && r.divide_skipped == 0 && r.culled == 0 && r.cull_skipped == 0,
            !settings.pause_streaming ==> {
                let visits = spec_visits(*old(self));
                let dp = divide_plan(
                    *old(self),
                    *cpu,
                    camera,
                    *settings,
                    visits,
                    visits.len() as int,
                );
                let cp = cull_plan(*old(self), camera, *settings, visits, visits.len() as int);
                &&& r.divided + r.divide_skipped == dp.len()
                &&& r.culled + r.cull_skipped == cp.len()
            },
            no_ops(*old(self), *cpu, camera, *settings) ==> same_residency(
                *final(self),
                *old(self),
            ) && r.divided == 0 && r.culled == 0 && r.divide_skipped == 0 && r.cull_skipped == 0,
            !settings.pause_streaming && divide_plan(
                *old(self),
                *cpu,
                camera,
                *settings,
                spec_visits(*old(self)),
                spec_visits(*old(self)).len() as int,
            ).len() > 0 && old(self).brickmap_holes@.len() > 0 && old(self).brick_holes@.len()
                >= 8 ==> r.divided >= 1,
    {
        if settings.pause_streaming {
            return FrameReport {
                divided: 0,
                divide_skipped: 0,
                culled: 0,
                cull_skipped: 0,
                uploads: Vec::new(),
            };
        }
        let ghost s0 = *self;
        let visits = self.recursive_search();
        let plans = self.collect_plans(cpu, camera, settings, &visits);
        let to_divide = plans.0;
        let to_cull = plans.1;
        proof {
            crate::gpu_brickmap::lemma_spec_visits_sound(s0);
            lemma_divide_plan_entries(
                s0,
                *cpu,
                camera,
                *settings,
                visits@,
                visits@.len() as int,
                s0.brickmap@.len() as int,
            );
            lemma_cull_plan_entries(
                s0,
                camera,
                *settings,
                visits@,
                visits@.len() as int,
                s0.brickmap@.len() as int,
            );
        }

        let ghost dp = divide_plan(s0, *cpu, camera, *settings, visits@, visits@.len() as int);
        proof {
            lemma_divide_plan_candidates_ok(
                s0,
                *cpu,
                camera,
                *settings,
                visits@,
                visits@.len() as int,
            );
            crate::gpu_brickmap::lemma_count_bricks_mono(cpu.brickmap@, 0, 0, 8);
        }
        let mut divided: usize = 0;
        let mut divide_skipped: usize = 0;
        let mut uploads: Vec<BrickUpload> = Vec::new();
        let mut t: usize = 0;
        while t < to_divide.len()
            invariant
                self.wf(),
                self.mirror_wf(*cpu),
                cpu.wf(),
                camera_in_range(camera),
                settings_in_range(*settings),
                to_divide@ == dp,
                dp == divide_plan(s0, *cpu, camera, *settings, visits@, visits@.len() as int),
                forall|q: int|
                    0 <= q < dp.len() ==> {
                        let v = #[trigger] dp[q];
                        &&& s0.live(v.index as int)
                        &&& s0.brickmap@[v.index as int] > BRICK_OFFSET
                        &&& s0.mirror_of(*cpu, v.index as int).children != 0
                    },
                t == 0 ==> same_residency(*self, s0),
                dp.len() > 0 && s0.brickmap_holes@.len() > 0 && s0.brick_holes@.len() >= 8 && t
                    >= 1 ==> divided >= 1,
                t <= to_divide@.len(),
                divided + divide_skipped == t,
                self.brickmap@.len() == s0.brickmap@.len(),
                self.brickmap_depth == s0.brickmap_depth,
                self.color_texture_size == s0.color_texture_size,
                forall|q: int|
                    0 <= q < to_divide@.len() ==> (#[trigger] to_divide@[q]).index
                        < s0.brickmap@.len(),
                to_divide@.len() == 0 && to_cull@.len() == 0 ==> same_residency(*self, s0),
            decreases to_divide@.len() - t,
        {
            let v = to_divide[t];
            proof {
                if t == 0 && s0.brickmap_holes@.len() > 0 && s0.brick_holes@.len() >= 8 {
                    // On an untouched structure with room to spare, the
                    // first candidate's divide cannot fail.
                    let cc = 8 * (s0.mirror_of(*cpu, v.index as int).children as int);
                    crate::gpu_brickmap::lemma_count_bricks_mono(cpu.brickmap@, cc, 0, 8);
                    assert(self.live(v.index as int));
                    assert(self.mirror_of(*cpu, v.index as int)
                        == s0.mirror_of(*cpu, v.index as int));
                    assert(self.divide_ok(*cpu, v.index as int));
                }
            }
            match self.divide_node(v.index, cpu) {
                Ok(mut ups) => {
                    divided = divided + 1;
                    uploads.append(&mut ups);
                },
                Err(_) => {
                    divide_skipped = divide_skipped + 1;
                },
            }
            t = t + 1;
        }

        let mut culled: usize = 0;
        let mut cull_skipped: usize = 0;
        let mut t2: usize = to_cull.len();
        while t2 > 0
            invariant
                self.wf(),
                self.mirror_wf(*cpu),
                cpu.wf(),
                t2 <= to_cull@.len(),
                culled + cull_skipped == to_cull@.len() - t2,
                self.brickmap@.len() == s0.brickmap@.len(),
                self.brickmap_depth == s0.brickmap_depth,
                self.color_texture_size == s0.color_texture_size,
                forall|q: int|
                    0 <= q < to_cull@.len() ==> (#[trigger] to_cull@[q]).index
                        < s0.brickmap@.len(),
                to_divide@.len() == 0 && to_cull@.len() == 0 ==> same_residency(*self, s0),
            decreases t2,
        {
            t2 = t2 - 1;
            let v = to_cull[t2];
            match self.cull_node(v.index, cpu) {
                Ok(mut ups) => {
                    culled = culled + 1;
                    uploads.append(&mut ups);
                },
                Err(_) => {
                    cull_skipped = cull_skipped + 1;
                },
            }
        }

        FrameReport { divided, divide_skipped, culled, cull_skipped, uploads }
    }
}

/// Once the residency is at a fixed point for a camera, it stays there: a
/// pass that changes nothing leaves a structure that again wants nothing
/// changed.
pub proof fn lemma_fixed_point_persists(
    a: GpuVoxelWorld,
    b: GpuVoxelWorld,
    cpu: CpuBrickmap,
    cam: IVec3,
    settings: StreamingSettings,
)
    requires
        no_ops(a, cpu, cam, settings),
        same_residency(b, a),
    ensures
        no_ops(b, cpu, cam, settings),
{
    crate::gpu_brickmap::lemma_visits_children_congruence(a, b, 0, 0, 0, 0, 0, 0);
    assert(spec_visits(b) == spec_visits(a));
    lemma_plan_congruence(a, b, cpu, cam, settings, spec_visits(a), spec_visits(a).len() as int);
}

/// Equal residency views make equal plans.
proof fn lemma_plan_congruence(
    a: GpuVoxelWorld,
    b: GpuVoxelWorld,
    cpu: CpuBrickmap,
    cam: IVec3,
    settings: StreamingSettings,
    visits: Seq<VisitEntry>,
    k: int,
)
    requires
        same_residency(b, a),
    ensures
        divide_plan(a, cpu, cam, settings, visits, k) == divide_plan(
            b,
            cpu,
            cam,
            settings,
            visits,
            k,
        ),
        cull_plan(a, cam, settings, visits, k) == cull_plan(b, cam, settings, visits, k),
    decreases k,
{
    if k > 0 {
        lemma_plan_congruence(a, b, cpu, cam, settings, visits, k - 1);
    }
}

/// `|x| <= b` implies `x * x <= b * b` (and is non-negative).
proof fn lemma_square_bound(x: int, b: int)
    requires
        -b <= x <= b,
        0 <= b,
    ensures
        0 <= x * x <= b * b,
{
    assert(0 <= x * x <= b * b) by (nonlinear_arith)
        requires
            -b <= x <= b,
            0 <= b,
    ;
}

} // verus!
