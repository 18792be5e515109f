use brickmap::brick::{Brick, Voxel};
use brickmap::cpu_brickmap::CpuBrickmap;
use brickmap::gpu_brickmap::GpuVoxelWorld;
use brickmap::math::{IVec3, UVec3};
use brickmap::voxel_streaming::StreamingSettings;
use brickmap::BRICK_OFFSET;

fn one_voxel_brick(a: u8) -> Brick {
    let mut b = Brick::empty();
    b.write(UVec3::new(0, 0, 0), Voxel { r: 200, g: 200, b: 200, a });
    b
}

/// A world of node depth 2 with every one of the 64 leaf bricks placed.
fn full_world() -> CpuBrickmap {
    let mut cpu = CpuBrickmap::new(2);
    for x in 0..4 {
        for y in 0..4 {
            for z in 0..4 {
                cpu.place_brick(one_voxel_brick(255), UVec3::new(x, y, z)).unwrap();
            }
        }
    }
    cpu.recreate_mipmaps();
    cpu
}

fn settings(divide_ratio: u32, cull_ratio: u32) -> StreamingSettings {
    StreamingSettings { pause_streaming: false, divide_ratio, cull_ratio }
}

#[test]
fn paused_streaming_changes_nothing() {
    let cpu = full_world();
    let (mut gpu, _) = GpuVoxelWorld::new(&cpu, 32, UVec3::new(160, 160, 160)).unwrap();
    let before = gpu.brickmap.clone();
    let s = StreamingSettings { pause_streaming: true, divide_ratio: 0, cull_ratio: 0 };
    let report = gpu.advance(&cpu, IVec3::new(0, 0, 0), &s);
    assert_eq!(report.divided, 0);
    assert_eq!(report.culled, 0);
    assert_eq!(gpu.brickmap, before);
}

#[test]
fn forced_full_refinement_divides_all_roots_in_one_frame() {
    let cpu = full_world();
    let (mut gpu, _) = GpuVoxelWorld::new(&cpu, 32, UVec3::new(160, 160, 160)).unwrap();
    let free_before = gpu.brickmap_holes.len();
    let report = gpu.advance(&cpu, IVec3::new(0, 0, 0), &settings(0, 0));
    // The first frame sees only the eight root leaves; all divide.
    assert_eq!(report.divided, 8);
    assert_eq!(report.divide_skipped, 0);
    assert_eq!(gpu.brickmap_holes.len(), free_before - 8);
    for i in 0..8 {
        assert!(gpu.brickmap[i] < BRICK_OFFSET);
    }
}

#[test]
fn stationary_camera_converges_within_depth_frames() {
    let cpu = full_world();
    let (mut gpu, _) = GpuVoxelWorld::new(&cpu, 32, UVec3::new(160, 160, 160)).unwrap();
    let cam = IVec3::new(0, 0, 0);
    let s = settings(1000, 1000);
    let mut mutations = Vec::new();
    for _ in 0..8 {
        let report = gpu.advance(&cpu, cam, &s);
        mutations.push(report.divided + report.culled + report.divide_skipped
            + report.cull_skipped);
    }
    // Convergence within brickmap_depth (= 2) frames, and stability after.
    for frame in 2..8 {
        assert_eq!(mutations[frame], 0, "frame {} still mutated", frame);
    }
    assert!(mutations[0] > 0);
}

#[test]
fn hysteresis_band_prevents_topology_thrash() {
    let cpu = full_world();
    let (mut gpu, _) = GpuVoxelWorld::new(&cpu, 32, UVec3::new(160, 160, 160)).unwrap();
    // A wide band: divide above ratio 2.0, cull below 0.1; the camera
    // oscillates by 8 voxels around the world center.
    let s = settings(2000, 100);
    for _ in 0..4 {
        gpu.advance(&cpu, IVec3::new(0, 0, 0), &s);
    }
    for frame in 0..10 {
        let cam = if frame % 2 == 0 {
            IVec3::new(8, 0, 0)
        } else {
            IVec3::new(-8, 0, 0)
        };
        let report = gpu.advance(&cpu, cam, &s);
        assert_eq!(report.divided + report.culled, 0, "oscillation thrashed at {}", frame);
    }
}

#[test]
fn exhaustion_degrades_gracefully() {
    let mut cpu = CpuBrickmap::new(3);
    for x in 0..8 {
        for y in 0..2 {
            for z in 0..8 {
                cpu.place_brick(one_voxel_brick(255), UVec3::new(x, y, z)).unwrap();
            }
        }
    }
    cpu.recreate_mipmaps();
    // Sixteen groups are far too few for full refinement at ratio 0.
    let (mut gpu, _) = GpuVoxelWorld::new(&cpu, 16, UVec3::new(160, 160, 160)).unwrap();
    let s = settings(0, 0);
    let mut skipped_total = 0;
    for _ in 0..4 {
        let report = gpu.advance(&cpu, IVec3::new(0, 0, 0), &s);
        skipped_total += report.divide_skipped;
        assert!(gpu.brickmap_holes.len() <= 15);
    }
    assert!(skipped_total > 0);
    // The renderer's structures stay usable: another pass still runs.
    let report = gpu.advance(&cpu, IVec3::new(0, 0, 0), &s);
    assert_eq!(report.divided + report.culled + report.divide_skipped + report.cull_skipped > 0, true);
}

#[test]
fn far_camera_culls_refined_nodes() {
    let cpu = full_world();
    let (mut gpu, _) = GpuVoxelWorld::new(&cpu, 32, UVec3::new(160, 160, 160)).unwrap();
    // Refine fully near the center first.
    gpu.advance(&cpu, IVec3::new(0, 0, 0), &settings(0, 0));
    gpu.advance(&cpu, IVec3::new(0, 0, 0), &settings(0, 0));
    // Then walk far away: everything coarsens back to the root leaves.
    let far = IVec3::new(1_000_000, 0, 0);
    for _ in 0..4 {
        gpu.advance(&cpu, far, &settings(1000, 1000));
    }
    for i in 0..8 {
        assert!(gpu.brickmap[i] >= BRICK_OFFSET);
    }
    assert_eq!(gpu.brickmap_holes.len(), 31);
}

#[test]
fn default_settings_keep_streaming_enabled() {
    let s = StreamingSettings::default();
    assert!(!s.pause_streaming);
    assert_eq!(s.divide_ratio, 1000);
    assert_eq!(s.cull_ratio, 1000);
}
