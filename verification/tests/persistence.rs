//! Snapshot round-trip tests: saving and loading restores the exact state
//! and the exact subsequent trajectory.

use physics_engine::fixed::SCALE;
use physics_engine::snapshot::SnapshotError;
use physics_engine::solver::{BroadPhase, Solver};
use physics_engine::vec2::Vec2;
use physics_engine::verlet::{Color, Verlet};

fn units(x: i64) -> i64 {
    x * SCALE
}

fn busy_solver(strategy: BroadPhase) -> Solver {
    let mut bodies = Vec::new();
    bodies.push(Verlet::new_with_radius(Vec2::new(units(10), units(5)), units(6)));
    bodies.push(Verlet::new_with_radius(Vec2::new(units(-20), units(30)), units(4)));
    let mut third = Verlet::new_with_velocity(
        Vec2::new(units(0), units(-12)),
        Vec2::new(units(25), units(40)),
        16,
    );
    third.set_id(7);
    bodies.push(third);
    let mut s = Solver::new(
        &bodies,
        Vec2::new(0, -units(500)),
        units(150),
        4,
        units(20),
        (2, 3),
        strategy,
    );
    s.apply_color_frames(vec![
        Color { r: 10, g: 20, b: 30, a: 255 },
        Color { r: 40, g: 50, b: 60, a: 255 },
    ]);
    s
}

#[test]
fn snapshot_round_trip_restores_the_state() {
    let mut s = busy_solver(BroadPhase::Grid);
    for _ in 0..5 {
        s.update(16);
    }
    let blob = s.encode_state();
    let d = Solver::decode_state(&blob).expect("decoding a fresh snapshot");
    assert_eq!(d.get_verlets(), s.get_verlets());
    assert!(d.encode_state() == blob);
}

#[test]
fn snapshot_round_trip_replays_identically() {
    let mut s = busy_solver(BroadPhase::Naive);
    for _ in 0..3 {
        s.update(16);
    }
    let blob = s.encode_state();
    let mut d = Solver::decode_state(&blob).expect("decoding a fresh snapshot");
    for _ in 0..20 {
        s.update(16);
        d.update(16);
    }
    assert_eq!(d.get_verlets(), s.get_verlets());
    assert_eq!(d.get_positions(), s.get_positions());
}

#[test]
fn snapshot_round_trip_replays_identically_under_sweep() {
    let mut s = busy_solver(BroadPhase::Sweep);
    for _ in 0..3 {
        s.update(16);
    }
    let blob = s.encode_state();
    let mut d = Solver::decode_state(&blob).expect("decoding a fresh snapshot");
    for _ in 0..20 {
        s.update(16);
        d.update(16);
    }
    assert_eq!(d.get_verlets(), s.get_verlets());
}

#[test]
fn truncated_snapshot_is_rejected() {
    let s = busy_solver(BroadPhase::Naive);
    let mut blob = s.encode_state();
    blob.pop();
    assert!(matches!(Solver::decode_state(&blob), Err(SnapshotError::Malformed)));
    let empty: Vec<u8> = Vec::new();
    assert!(matches!(Solver::decode_state(&empty), Err(SnapshotError::Malformed)));
}

#[test]
fn corrupted_snapshot_is_rejected() {
    let s = busy_solver(BroadPhase::Naive);
    let mut blob = s.encode_state();
    // a wildly out-of-band radius word makes the state ill-formed
    let k = blob.len() - 1;
    blob[k] = 0xFF;
    assert!(Solver::decode_state(&blob).is_err());
}

#[test]
fn color_blob_round_trips() {
    let colors = vec![
        Color { r: 1, g: 2, b: 3, a: 255 },
        Color { r: 200, g: 100, b: 50, a: 255 },
        Color { r: 0, g: 0, b: 0, a: 0 },
    ];
    let blob = physics_engine::snapshot::encode_colors(&colors);
    let back = physics_engine::snapshot::decode_colors(&blob).expect("decoding a color blob");
    assert_eq!(back, colors);
    let mut broken = blob.clone();
    broken.pop();
    assert!(physics_engine::snapshot::decode_colors(&broken).is_err());
}

#[test]
fn colors_survive_a_save_and_retint() {
    let mut s = busy_solver(BroadPhase::Naive);
    let saved = physics_engine::snapshot::encode_colors(&s.collect_colors());
    // scramble the live colors, then re-tint from the blob
    s.apply_rainbow_gradient();
    let loaded = physics_engine::snapshot::decode_colors(&saved).expect("decoding a color blob");
    let before: Vec<Color> = loaded.clone();
    s.apply_color_frames(loaded);
    for (k, v) in s.get_verlets().iter().enumerate() {
        if k < before.len() {
            assert_eq!(v.get_color(), before[k]);
        }
    }
}

#[test]
fn snapshot_keeps_the_strategy_choice() {
    let s = busy_solver(BroadPhase::ParallelGrid);
    let d = Solver::decode_state(&s.encode_state()).expect("decoding a fresh snapshot");
    assert_eq!(d.strategy, BroadPhase::ParallelGrid);
    assert_eq!(d.region_split_x, s.region_split_x);
    assert_eq!(d.region_split_y, s.region_split_y);
    let sw = busy_solver(BroadPhase::Sweep);
    let dw = Solver::decode_state(&sw.encode_state()).expect("decoding a fresh snapshot");
    assert_eq!(dw.strategy, BroadPhase::Sweep);
}
