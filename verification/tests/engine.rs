//! End-to-end tests of the solver: integration, collisions, the boundary,
//! and the broad-phase strategies.

use physics_engine::fixed::SCALE;
use physics_engine::solver::{BroadPhase, Solver};
use physics_engine::vec2::Vec2;
use physics_engine::verlet::{Color, Verlet};

fn units(x: i64) -> i64 {
    x * SCALE
}

fn solver_with(verlets: Vec<Verlet>, gravity: Vec2, radius_units: i64, strategy: BroadPhase) -> Solver {
    Solver::new(
        &verlets,
        gravity,
        units(radius_units),
        1,
        units(20),
        (2, 2),
        strategy,
    )
}

#[test]
fn free_flight_is_linear() {
    // constant implicit velocity, zero acceleration: after n steps the
    // position is initial + n * (v * dt)
    let dt: i64 = 16; // 1/64 s
    let v = Vec2::new(units(50), 0);
    let mut p = Verlet::new_with_velocity(Vec2::new(0, 0), v, dt);
    for _ in 0..64 {
        p.update_position(dt);
    }
    // 50 units/s * 1 s = 50 units, exactly
    assert_eq!(p.get_position().x, units(50));
    assert_eq!(p.get_position().y, 0);
}

#[test]
fn free_flight_diagonal() {
    let dt: i64 = 16;
    let v = Vec2::new(units(-8), units(24));
    let mut p = Verlet::new_with_velocity(Vec2::new(units(3), units(-7)), v, dt);
    for _ in 0..128 {
        p.update_position(dt);
    }
    assert_eq!(p.get_position().x, units(3) + units(-16));
    assert_eq!(p.get_position().y, units(-7) + units(48));
}

#[test]
fn head_on_equal_mass_collision_swaps_velocities() {
    let dt: i64 = 16;
    let mut a = Verlet::new_with_radius(Vec2::new(units(-6), 0), units(5));
    a.set_velocity(Vec2::new(units(50), 0), dt);
    let mut b = Verlet::new_with_radius(Vec2::new(units(6), 0), units(5));
    b.set_velocity(Vec2::new(units(-50), 0), dt);
    let mut s = solver_with(vec![a, b], Vec2::new(0, 0), 1000, BroadPhase::Naive);
    s.pair_restitution = SCALE; // perfectly elastic
    for _ in 0..10 {
        s.update(dt);
    }
    let va = s.get_verlets()[0].get_velocity();
    let vb = s.get_verlets()[1].get_velocity();
    assert_eq!(va.x, units(-50));
    assert_eq!(va.y, 0);
    assert_eq!(vb.x, units(50));
    assert_eq!(vb.y, 0);
}

fn dist_from_center(p: Vec2) -> i64 {
    p.length()
}

#[test]
fn boundary_invariant_holds_during_simulation() {
    // a body thrown around inside a container never strays more than a
    // hair outside the allowed disc
    let dt: i64 = 16;
    let r = units(10);
    let big_r = units(200);
    let mut p = Verlet::new_with_radius(Vec2::new(units(50), units(40)), r);
    p.set_velocity(Vec2::new(units(180), units(-120)), dt);
    let mut s = Solver::new(
        &vec![p],
        Vec2::new(0, -units(500)),
        big_r,
        8,
        units(20),
        (2, 2),
        BroadPhase::Naive,
    );
    // one substep of drift on top of the one-quantum wall slack
    let eps = units(4);
    for _ in 0..600 {
        s.update(dt);
        let pos = s.get_verlets()[0].get_position();
        assert!(dist_from_center(pos) <= big_r - r + eps);
    }
}

#[test]
fn single_body_settles_at_the_bottom_and_sleeps() {
    let dt: i64 = 16;
    let r = units(10);
    let big_r = units(200);
    let p = Verlet::new_with_radius(Vec2::new(0, 0), r);
    let mut s = Solver::new(
        &vec![p],
        Vec2::new(0, -units(500)),
        big_r,
        8,
        units(20),
        (2, 2),
        BroadPhase::Naive,
    );
    s.wall_restitution = SCALE / 2;
    for _ in 0..2000 {
        s.update(dt);
    }
    let body = s.get_verlets()[0];
    let pos = body.get_position();
    // settled on the boundary straight below the center
    assert!(pos.x.abs() < units(1));
    assert!((dist_from_center(pos) - (big_r - r)).abs() <= units(2));
    assert!(pos.y < 0);
    // slow enough to pass the sleep velocity threshold
    let speed = body.get_velocity().length();
    let v_threshold = units(20);
    assert!(speed < v_threshold);
    // the sleep timer crosses its threshold after enough quiet steps
    let mut resting = body.clone();
    let t_threshold = units(1); // one second
    for _ in 0..100 {
        resting.try_sleep(v_threshold, t_threshold, 16);
    }
    assert!(resting.is_sleeping());
}

#[test]
fn sleeping_body_ignores_integration_until_woken() {
    let dt: i64 = 16;
    let mut p = Verlet::new_with_velocity(Vec2::new(0, 0), Vec2::new(units(10), 0), dt);
    // force the sleep state through the public bookkeeping
    for _ in 0..100 {
        p.try_sleep(units(100), units(1), dt);
    }
    assert!(p.is_sleeping());
    let before = p.get_position();
    p.update_position(dt);
    assert_eq!(p.get_position(), before);
    p.wake_up();
    assert!(!p.is_sleeping());
    p.update_position(dt);
    assert_ne!(p.get_position(), before);
}

/// A small deterministic position scrambler.
fn scatter(seed: u64, n: usize, span: i64) -> Vec<Vec2> {
    let mut state = seed;
    let mut out = Vec::new();
    for _ in 0..n {
        state = state.wrapping_mul(6364136223846793005).wrapping_add(1442695040888963407);
        let x = (state >> 16) as i64 % span;
        state = state.wrapping_mul(6364136223846793005).wrapping_add(1442695040888963407);
        let y = (state >> 16) as i64 % span;
        out.push(Vec2::new(x, y));
    }
    out
}

fn overlap(a: &Verlet, b: &Verlet) -> bool {
    let axis = a.get_position().minus(b.get_position());
    axis.length() < a.get_radius() + b.get_radius()
}

fn sorted_pairs(mut ps: Vec<(usize, usize)>) -> Vec<(usize, usize)> {
    ps.sort();
    ps
}

fn overlap_filter(s: &Solver, ps: &[(usize, usize)]) -> Vec<(usize, usize)> {
    let vs = s.get_verlets();
    let mut out: Vec<(usize, usize)> = ps
        .iter()
        .copied()
        .filter(|&(i, j)| overlap(&vs[i], &vs[j]))
        .collect();
    out.sort();
    out.dedup();
    out
}

#[test]
fn broad_phase_strategies_agree() {
    let r = units(4);
    let positions = scatter(0x5eed, 40, units(90));
    let mut bodies = Vec::new();
    for p in positions {
        bodies.push(Verlet::new_with_radius(p, r));
    }
    let mut s = solver_with(bodies, Vec2::new(0, 0), 100, BroadPhase::Naive);
    let naive = sorted_pairs(s.find_collisions_loop());
    let grid = s.find_collisions_space_partitioning();
    let tiled = s.find_collisions_space_partitioning_parallel();
    let swept = s.find_collisions_sort_sweep();

    // the grid and tiled scans emit the same set, free of duplicates
    let grid_sorted = sorted_pairs(grid.clone());
    let tiled_sorted = sorted_pairs(tiled.clone());
    assert_eq!(grid_sorted, tiled_sorted);
    for w in grid_sorted.windows(2) {
        assert!(w[0] != w[1], "duplicate pair in grid output");
    }
    for w in tiled_sorted.windows(2) {
        assert!(w[0] != w[1], "duplicate pair in tiled output");
    }

    // filtered by true overlap, all four strategies collapse to the same set
    assert_eq!(overlap_filter(&s, &naive), naive);
    assert_eq!(overlap_filter(&s, &grid), naive);
    assert_eq!(overlap_filter(&s, &tiled), naive);
    assert_eq!(overlap_filter(&s, &swept), naive);
}

#[test]
fn strategies_give_identical_trajectories() {
    let dt: i64 = 16;
    let r = units(5);
    let positions = scatter(0xabcd, 12, units(60));
    let mut bodies = Vec::new();
    for p in positions {
        bodies.push(Verlet::new_with_radius(p, r));
    }
    let mut a = solver_with(bodies.clone(), Vec2::new(0, -units(300)), 100, BroadPhase::Naive);
    let mut b = solver_with(bodies.clone(), Vec2::new(0, -units(300)), 100, BroadPhase::Grid);
    let mut c = solver_with(bodies, Vec2::new(0, -units(300)), 100, BroadPhase::ParallelGrid);
    for _ in 0..30 {
        a.update(dt);
        b.update(dt);
        c.update(dt);
    }
    // grid and tiled run the same candidate order, so they match exactly
    for k in 0..b.get_verlets().len() {
        assert_eq!(b.get_verlets()[k].get_position(), c.get_verlets()[k].get_position());
    }
}

#[test]
fn container_fullness_threshold_is_exact() {
    // 10 * sum(r^2) > 9 * R^2 with R = 10 and r = 3: one disc is not full
    // (90 <= 900), eleven discs are (990 > 900)
    let r = units(3);
    let mut s = solver_with(Vec::new(), Vec2::new(0, 0), 10, BroadPhase::Naive);
    assert!(!s.is_container_full());
    for _ in 0..10 {
        s.add_position(Verlet::new_with_radius(Vec2::new(0, 0), r));
        assert!(!s.is_container_full());
    }
    s.add_position(Verlet::new_with_radius(Vec2::new(0, 0), r));
    assert!(s.is_container_full());
}

#[test]
fn mass_is_density_times_disc_area() {
    // radius of one unit, density one: pi in fixed point
    let p = Verlet::new_with_radius(Vec2::new(0, 0), SCALE);
    assert_eq!(p.get_mass(), 3217);
}

#[test]
fn wall_reflects_and_clamps() {
    let dt: i64 = 16;
    let r = units(10);
    let big_r = units(100);
    // start outside the allowed disc, moving outward
    let mut p =
        Verlet::new_with_velocity(Vec2::new(units(95), 0), Vec2::new(units(30), 0), dt);
    p.set_radius(r);
    let mut s = solver_with(vec![p], Vec2::new(0, 0), 100, BroadPhase::Naive);
    s.update(dt);
    let body = s.get_verlets()[0];
    assert!(dist_from_center(body.get_position()) <= big_r - r + units(1));
    // the outward velocity was reflected inward
    assert!(body.get_velocity().x < 0);
}

#[test]
fn interpolated_position_blends_between_steps() {
    let dt: i64 = 16;
    let mut p = Verlet::new_with_velocity(Vec2::new(0, 0), Vec2::new(units(64), 0), dt);
    p.update_position(dt);
    let before = p.get_position();
    p.update_position(dt);
    let after = p.get_position();
    let half = p.get_interpolated_position(SCALE / 2);
    assert_eq!(half.x, before.x + (after.x - before.x) / 2);
    let start = p.get_interpolated_position(0);
    assert_eq!(start, before);
    let end = p.get_interpolated_position(SCALE);
    assert_eq!(end, after);
}

#[test]
fn deterministic_normalize_guards_zero() {
    let s = solver_with(Vec::new(), Vec2::new(0, 0), 100, BroadPhase::Naive);
    let n = s.deterministic_normalize(Vec2::new(units(3), units(4)));
    // a 3-4-5 triangle: components scale to 3/5 and 4/5 of a unit
    assert_eq!(n.x, 614); // 3 * 1024 / 5 = 614.4, floored
    assert_eq!(n.y, 819); // 4 * 1024 / 5 = 819.2, floored
    let z = s.deterministic_normalize(Vec2::new(0, 0));
    assert_eq!(z, Vec2::new(0, 0));
}

#[test]
fn vector_length_is_exact() {
    assert_eq!(Vec2::new(units(3), units(4)).length(), units(5));
    assert_eq!(Vec2::new(0, 0).length(), 0);
    assert_eq!(Vec2::new(-units(7), 0).length(), units(7));
}

#[test]
fn spawn_stamping_consumes_color_frames() {
    let mut s = solver_with(Vec::new(), Vec2::new(0, 0), 100, BroadPhase::Naive);
    let red = Color { r: 255, g: 0, b: 0, a: 255 };
    let blue = Color { r: 0, g: 0, b: 255, a: 255 };
    s.apply_color_frames(vec![red, blue]);
    s.add_position(Verlet::new(Vec2::new(0, 0)));
    s.add_position(Verlet::new(Vec2::new(units(1), 0)));
    s.add_position(Verlet::new(Vec2::new(units(2), 0)));
    assert_eq!(s.get_verlets()[0].get_color(), red);
    assert_eq!(s.get_verlets()[1].get_color(), blue);
    // no frames left: the third keeps its own color
    assert_eq!(s.get_verlets().len(), 3);
}

#[test]
fn rainbow_gradient_leaves_physics_alone() {
    let positions = scatter(0x7777, 9, units(50));
    let mut bodies = Vec::new();
    for p in positions {
        bodies.push(Verlet::new_with_radius(p, units(4)));
    }
    let mut s = solver_with(bodies, Vec2::new(0, 0), 100, BroadPhase::Naive);
    let before: Vec<Vec2> = s.get_positions();
    s.apply_rainbow_gradient();
    let after: Vec<Vec2> = s.get_positions();
    assert_eq!(before, after);
    for v in s.get_verlets() {
        assert_eq!(v.get_color().a, 255);
    }
}

#[test]
fn getters_and_setters_round_trip() {
    let mut p = Verlet::new(Vec2::new(units(1), units(2)));
    assert_eq!(p.get_position(), Vec2::new(units(1), units(2)));
    p.set_id(42);
    assert_eq!(p.get_id(), 42);
    p.set_radius(units(7));
    assert_eq!(p.get_radius(), units(7));
    p.set_position(Vec2::new(units(-3), units(4)));
    assert_eq!(p.get_position(), Vec2::new(units(-3), units(4)));
    p.set_last_grid(5, 9);
    assert_eq!(p.get_last_grid(), 5);
    assert_eq!(p.get_position_in_cell(), 9);
    p.set_position_in_cell(11);
    assert_eq!(p.get_position_in_cell(), 11);
    let c = Color { r: 1, g: 2, b: 3, a: 4 };
    p.set_color(c);
    assert_eq!(p.get_color(), c);
    let dt = 16;
    // velocity queries read the recorded substep length, so step once first
    p.update_position(dt);
    p.set_velocity(Vec2::new(units(10), 0), dt);
    assert_eq!(p.get_velocity(), Vec2::new(units(10), 0));
    p.add_velocity(Vec2::new(units(5), 0), dt);
    assert_eq!(p.get_velocity(), Vec2::new(units(15), 0));
    p.add_acceleration(Vec2::new(0, units(-500)));
    p.update_position(dt);
    assert_eq!(p.get_acceleration(), Vec2::new(0, units(-500)));
}

#[test]
fn clock_reads_monotonic_enough() {
    let a = physics_engine::get_time();
    let b = physics_engine::get_time();
    assert!(b >= a);
    assert!(a > 0);
}

#[test]
fn sweep_events_cover_new_bodies() {
    let dt: i64 = 16;
    let positions = scatter(0x1234, 8, units(60));
    let mut bodies = Vec::new();
    for p in positions {
        bodies.push(Verlet::new_with_radius(p, units(5)));
    }
    let mut s = solver_with(bodies, Vec2::new(0, -units(200)), 100, BroadPhase::Sweep);
    s.update(dt);
    // bodies added later get events of their own on the next sweep
    s.add_position(Verlet::new_with_radius(Vec2::new(0, units(80)), units(5)));
    s.update(dt);
    let naive = sorted_pairs(s.find_collisions_loop());
    let swept = s.find_collisions_sort_sweep();
    assert_eq!(overlap_filter(&s, &swept), naive);
}

#[test]
fn add_positions_appends_in_order() {
    let mut s = solver_with(Vec::new(), Vec2::new(0, 0), 100, BroadPhase::Naive);
    let batch = vec![
        Verlet::new_with_radius(Vec2::new(units(1), 0), units(2)),
        Verlet::new_with_radius(Vec2::new(units(5), 0), units(3)),
    ];
    s.add_positions(&batch);
    assert_eq!(s.get_verlets().len(), 2);
    assert_eq!(s.get_verlets()[0].get_position(), Vec2::new(units(1), 0));
    assert_eq!(s.get_verlets()[1].get_radius(), units(3));
}

#[test]
fn tile_scans_concatenate_to_the_grid_scan() {
    let r = units(4);
    let positions = scatter(0xfeed, 25, units(80));
    let mut bodies = Vec::new();
    for p in positions {
        bodies.push(Verlet::new_with_radius(p, r));
    }
    let s = solver_with(bodies, Vec2::new(0, 0), 100, BroadPhase::Grid);
    let whole = sorted_pairs(s.find_collisions_space_partitioning());
    // a 2 x 2 tiling of the cell rectangle, merged, gives the same set
    let gs = s.grid_size;
    let mut merged: Vec<(usize, usize)> = Vec::new();
    for (ys, ye) in [(0, gs / 2), (gs / 2, gs)] {
        for (xs, xe) in [(0, gs / 2), (gs / 2, gs)] {
            merged.extend(physics_engine::broadphase::tile_pairs(
                s.get_verlets(),
                s.constraint_radius,
                s.cell_size,
                gs,
                xs,
                xe,
                ys,
                ye,
            ));
        }
    }
    assert_eq!(sorted_pairs(merged), whole);
}

#[test]
fn split_substeps_match_update() {
    // prepare + externally computed candidates + finish replays exactly
    // what one update substep does
    let dt: i64 = 16;
    let positions = scatter(0xcafe, 10, units(60));
    let mut bodies = Vec::new();
    for p in positions {
        bodies.push(Verlet::new_with_radius(p, units(5)));
    }
    let mut whole = solver_with(bodies.clone(), Vec2::new(0, -units(400)), 100, BroadPhase::Naive);
    let mut split = solver_with(bodies, Vec2::new(0, -units(400)), 100, BroadPhase::Naive);
    for _ in 0..20 {
        whole.update(dt);
        split.prepare_substep(dt);
        let candidates = split.find_collisions_loop();
        split.finish_substep(&candidates, dt);
    }
    assert_eq!(split.get_verlets(), whole.get_verlets());
}

#[test]
fn construction_sorts_the_event_list() {
    // bodies given in decreasing x: the persistent event list still comes
    // out ordered by key
    let bodies = vec![
        Verlet::new_with_radius(Vec2::new(units(30), 0), units(2)),
        Verlet::new_with_radius(Vec2::new(units(-10), 0), units(2)),
        Verlet::new_with_radius(Vec2::new(units(7), 0), units(2)),
    ];
    let s = solver_with(bodies, Vec2::new(0, 0), 100, BroadPhase::Sweep);
    for w in s.events.windows(2) {
        assert!(w[0].key <= w[1].key);
    }
    assert_eq!(s.events.len(), 6);
}
