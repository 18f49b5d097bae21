//! The solver: one fixed-timestep update is `subdivision` substeps of
//! gravity, the wall constraint, broad phase, narrow phase, and Verlet
//! integration, in that order.

use crate::broadphase::{
    all_wf, edge_key, events_fresh, events_ok, events_sorted, grid_pair, grid_pairs, lex_sorted,
    naive_pairs, no_dup_pairs, overlapping, parallel_grid_pairs, sweep_complete, sweep_pairs,
    sweep_sound, valid_pairs, Event,
};
use crate::fixed::{clamped, cmul, is_sqrt, tdiv, LIM, OVERLAP_FIX, SCALE};
use crate::vec2::{
    c64, in_lim, len_sq, vdbl, vfixmul, vlen, vminus, vmuldiv, vnorm, vperp, vplus, vproject,
    vzero, Vec2,
};
use crate::verlet::{Color, Verlet};
use vstd::prelude::*;

verus! {

/// The four interchangeable broad-phase strategies, fixed at construction.
#[derive(Clone, Copy, Debug, PartialEq, Eq, Structural)]
pub enum BroadPhase {
    Naive,
    Sweep,
    Grid,
    ParallelGrid,
}

pub struct Solver {
    pub verlets: Vec<Verlet>,
    pub gravity: Vec2,
    pub constraint_radius: i64,
    pub events: Vec<Event>,
    pub color_frames: Vec<Color>,
    pub current_frame: usize,
    pub subdivision: usize,
    pub cell_size: i64,
    pub grid_size: usize,
    pub region_split_x: usize,
    pub region_split_y: usize,
    pub strategy: BroadPhase,
    pub wall_restitution: i64,
    pub pair_restitution: i64,
}

// ---------------------------------------------------------------------
// The substep pipeline, as spec functions
// ---------------------------------------------------------------------

pub open spec fn gravity_all(vs: Seq<Verlet>, g: Vec2) -> Seq<Verlet> {
    vs.map_values(|v: Verlet| v.with_added_acceleration(g))
}

/// The wall constraint on one body: if its center is further from the
/// origin than `radius - body radius`, clamp it onto that circle and
/// reflect the normal part of its velocity, scaled by the restitution.
pub open spec fn wall_one(v: Verlet, radius: i64, restitution: i64, dt: i64) -> Verlet {
    let d = v.position;
    let dist = vlen(d);
    if dist > radius - v.radius {
        if dist == 0 {
            v
        } else {
            let n = vnorm(d);
            if n == vzero() {
                v
            } else {
                let vel = v.vel_spec();
                let vn = vproject(vel, n);
                let pos2 = vmuldiv(n, (radius - v.radius) as int, SCALE as int);
                let vel2 = vfixmul(vminus(vel, vdbl(vn)), restitution as int);
                v.with_position(pos2).with_velocity(vel2, dt)
            }
        }
    } else {
        v
    }
}

pub open spec fn wall_all(vs: Seq<Verlet>, radius: i64, restitution: i64, dt: i64) -> Seq<Verlet> {
    vs.map_values(|v: Verlet| wall_one(v, radius, restitution, dt))
}

/// The one-dimensional elastic collision formula along the normal:
/// `(u1 (m1 - m2) + 2 m2 u2) / (m1 + m2)`.
pub open spec fn impact(u1: int, u2: int, m1: int, m2: int) -> int {
    clamped(tdiv(u1 * (m1 - m2) + 2 * m2 * u2, m1 + m2))
}

/// Resolve one candidate pair.  The true distance is rechecked; on genuine
/// overlap the velocities are decomposed along the collision normal, the
/// normal parts exchange impulse elastically by mass and are scaled by the
/// restitution, the tangential parts stay unchanged, and the bodies are
/// separated along the normal by half the (slightly inflated) penetration
/// each.
pub open spec fn resolve_pair_spec(v1: Verlet, v2: Verlet, restitution: i64, dt: i64) -> (
    Verlet,
    Verlet,
) {
    let axis = vminus(v1.position, v2.position);
    let dist = vlen(axis);
    let min_dist = v1.radius + v2.radius;
    if dist >= min_dist || dist == 0 {
        (v1, v2)
    } else {
        let normal = vnorm(axis);
        let perp_n = vnorm(vperp(axis));
        if normal == vzero() || perp_n == vzero() {
            (v1, v2)
        } else {
            let m1 = v1.mass_spec();
            let m2 = v2.mass_spec();
            if m1 + m2 < 1 {
                (v1, v2)
            } else {
                let vel1 = v1.vel_spec();
                let vel2 = v2.vel_spec();
                let v1n = vproject(vel1, normal);
                let v1t = vproject(vel1, perp_n);
                let v2n = vproject(vel2, normal);
                let v2t = vproject(vel2, perp_n);
                let v1f = Vec2 {
                    x: c64(impact(v1n.x as int, v2n.x as int, m1, m2)),
                    y: c64(impact(v1n.y as int, v2n.y as int, m1, m2)),
                };
                let v2f = Vec2 {
                    x: c64(impact(v2n.x as int, v1n.x as int, m2, m1)),
                    y: c64(impact(v2n.y as int, v1n.y as int, m2, m1)),
                };
                let shift = vmuldiv(normal, cmul((min_dist - dist), OVERLAP_FIX as int, SCALE as int), 2 * SCALE as int);
                let w1 = v1.with_position(vplus(v1.position, shift)).with_velocity(
                    vplus(v1t, vfixmul(v1f, restitution as int)),
                    dt,
                );
                let w2 = v2.with_position(vminus(v2.position, shift)).with_velocity(
                    vplus(v2t, vfixmul(v2f, restitution as int)),
                    dt,
                );
                (w1, w2)
            }
        }
    }
}

/// Apply one candidate pair to the arena, skipping malformed indices.
pub open spec fn apply_one(vs: Seq<Verlet>, p: (usize, usize), restitution: i64, dt: i64) -> Seq<
    Verlet,
> {
    if p.0 < p.1 && (p.1 as int) < vs.len() {
        let rr = resolve_pair_spec(vs[p.0 as int], vs[p.1 as int], restitution, dt);
        vs.update(p.0 as int, rr.0).update(p.1 as int, rr.1)
    } else {
        vs
    }
}

/// Resolve all candidates once, in the order the broad phase produced
/// them; there is no iterative relaxation.
pub open spec fn resolve_all(
    vs: Seq<Verlet>,
    ps: Seq<(usize, usize)>,
    restitution: i64,
    dt: i64,
) -> Seq<Verlet>
    decreases ps.len(),
{
    if ps.len() == 0 {
        vs
    } else {
        apply_one(resolve_all(vs, ps.drop_last(), restitution, dt), ps.last(), restitution, dt)
    }
}

pub open spec fn integrate_all(vs: Seq<Verlet>, dt: i64) -> Seq<Verlet> {
    vs.map_values(|v: Verlet| v.integrate_spec(dt))
}

/// What the configured strategy guarantees about its candidate list,
/// always free of duplicates: the exact scan yields precisely the
/// overlapping pairs in lexicographic order — which pins that list, and
/// with it the whole substep, uniquely (`lemma_lex_sorted_unique`) — the
/// grid scans yield precisely the grid candidates, and the sweep yields
/// every strictly x-overlapping pair and nothing whose x-extents do not
/// at least touch.  The grid and sweep emission orders are deterministic
/// in the implementation but left relational here.
pub open spec fn candidates_match(
    s: BroadPhase,
    ps: Seq<(usize, usize)>,
    vs: Seq<Verlet>,
    radius: i64,
    cs: i64,
    gs: int,
) -> bool {
    &&& valid_pairs(ps, vs.len() as int)
    &&& no_dup_pairs(ps)
    &&& match s {
        BroadPhase::Naive => lex_sorted(ps) && forall|a: usize, b: usize|
            #![trigger ps.contains((a, b))]
            a < b < vs.len() ==> (ps.contains((a, b)) <==> overlapping(vs, a as int, b as int)),
        BroadPhase::Sweep => crate::broadphase::sweep_complete(ps, vs) && sweep_sound(ps, vs),
        BroadPhase::Grid => forall|a: usize, b: usize|
            #![trigger ps.contains((a, b))]
            a < b ==> (ps.contains((a, b)) <==> grid_pair(vs, radius, cs, gs, a as int, b as int)),
        BroadPhase::ParallelGrid => forall|a: usize, b: usize|
            #![trigger ps.contains((a, b))]
            a < b ==> (ps.contains((a, b)) <==> grid_pair(vs, radius, cs, gs, a as int, b as int)),
    }
}

/// One substep: gravity, wall constraint, broad phase, narrow phase,
/// integration.
pub open spec fn substep_rel(
    pre: Seq<Verlet>,
    post: Seq<Verlet>,
    s: BroadPhase,
    g: Vec2,
    radius: i64,
    cs: i64,
    gs: int,
    wall_rest: i64,
    pair_rest: i64,
    dt: i64,
) -> bool {
    exists|ps: Seq<(usize, usize)>|
        #[trigger] candidates_match(s, ps, wall_all(gravity_all(pre, g), radius, wall_rest, dt), radius, cs, gs)
            && post == integrate_all(
            resolve_all(wall_all(gravity_all(pre, g), radius, wall_rest, dt), ps, pair_rest, dt),
            dt,
        )
}

/// `n` substeps in a row.
pub open spec fn steps_rel(
    pre: Seq<Verlet>,
    post: Seq<Verlet>,
    n: nat,
    s: BroadPhase,
    g: Vec2,
    radius: i64,
    cs: i64,
    gs: int,
    wall_rest: i64,
    pair_rest: i64,
    dt: i64,
) -> bool
    decreases n,
{
    if n == 0 {
        post == pre
    } else {
        exists|mid: Seq<Verlet>|
            steps_rel(pre, mid, (n - 1) as nat, s, g, radius, cs, gs, wall_rest, pair_rest, dt)
                && #[trigger] substep_rel(mid, post, s, g, radius, cs, gs, wall_rest, pair_rest, dt)
    }
}

proof fn lemma_substep_intro(
    pre: Seq<Verlet>,
    post: Seq<Verlet>,
    ps: Seq<(usize, usize)>,
    s: BroadPhase,
    g: Vec2,
    radius: i64,
    cs: i64,
    gs: int,
    wall_rest: i64,
    pair_rest: i64,
    dt: i64,
)
    requires
        candidates_match(s, ps, wall_all(gravity_all(pre, g), radius, wall_rest, dt), radius, cs, gs),
        post == integrate_all(
            resolve_all(wall_all(gravity_all(pre, g), radius, wall_rest, dt), ps, pair_rest, dt),
            dt,
        ),
    ensures
        substep_rel(pre, post, s, g, radius, cs, gs, wall_rest, pair_rest, dt),
{
}

proof fn lemma_steps_snoc(
    pre: Seq<Verlet>,
    mid: Seq<Verlet>,
    post: Seq<Verlet>,
    n: nat,
    s: BroadPhase,
    g: Vec2,
    radius: i64,
    cs: i64,
    gs: int,
    wall_rest: i64,
    pair_rest: i64,
    dt: i64,
)
    requires
        steps_rel(pre, mid, n, s, g, radius, cs, gs, wall_rest, pair_rest, dt),
        substep_rel(mid, post, s, g, radius, cs, gs, wall_rest, pair_rest, dt),
    ensures
        steps_rel(pre, post, n + 1, s, g, radius, cs, gs, wall_rest, pair_rest, dt),
{
}

// ---------------------------------------------------------------------
// Executable narrow phase
// ---------------------------------------------------------------------

/// The executable 1-D impact formula.
fn impact_1d(u1: i64, u2: i64, m1: i64, m2: i64) -> (r: i64)
    requires
        -LIM <= u1 <= LIM,
        -LIM <= u2 <= LIM,
        0 <= m1 <= LIM,
        0 <= m2 <= LIM,
        m1 + m2 >= 1,
    ensures
        r as int == impact(u1 as int, u2 as int, m1 as int, m2 as int),
        -LIM <= r <= LIM,
{
    proof {
        let ui = u1 as int;
        let u2i = u2 as int;
        let dm = m1 as int - m2 as int;
        let wi = 2 * (m2 as int);
        assert(-0x400000000000 <= ui <= 0x400000000000);
        assert(-0x400000000000 <= dm <= 0x400000000000);
        assert(0 <= wi <= 0x800000000000);
        assert(-0x100000000000000000000000 <= ui * dm <= 0x100000000000000000000000)
            by (nonlinear_arith)
            requires
                -0x400000000000 <= ui <= 0x400000000000,
                -0x400000000000 <= dm <= 0x400000000000,
        ;
        assert(-0x400000000000 <= u2i <= 0x400000000000);
        assert(-0x1000000000000000000000000 <= wi * u2i <= 0x1000000000000000000000000)
            by (nonlinear_arith)
            requires
                -0x800000000000 <= wi <= 0x800000000000,
                -0x400000000000 <= u2i <= 0x400000000000,
        ;
        assert(2 * (m2 as int) * (u2 as int) == wi * u2i);
    }
    let num: i128 = (u1 as i128) * ((m1 as i128) - (m2 as i128)) + 2 * (m2 as i128) * (u2 as i128);
    let q = crate::fixed::div_q(num, (m1 as i128) + (m2 as i128));
    crate::fixed::clamp64(q)
}

/// Resolve one candidate pair; the bodies are returned, not aliased.
fn resolve_pair(v1: Verlet, v2: Verlet, restitution: i64, dt: i64) -> (r: (Verlet, Verlet))
    requires
        v1.wf(),
        v2.wf(),
    ensures
        r == resolve_pair_spec(v1, v2, restitution, dt),
        r.0.wf(),
        r.1.wf(),
{
    let axis = v1.position.minus(v2.position);
    let dist = axis.length();
    let min_dist = v1.radius + v2.radius;
    if dist >= min_dist || dist == 0 {
        return (v1, v2);
    }
    let normal = axis.normalized();
    proof {
        assert(len_sq(vperp(axis)) == len_sq(axis)) by {
            assert((axis.y as int) * (axis.y as int) == (-(axis.y as int)) * (-(axis.y as int)))
                by (nonlinear_arith);
            assert(c64(-(axis.y as int)) as int == -(axis.y as int));
        }
    }
    let perp_n = axis.perp().normalized();
    if (normal.x == 0 && normal.y == 0) || (perp_n.x == 0 && perp_n.y == 0) {
        return (v1, v2);
    }
    let m1 = v1.get_mass();
    let m2 = v2.get_mass();
    if m1 + m2 < 1 {
        return (v1, v2);
    }
    proof {
        assert(len_sq(normal) >= 1 && len_sq(perp_n) >= 1) by (nonlinear_arith)
            requires
                normal.x != 0 || normal.y != 0,
                perp_n.x != 0 || perp_n.y != 0,
                len_sq(normal) == (normal.x as int) * (normal.x as int) + (normal.y as int) * (
                normal.y as int),
                len_sq(perp_n) == (perp_n.x as int) * (perp_n.x as int) + (perp_n.y as int) * (
                perp_n.y as int),
        ;
    }
    let vel1 = v1.get_velocity();
    let vel2 = v2.get_velocity();
    let v1n = vel1.project_onto(normal);
    let v1t = vel1.project_onto(perp_n);
    let v2n = vel2.project_onto(normal);
    let v2t = vel2.project_onto(perp_n);
    let v1f = Vec2 {
        x: impact_1d(v1n.x, v2n.x, m1, m2),
        y: impact_1d(v1n.y, v2n.y, m1, m2),
    };
    let v2f = Vec2 {
        x: impact_1d(v2n.x, v1n.x, m2, m1),
        y: impact_1d(v2n.y, v1n.y, m2, m1),
    };
    let overlap = crate::fixed::muldiv64(min_dist - dist, OVERLAP_FIX, SCALE);
    let shift = normal.muldiv(overlap, 2 * SCALE);
    let mut w1 = v1;
    let mut w2 = v2;
    w1.set_position(v1.position.plus(shift));
    w1.set_velocity(v1t.plus(v1f.fixmul(restitution)), dt);
    w2.set_position(v2.position.minus(shift));
    w2.set_velocity(v2t.plus(v2f.fixmul(restitution)), dt);
    (w1, w2)
}

/// The executable wall constraint on one body.
fn wall_constrain(v: Verlet, radius: i64, restitution: i64, dt: i64) -> (r: Verlet)
    requires
        v.wf(),
        1 <= radius <= LIM,
    ensures
        r == wall_one(v, radius, restitution, dt),
        r.wf(),
{
    let d = v.position;
    let dist = d.length();
    if dist > radius - v.radius {
        if dist == 0 {
            return v;
        }
        let n = d.normalized();
        if n.x == 0 && n.y == 0 {
            return v;
        }
        let vel = v.get_velocity();
        proof {
            assert(len_sq(n) >= 1) by (nonlinear_arith)
                requires
                    n.x != 0 || n.y != 0,
                    len_sq(n) == (n.x as int) * (n.x as int) + (n.y as int) * (n.y as int),
            ;
        }
        let vn = vel.project_onto(n);
        let mut w = v;
        w.set_position(n.muldiv(radius - v.radius, SCALE));
        w.set_velocity(vel.minus(vn.dbl()).fixmul(restitution), dt);
        w
    } else {
        v
    }
}

} // verus!

verus! {

impl Solver {
    /// Every body and every parameter sits in the band the arithmetic
    /// covers; the grid and tiling parameters are small enough that index
    /// arithmetic cannot wrap.
    pub open spec fn wf(self) -> bool {
        &&& all_wf(self.verlets@)
        &&& in_lim(self.gravity)
        &&& 1 <= self.constraint_radius <= LIM
        &&& 1 <= self.cell_size <= LIM
        &&& 1 <= self.subdivision <= 1024
        &&& 1 <= self.region_split_x <= 256
        &&& 1 <= self.region_split_y <= 256
        &&& self.grid_size < 0x10000
        &&& 0 <= self.wall_restitution <= SCALE
        &&& 0 <= self.pair_restitution <= SCALE
        &&& events_ok(self.events@, self.verlets@.len() as int)
    }

    /// Build a solver over the given bodies.  The wall starts perfectly
    /// reflective and body-body collisions keep about 93 percent of their
    /// normal velocity; both restitutions are plain fields and can be
    /// reconfigured independently.
    pub fn new(
        verlets: &Vec<Verlet>,
        gravity: Vec2,
        constraint_radius: i64,
        subdivision: usize,
        cell_size: i64,
        region_split: (usize, usize),
        strategy: BroadPhase,
    ) -> (r: Solver)
        requires
            all_wf(verlets@),
            in_lim(gravity),
            1 <= constraint_radius <= LIM,
            1 <= cell_size <= LIM,
            1 <= subdivision <= 1024,
            1 <= region_split.0 <= 256,
            1 <= region_split.1 <= 256,
            2 * constraint_radius / (cell_size as int) < 0x10000,
        ensures
            r.wf(),
            r.verlets@ == verlets@,
            r.gravity == gravity,
            r.constraint_radius == constraint_radius,
            r.subdivision == subdivision,
            r.cell_size == cell_size,
            r.grid_size as int == 2 * constraint_radius / (cell_size as int),
            r.region_split_x == region_split.0,
            r.region_split_y == region_split.1,
            r.strategy == strategy,
            r.wall_restitution == SCALE,
            r.pair_restitution == 952,
            r.color_frames@.len() == 0,
            r.current_frame == 0,
            r.events@.len() == 2 * verlets@.len(),
            events_ok(r.events@, verlets@.len() as int),
            events_fresh(r.events@, verlets@),
            events_sorted(r.events@),
    {
        let n = verlets.len();
        let mut events: Vec<Event> = Vec::new();
        let mut i: usize = 0;
        while i < n
            invariant
                all_wf(verlets@),
                n == verlets@.len(),
                i <= n,
                events@.len() == 2 * i,
                forall|t: int|
                    0 <= t < events@.len() ==> (#[trigger] events@[t]).id == t / 2 && (
                    events@[t].is_end <==> (t % 2 == 1)),
                events_fresh(events@, verlets@),
            decreases n - i,
        {
            proof {
                assert(verlets@[i as int].wf());
            }
            events.push(
                Event { key: verlets[i].position.x - verlets[i].radius, is_end: false, id: i },
            );
            events.push(
                Event { key: verlets[i].position.x + verlets[i].radius, is_end: true, id: i },
            );
            proof {
                assert forall|t: int|
                    0 <= t < events@.len() implies (#[trigger] events@[t]).id == t / 2 && (
                events@[t].is_end <==> (t % 2 == 1)) by {
                    if t == 2 * (i as int) {
                        assert(events@[t].id == i);
                        assert((2 * (i as int)) / 2 == i as int) by (nonlinear_arith);
                        assert((2 * (i as int)) % 2 == 0) by (nonlinear_arith);
                    } else if t == 2 * (i as int) + 1 {
                        assert(events@[t].id == i);
                        assert((2 * (i as int) + 1) / 2 == i as int) by (nonlinear_arith);
                        assert((2 * (i as int) + 1) % 2 == 1) by (nonlinear_arith);
                    }
                }
            }
            i += 1;
        }
        proof {
            let es = events@;
            assert(es.len() == 2 * n);
            assert forall|t: int|
                0 <= t < es.len() implies (#[trigger] es[t]).id < es.len() / 2 by {
                vstd::arithmetic::div_mod::lemma_div_is_ordered(t, es.len() - 1, 2);
                assert((2 * (n as int)) / 2 == n as int) by (nonlinear_arith);
                assert((2 * (n as int) - 1) / 2 == n as int - 1) by (nonlinear_arith);
            }
            assert forall|id: int|
                0 <= id < es.len() / 2 implies #[trigger] crate::broadphase::has_open(es, id) by {
                assert((2 * (n as int)) / 2 == n as int) by (nonlinear_arith);
                assert(0 <= 2 * id < es.len()) by (nonlinear_arith)
                    requires
                        0 <= id < n as int,
                        es.len() == 2 * (n as int),
                ;
                assert((2 * id) / 2 == id && (2 * id) % 2 == 0) by (nonlinear_arith);
                assert(es[2 * id].id == id && !es[2 * id].is_end);
            }
            assert forall|id: int|
                0 <= id < es.len() / 2 implies #[trigger] crate::broadphase::has_close(es, id) by {
                assert((2 * (n as int)) / 2 == n as int) by (nonlinear_arith);
                assert(0 <= 2 * id + 1 < es.len()) by (nonlinear_arith)
                    requires
                        0 <= id < n as int,
                        es.len() == 2 * (n as int),
                ;
                assert((2 * id + 1) / 2 == id && (2 * id + 1) % 2 == 1) by (nonlinear_arith);
                assert(es[2 * id + 1].id == id && es[2 * id + 1].is_end);
            }
            assert forall|t1: int, t2: int|
                0 <= t1 < t2 < es.len() implies !((#[trigger] es[t1]).id == (#[trigger] es[t2]).id
                && es[t1].is_end == es[t2].is_end) by {
                if es[t1].id == es[t2].id && es[t1].is_end == es[t2].is_end {
                    vstd::arithmetic::div_mod::lemma_fundamental_div_mod(t1, 2);
                    vstd::arithmetic::div_mod::lemma_fundamental_div_mod(t2, 2);
                    vstd::arithmetic::div_mod::lemma_mod_bound(t1, 2);
                    vstd::arithmetic::div_mod::lemma_mod_bound(t2, 2);
                }
            }
            assert(events_ok(es, n as int));
        }
        crate::broadphase::sort_events(&mut events, Ghost(verlets@), Ghost(n as int));
        let grid_size = ((2 * constraint_radius) as u64 / (cell_size as u64)) as usize;
        Solver {
            verlets: verlets.clone(),
            gravity,
            constraint_radius,
            events,
            color_frames: Vec::new(),
            current_frame: 0,
            subdivision,
            cell_size,
            grid_size,
            region_split_x: region_split.0,
            region_split_y: region_split.1,
            strategy,
            wall_restitution: SCALE,
            pair_restitution: 952,
        }
    }

    fn apply_gravity(&mut self)
        requires
            old(self).wf(),
        ensures
            final(self).wf(),
            *final(self) == (Solver { verlets: final(self).verlets, ..*old(self) }),
            final(self).verlets@ == gravity_all(old(self).verlets@, old(self).gravity),
    {
        let n = self.verlets.len();
        let mut i: usize = 0;
        while i < n
            invariant
                old(self).wf(),
                *self == (Solver { verlets: self.verlets, ..*old(self) }),
                n == self.verlets@.len(),
                n == old(self).verlets@.len(),
                i <= n,
                all_wf(self.verlets@),
                forall|k: int|
                    0 <= k < i ==> self.verlets@[k] == (#[trigger] old(self).verlets@[k]).with_added_acceleration(
                        old(self).gravity,
                    ),
                forall|k: int| i <= k < n ==> self.verlets@[k] == old(self).verlets@[k],
            decreases n - i,
        {
            proof {
                assert(self.verlets@[i as int].wf());
            }
            let g = self.gravity;
            let mut v = self.verlets[i];
            v.add_acceleration(g);
            self.verlets[i] = v;
            i += 1;
        }
        proof {
            assert(self.verlets@ =~= gravity_all(old(self).verlets@, old(self).gravity));
        }
    }

    fn apply_wall_constraints(&mut self, dt: i64)
        requires
            old(self).wf(),
        ensures
            final(self).wf(),
            *final(self) == (Solver { verlets: final(self).verlets, ..*old(self) }),
            final(self).verlets@ == wall_all(
                old(self).verlets@,
                old(self).constraint_radius,
                old(self).wall_restitution,
                dt,
            ),
    {
        let n = self.verlets.len();
        let mut i: usize = 0;
        while i < n
            invariant
                old(self).wf(),
                *self == (Solver { verlets: self.verlets, ..*old(self) }),
                n == self.verlets@.len(),
                n == old(self).verlets@.len(),
                i <= n,
                all_wf(self.verlets@),
                forall|k: int|
                    0 <= k < i ==> self.verlets@[k] == wall_one(
                        #[trigger] old(self).verlets@[k],
                        old(self).constraint_radius,
                        old(self).wall_restitution,
                        dt,
                    ),
                forall|k: int| i <= k < n ==> self.verlets@[k] == old(self).verlets@[k],
            decreases n - i,
        {
            proof {
                assert(self.verlets@[i as int].wf());
            }
            let radius = self.constraint_radius;
            let restitution = self.wall_restitution;
            let v = self.verlets[i];
            let w = wall_constrain(v, radius, restitution, dt);
            self.verlets[i] = w;
            i += 1;
        }
        proof {
            assert(self.verlets@ =~= wall_all(
                old(self).verlets@,
                old(self).constraint_radius,
                old(self).wall_restitution,
                dt,
            ));
        }
    }

    fn solve_collisions(&mut self, collisions: &Vec<(usize, usize)>, dt: i64)
        requires
            old(self).wf(),
        ensures
            final(self).wf(),
            *final(self) == (Solver { verlets: final(self).verlets, ..*old(self) }),
            final(self).verlets@ == resolve_all(
                old(self).verlets@,
                collisions@,
                old(self).pair_restitution,
                dt,
            ),
    {
        let m = collisions.len();
        let mut k: usize = 0;
        while k < m
            invariant
                old(self).wf(),
                *self == (Solver { verlets: self.verlets, ..*old(self) }),
                m == collisions@.len(),
                k <= m,
                all_wf(self.verlets@),
                self.verlets@.len() == old(self).verlets@.len(),
                self.verlets@ == resolve_all(
                    old(self).verlets@,
                    collisions@.take(k as int),
                    old(self).pair_restitution,
                    dt,
                ),
            decreases m - k,
        {
            let (i, j) = collisions[k];
            let ghost pre = self.verlets@;
            if i < j && j < self.verlets.len() {
                proof {
                    assert(self.verlets@[i as int].wf());
                    assert(self.verlets@[j as int].wf());
                }
                let restitution = self.pair_restitution;
                let v1 = self.verlets[i];
                let v2 = self.verlets[j];
                let rr = resolve_pair(v1, v2, restitution, dt);
                self.verlets[i] = rr.0;
                self.verlets[j] = rr.1;
                proof {
                    assert(self.verlets@ =~= pre.update(i as int, rr.0).update(j as int, rr.1));
                }
            }
            proof {
                assert(self.verlets@ =~= apply_one(
                    pre,
                    collisions@[k as int],
                    old(self).pair_restitution,
                    dt,
                ));
                assert(collisions@.take(k as int + 1).drop_last() =~= collisions@.take(k as int));
                assert(collisions@.take(k as int + 1).last() == collisions@[k as int]);
            }
            k += 1;
        }
        proof {
            assert(collisions@.take(m as int) =~= collisions@);
        }
    }

    fn update_positions(&mut self, dt: i64)
        requires
            old(self).wf(),
            0 <= dt <= LIM,
        ensures
            final(self).wf(),
            *final(self) == (Solver { verlets: final(self).verlets, ..*old(self) }),
            final(self).verlets@ == integrate_all(old(self).verlets@, dt),
    {
        let n = self.verlets.len();
        let mut i: usize = 0;
        while i < n
            invariant
                old(self).wf(),
                0 <= dt <= LIM,
                *self == (Solver { verlets: self.verlets, ..*old(self) }),
                n == self.verlets@.len(),
                n == old(self).verlets@.len(),
                i <= n,
                all_wf(self.verlets@),
                forall|k: int|
                    0 <= k < i ==> self.verlets@[k] == (#[trigger] old(self).verlets@[k]).integrate_spec(
                        dt,
                    ),
                forall|k: int| i <= k < n ==> self.verlets@[k] == old(self).verlets@[k],
            decreases n - i,
        {
            proof {
                assert(self.verlets@[i as int].wf());
            }
            let mut v = self.verlets[i];
            v.update_position(dt);
            self.verlets[i] = v;
            i += 1;
        }
        proof {
            assert(self.verlets@ =~= integrate_all(old(self).verlets@, dt));
        }
    }

    /// The first half of one substep: gravity, then the wall constraint.
    /// After it the caller may compute broad-phase candidates — for
    /// instance by fanning the tiled scan out over worker threads — and
    /// hand them to `finish_substep`.
    pub fn prepare_substep(&mut self, sub_dt: i64)
        requires
            old(self).wf(),
        ensures
            final(self).wf(),
            *final(self) == (Solver { verlets: final(self).verlets, ..*old(self) }),
            final(self).verlets@ == wall_all(
                gravity_all(old(self).verlets@, old(self).gravity),
                old(self).constraint_radius,
                old(self).wall_restitution,
                sub_dt,
            ),
    {
        self.apply_gravity();
        self.apply_wall_constraints(sub_dt);
    }

    /// The second half of one substep: resolve the given candidates in
    /// their given order, then integrate every body.  Run after
    /// `prepare_substep` with candidates matching the configured
    /// strategy, this completes exactly one substep of `update`.
    pub fn finish_substep(&mut self, collisions: &Vec<(usize, usize)>, sub_dt: i64)
        requires
            old(self).wf(),
            0 <= sub_dt <= LIM,
        ensures
            final(self).wf(),
            *final(self) == (Solver { verlets: final(self).verlets, ..*old(self) }),
            final(self).verlets@ == integrate_all(
                resolve_all(
                    old(self).verlets@,
                    collisions@,
                    old(self).pair_restitution,
                    sub_dt,
                ),
                sub_dt,
            ),
    {
        self.solve_collisions(collisions, sub_dt);
        self.update_positions(sub_dt);
    }

    /// One external frame: `subdivision` fixed substeps of length
    /// `dt / subdivision` each.
    pub fn update(&mut self, dt: i64)
        requires
            old(self).wf(),
            0 <= dt <= LIM,
        ensures
            final(self).wf(),
            *final(self) == (Solver {
                verlets: final(self).verlets,
                events: final(self).events,
                ..*old(self)
            }),
            steps_rel(
                old(self).verlets@,
                final(self).verlets@,
                old(self).subdivision as nat,
                old(self).strategy,
                old(self).gravity,
                old(self).constraint_radius,
                old(self).cell_size,
                old(self).grid_size as int,
                old(self).wall_restitution,
                old(self).pair_restitution,
                ((dt as u64) / (old(self).subdivision as u64)) as i64,
            ),
    {
        let sub_dt = ((dt as u64) / (self.subdivision as u64)) as i64;
        proof {
            assert(0 <= (dt as u64) / (self.subdivision as u64) <= dt as u64) by {
                crate::fixed::lemma_div_le_self(dt as u64 as int, self.subdivision as int);
            }
        }
        let steps = self.subdivision;
        let mut s: usize = 0;
        while s < steps
            invariant
                old(self).wf(),
                0 <= sub_dt <= LIM,
                steps == old(self).subdivision,
                s <= steps,
                self.wf(),
                *self == (Solver { verlets: self.verlets, events: self.events, ..*old(self) }),
                steps_rel(
                    old(self).verlets@,
                    self.verlets@,
                    s as nat,
                    old(self).strategy,
                    old(self).gravity,
                    old(self).constraint_radius,
                    old(self).cell_size,
                    old(self).grid_size as int,
                    old(self).wall_restitution,
                    old(self).pair_restitution,
                    sub_dt,
                ),
            decreases steps - s,
        {
            let ghost entry = self.verlets@;
            self.apply_gravity();
            self.apply_wall_constraints(sub_dt);
            let ghost mid = self.verlets@;
            let collisions: Vec<(usize, usize)> = match self.strategy {
                BroadPhase::Naive => naive_pairs(&self.verlets),
                BroadPhase::Sweep => sweep_pairs(&mut self.events, &self.verlets),
                BroadPhase::Grid => {
                    proof {
                        assert((self.grid_size as int) * (self.grid_size as int)
                            <= usize::MAX as int) by (nonlinear_arith)
                            requires
                                0 <= (self.grid_size as int) < 0x10000,
                                usize::MAX as int >= 0xFFFF_FFFF,
                        ;
                    }
                    grid_pairs(&self.verlets, self.constraint_radius, self.cell_size, self.grid_size)
                },
                BroadPhase::ParallelGrid => {
                    proof {
                        assert((self.grid_size as int) * (self.grid_size as int)
                            <= usize::MAX as int && (self.region_split_x as int) * (
                        self.grid_size as int) <= usize::MAX as int && (self.region_split_y as int)
                            * (self.grid_size as int) <= usize::MAX as int) by (nonlinear_arith)
                            requires
                                0 <= (self.grid_size as int) < 0x10000,
                                1 <= (self.region_split_x as int) <= 256,
                                1 <= (self.region_split_y as int) <= 256,
                                usize::MAX as int >= 0xFFFF_FFFF,
                        ;
                    }
                    parallel_grid_pairs(
                        &self.verlets,
                        self.constraint_radius,
                        self.cell_size,
                        self.grid_size,
                        self.region_split_x,
                        self.region_split_y,
                    )
                },
            };
            proof {
                assert(candidates_match(
                    old(self).strategy,
                    collisions@,
                    mid,
                    old(self).constraint_radius,
                    old(self).cell_size,
                    old(self).grid_size as int,
                ));
            }
            self.solve_collisions(&collisions, sub_dt);
            self.update_positions(sub_dt);
            proof {
                lemma_substep_intro(
                    entry,
                    self.verlets@,
                    collisions@,
                    old(self).strategy,
                    old(self).gravity,
                    old(self).constraint_radius,
                    old(self).cell_size,
                    old(self).grid_size as int,
                    old(self).wall_restitution,
                    old(self).pair_restitution,
                    sub_dt,
                );
                lemma_steps_snoc(
                    old(self).verlets@,
                    entry,
                    self.verlets@,
                    s as nat,
                    old(self).strategy,
                    old(self).gravity,
                    old(self).constraint_radius,
                    old(self).cell_size,
                    old(self).grid_size as int,
                    old(self).wall_restitution,
                    old(self).pair_restitution,
                    sub_dt,
                );
            }
            s += 1;
        }
    }
}

} // verus!

verus! {

/// Sum of squared radii over the first `k` bodies, saturated at a huge cap
/// so the comparison below stays total.
pub open spec fn area_budget(vs: Seq<Verlet>, k: int) -> int
    decreases k,
{
    if k <= 0 {
        0
    } else {
        let s = area_budget(vs, k - 1) + (vs[k - 1].radius as int) * (vs[k - 1].radius as int);
        if s > 0x10000000000000000000000000 {
            0x10000000000000000000000000
        } else {
            s
        }
    }
}

impl Solver {
    /// The spawn-throttle heuristic: the container counts as full once the
    /// bodies' total area exceeds nine tenths of the container area.  With
    /// the common factor pi cancelled this is
    /// `10 * sum of r_i^2 > 9 * R^2`.
    pub fn is_container_full(&self) -> (r: bool)
        requires
            self.wf(),
        ensures
            r == (10 * area_budget(self.verlets@, self.verlets@.len() as int) > 9 * (
            self.constraint_radius as int) * (self.constraint_radius as int)),
    {
        let n = self.verlets.len();
        let mut acc: i128 = 0;
        let mut i: usize = 0;
        while i < n
            invariant
                self.wf(),
                n == self.verlets@.len(),
                i <= n,
                0 <= acc <= 0x10000000000000000000000000,
                acc as int == area_budget(self.verlets@, i as int),
            decreases n - i,
        {
            proof {
                assert(self.verlets@[i as int].wf());
                assert(0 <= (self.verlets@[i as int].radius as int) * (
                self.verlets@[i as int].radius as int) <= 0x100000000000000000000000)
                    by (nonlinear_arith)
                    requires
                        1 <= (self.verlets@[i as int].radius as int) <= 0x400000000000,
                ;
            }
            let rad = self.verlets[i].radius;
            let sq = (rad as i128) * (rad as i128);
            let s = acc + sq;
            if s > 0x10000000000000000000000000 {
                acc = 0x10000000000000000000000000;
            } else {
                acc = s;
            }
            i += 1;
        }
        proof {
            assert(0 <= 9 * (self.constraint_radius as i128) * (self.constraint_radius as i128)
                < 0x10000000000000000000000000 && 9 * ((self.constraint_radius as int) * (
            self.constraint_radius as int)) == 9 * (self.constraint_radius as int) * (
            self.constraint_radius as int)) by (nonlinear_arith)
                requires
                    1 <= (self.constraint_radius as int) <= 0x400000000000,
                    self.constraint_radius as i128 == self.constraint_radius as int,
            ;
        }
        let total = 10 * acc;
        let budget = 9 * (self.constraint_radius as i128) * (self.constraint_radius as i128);
        total > budget
    }

    pub fn get_positions(&self) -> (r: Vec<Vec2>)
        ensures
            r@.len() == self.verlets@.len(),
            forall|k: int| 0 <= k < r@.len() ==> r@[k] == (#[trigger] self.verlets@[k]).position,
    {
        let n = self.verlets.len();
        let mut out: Vec<Vec2> = Vec::new();
        let mut i: usize = 0;
        while i < n
            invariant
                n == self.verlets@.len(),
                i <= n,
                out@.len() == i,
                forall|k: int| 0 <= k < i ==> out@[k] == (#[trigger] self.verlets@[k]).position,
            decreases n - i,
        {
            out.push(self.verlets[i].position);
            i += 1;
        }
        out
    }

    /// Append one body, stamping the next stored color frame onto it if
    /// any remain.
    pub fn add_position(&mut self, verlet: Verlet)
        requires
            old(self).wf(),
            verlet.wf(),
        ensures
            final(self).wf(),
            *final(self) == (Solver {
                verlets: final(self).verlets,
                current_frame: final(self).current_frame,
                ..*old(self)
            }),
            if old(self).color_frames@.len() > 0 && old(self).current_frame < old(self).color_frames@.len() {
                final(self).verlets@ == old(self).verlets@.push(
                    Verlet {
                        color: old(self).color_frames@[old(self).current_frame as int],
                        ..verlet
                    },
                ) && final(self).current_frame == old(self).current_frame + 1
            } else {
                final(self).verlets@ == old(self).verlets@.push(verlet) && final(self).current_frame == old(self).current_frame
            },
    {
        let mut v = verlet;
        if self.color_frames.len() > 0 && self.current_frame < self.color_frames.len() {
            v.set_color(self.color_frames[self.current_frame]);
            self.current_frame = self.current_frame + 1;
        }
        self.verlets.push(v);
        proof {
            assert forall|t: int|
                0 <= t < self.events@.len() implies (#[trigger] self.events@[t]).id
                < self.events@.len() / 2 by {}
        }
    }

    /// Append several bodies; each is stamped with the next stored color
    /// frame, in order, while frames remain, exactly as `add_position`
    /// stamps one.
    pub fn add_positions(&mut self, verlets: &Vec<Verlet>)
        requires
            old(self).wf(),
            all_wf(verlets@),
        ensures
            final(self).wf(),
            *final(self) == (Solver {
                verlets: final(self).verlets,
                current_frame: final(self).current_frame,
                ..*old(self)
            }),
            final(self).verlets@.len() == old(self).verlets@.len() + verlets@.len(),
            forall|k: int|
                0 <= k < old(self).verlets@.len() ==> final(self).verlets@[k] == (#[trigger] old(
                    self,
                ).verlets@[k]),
            forall|k: int|
                0 <= k < verlets@.len() ==> final(self).verlets@[old(self).verlets@.len() + k] == (
                Verlet {
                    color: (if old(self).color_frames@.len() > 0 && old(self).current_frame + k
                        < old(self).color_frames@.len() {
                        old(self).color_frames@[old(self).current_frame + k]
                    } else {
                        verlets@[k].color
                    }),
                    ..(#[trigger] verlets@[k])
                }),
            final(self).current_frame as int == (if old(self).color_frames@.len() > 0 && (old(
                self,
            ).current_frame as int) < old(self).color_frames@.len() {
                if old(self).current_frame + verlets@.len() <= old(self).color_frames@.len() {
                    old(self).current_frame + verlets@.len()
                } else {
                    old(self).color_frames@.len() as int
                }
            } else {
                old(self).current_frame as int
            }),
    {
        let n = verlets.len();
        let mut i: usize = 0;
        while i < n
            invariant
                old(self).wf(),
                all_wf(verlets@),
                n == verlets@.len(),
                i <= n,
                self.wf(),
                *self == (Solver {
                    verlets: self.verlets,
                    current_frame: self.current_frame,
                    ..*old(self)
                }),
                self.verlets@.len() == old(self).verlets@.len() + i,
                forall|k: int|
                    0 <= k < old(self).verlets@.len() ==> self.verlets@[k] == (#[trigger] old(
                        self,
                    ).verlets@[k]),
                forall|k: int|
                    0 <= k < i ==> self.verlets@[old(self).verlets@.len() + k] == (Verlet {
                        color: (if old(self).color_frames@.len() > 0 && old(self).current_frame + k
                            < old(self).color_frames@.len() {
                            old(self).color_frames@[old(self).current_frame + k]
                        } else {
                            verlets@[k].color
                        }),
                        ..(#[trigger] verlets@[k])
                    }),
                self.current_frame as int == (if old(self).color_frames@.len() > 0 && (old(
                    self,
                ).current_frame as int) < old(self).color_frames@.len() {
                    if old(self).current_frame + i <= old(self).color_frames@.len() {
                        old(self).current_frame + i
                    } else {
                        old(self).color_frames@.len() as int
                    }
                } else {
                    old(self).current_frame as int
                }),
            decreases n - i,
        {
            proof {
                assert(verlets@[i as int].wf());
            }
            self.add_position(verlets[i]);
            i += 1;
        }
    }

    /// A read-only view of the bodies, for rendering.
    pub fn get_verlets(&self) -> (r: &Vec<Verlet>)
        ensures
            r@ == self.verlets@,
    {
        &self.verlets
    }

    /// Normalize with an explicit guard: vectors shorter than one quantum
    /// come back as zero instead of blowing up.
    pub fn deterministic_normalize(&self, vec: Vec2) -> (r: Vec2)
        requires
            in_lim(vec),
        ensures
            r == (if vlen(vec) >= 1 {
                vnorm(vec)
            } else {
                vzero()
            }),
    {
        let l = vec.length();
        if l >= 1 {
            vec.normalized()
        } else {
            Vec2::zero()
        }
    }

    /// The exact all-pairs strategy, emitted in lexicographic order.
    pub fn find_collisions_loop(&self) -> (out: Vec<(usize, usize)>)
        requires
            self.wf(),
        ensures
            valid_pairs(out@, self.verlets@.len() as int),
            no_dup_pairs(out@),
            lex_sorted(out@),
            forall|a: usize, b: usize|
                #![trigger out@.contains((a, b))]
                a < b < self.verlets@.len() ==> (out@.contains((a, b)) <==> overlapping(
                    self.verlets@,
                    a as int,
                    b as int,
                )),
    {
        naive_pairs(&self.verlets)
    }

    /// The sweep strategy over the persistent event list: every pair
    /// whose x-extents strictly overlap is emitted, every emitted pair's
    /// x-extents at least touch, no pair is emitted twice, and the event
    /// list is left with two fresh, sorted edge events per body.
    pub fn find_collisions_sort_sweep(&mut self) -> (out: Vec<(usize, usize)>)
        requires
            old(self).wf(),
        ensures
            final(self).wf(),
            *final(self) == (Solver { events: final(self).events, ..*old(self) }),
            final(self).events@.len() == 2 * old(self).verlets@.len(),
            events_sorted(final(self).events@),
            events_fresh(final(self).events@, old(self).verlets@),
            valid_pairs(out@, old(self).verlets@.len() as int),
            no_dup_pairs(out@),
            sweep_sound(out@, old(self).verlets@),
            sweep_complete(out@, old(self).verlets@),
    {
        sweep_pairs(&mut self.events, &self.verlets)
    }

    /// The uniform-grid strategy.
    pub fn find_collisions_space_partitioning(&self) -> (out: Vec<(usize, usize)>)
        requires
            self.wf(),
        ensures
            valid_pairs(out@, self.verlets@.len() as int),
            no_dup_pairs(out@),
            forall|a: usize, b: usize|
                #![trigger out@.contains((a, b))]
                a < b ==> (out@.contains((a, b)) <==> grid_pair(
                    self.verlets@,
                    self.constraint_radius,
                    self.cell_size,
                    self.grid_size as int,
                    a as int,
                    b as int,
                )),
    {
        proof {
            assert((self.grid_size as int) * (self.grid_size as int) <= usize::MAX as int)
                by (nonlinear_arith)
                requires
                    0 <= (self.grid_size as int) < 0x10000,
                    usize::MAX as int >= 0xFFFF_FFFF,
            ;
        }
        grid_pairs(&self.verlets, self.constraint_radius, self.cell_size, self.grid_size)
    }

    /// The tiled grid strategy, the sequential core of the parallel fan
    /// out: identical output set to the plain grid strategy.
    pub fn find_collisions_space_partitioning_parallel(&self) -> (out: Vec<(usize, usize)>)
        requires
            self.wf(),
        ensures
            valid_pairs(out@, self.verlets@.len() as int),
            no_dup_pairs(out@),
            forall|a: usize, b: usize|
                #![trigger out@.contains((a, b))]
                a < b ==> (out@.contains((a, b)) <==> grid_pair(
                    self.verlets@,
                    self.constraint_radius,
                    self.cell_size,
                    self.grid_size as int,
                    a as int,
                    b as int,
                )),
    {
        proof {
            assert((self.grid_size as int) * (self.grid_size as int) <= usize::MAX as int && (
            self.region_split_x as int) * (self.grid_size as int) <= usize::MAX as int && (
            self.region_split_y as int) * (self.grid_size as int) <= usize::MAX as int)
                by (nonlinear_arith)
                requires
                    0 <= (self.grid_size as int) < 0x10000,
                    1 <= (self.region_split_x as int) <= 256,
                    1 <= (self.region_split_y as int) <= 256,
                    usize::MAX as int >= 0xFFFF_FFFF,
            ;
        }
        parallel_grid_pairs(
            &self.verlets,
            self.constraint_radius,
            self.cell_size,
            self.grid_size,
            self.region_split_x,
            self.region_split_y,
        )
    }
}

} // verus!

verus! {

/// Chained truncating divisions only lose magnitude: the clamped value of
/// `tdiv(a, b)` is bounded by `m / b` whenever `|a| <= m`.
proof fn lemma_abs_chain(a: int, b: int, m: int) -> (q: int)
    requires
        b >= 1,
        m >= 0,
        -m <= a <= m,
    ensures
        q == m / b,
        0 <= q,
        -q <= clamped(tdiv(a, b)) <= q,
        q * b <= m,
{
    crate::fixed::lemma_tdiv_abs_le(a, b, m);
    crate::fixed::lemma_tdiv_mul_le(m, b);
    m / b
}

/// The wall pass leaves a body within one quantum of the allowed disc:
/// after it, `distance(position, center) <= R - r + 1` in the exact
/// squared form below.
pub proof fn lemma_wall_bound(v: Verlet, radius: i64, restitution: i64, dt: i64)
    requires
        v.wf(),
        1 <= v.radius < radius <= LIM,
    ensures
        len_sq(wall_one(v, radius, restitution, dt).position) <= (radius - v.radius + 1) * (
        radius - v.radius + 1),
{
    let d = v.position;
    let dist = vlen(d);
    let k = radius - v.radius;
    let x = d.x as int;
    let y = d.y as int;
    let s = SCALE as int;
    crate::vec2::lemma_len_dominates(d);
    assert((d.x as int) * (d.x as int) >= 0) by (nonlinear_arith);
    assert((d.y as int) * (d.y as int) >= 0) by (nonlinear_arith);
    crate::fixed::lemma_sqrt_floor(len_sq(d));
    assert(is_sqrt(len_sq(d), dist));
    if dist <= k {
        let w = wall_one(v, radius, restitution, dt);
        assert(w.position == d);
        assert(len_sq(d) < (dist + 1) * (dist + 1));
        assert((dist + 1) * (dist + 1) <= (k + 1) * (k + 1)) by (nonlinear_arith)
            requires
                0 <= dist <= k,
        ;
    } else {
        crate::vec2::lemma_vnorm_nonzero(d);
        let n = vnorm(d);
        let w = wall_one(v, radius, restitution, dt);
        assert(w.position == vmuldiv(n, k as int, s));
        let ax = if x >= 0 { x } else { -x };
        let ay = if y >= 0 { y } else { -y };
        // the normalized components are bounded by |component| * SCALE / dist
        let qx = lemma_abs_chain(x * s, dist, ax * s);
        let qy = lemma_abs_chain(y * s, dist, ay * s);
        assert(-(ax * s) <= x * s <= ax * s && -(ay * s) <= y * s <= ay * s) by (nonlinear_arith)
            requires
                ax >= 0 && (x == ax || x == -ax),
                ay >= 0 && (y == ay || y == -ay),
                s >= 1,
        ;
        assert(-qx <= n.x as int <= qx);
        assert(-qy <= n.y as int <= qy);
        // the scaled-back components are bounded by |n| * k / SCALE
        assert(-(qx * k) <= (n.x as int) * k <= qx * k && -(qy * k) <= (n.y as int) * k <= qy * k)
            by (nonlinear_arith)
            requires
                -qx <= n.x as int <= qx,
                -qy <= n.y as int <= qy,
                k >= 1,
                qx >= 0,
                qy >= 0,
        ;
        let px = lemma_abs_chain((n.x as int) * k, s, qx * k);
        let py = lemma_abs_chain((n.y as int) * k, s, qy * k);
        assert(w.position.x as int == clamped(tdiv((n.x as int) * k, s)));
        assert(w.position.y as int == clamped(tdiv((n.y as int) * k, s)));
        // px * dist <= ax * k, chaining the two division losses
        assert(px * s * dist <= ax * s * k && py * s * dist <= ay * s * k) by (nonlinear_arith)
            requires
                px * s <= qx * k,
                py * s <= qy * k,
                qx * dist <= ax * s,
                qy * dist <= ay * s,
                px >= 0,
                py >= 0,
                qx >= 0,
                qy >= 0,
                s >= 1,
                k >= 1,
                dist >= 1,
        ;
        assert(px * dist <= ax * k && py * dist <= ay * k) by (nonlinear_arith)
            requires
                px * s * dist <= ax * s * k,
                py * s * dist <= ay * s * k,
                s >= 1,
        ;
        // sum the squares and cancel dist^2
        assert(len_sq(d) == ax * ax + ay * ay) by (nonlinear_arith)
            requires
                len_sq(d) == x * x + y * y,
                (x == ax || x == -ax) && (y == ay || y == -ay),
        ;
        assert(ax * ax + ay * ay < (dist + 1) * (dist + 1));
        let wx = w.position.x as int;
        let wy = w.position.y as int;
        assert(wx * wx <= px * px && wy * wy <= py * py) by (nonlinear_arith)
            requires
                -px <= wx <= px,
                -py <= wy <= py,
        ;
        assert((px * dist) * (px * dist) <= (ax * k) * (ax * k) && (py * dist) * (py * dist) <= (
        ay * k) * (ay * k)) by (nonlinear_arith)
            requires
                0 <= px * dist <= ax * k,
                0 <= py * dist <= ay * k,
        ;
        assert((px * px + py * py) * (dist * dist) == (px * dist) * (px * dist) + (py * dist) * (
        py * dist)) by (nonlinear_arith);
        assert((ax * k) * (ax * k) + (ay * k) * (ay * k) == (ax * ax + ay * ay) * (k * k))
            by (nonlinear_arith);
        assert((ax * ax + ay * ay) * (k * k) <= ((dist + 1) * (dist + 1)) * (k * k))
            by (nonlinear_arith)
            requires
                ax * ax + ay * ay <= (dist + 1) * (dist + 1),
        ;
        assert(k * (dist + 1) <= (k + 1) * dist) by (nonlinear_arith)
            requires
                1 <= k < dist,
        ;
        assert(((dist + 1) * (dist + 1)) * (k * k) == (k * (dist + 1)) * (k * (dist + 1)))
            by (nonlinear_arith);
        assert((k * (dist + 1)) * (k * (dist + 1)) <= ((k + 1) * dist) * ((k + 1) * dist))
            by (nonlinear_arith)
            requires
                0 <= k * (dist + 1) <= (k + 1) * dist,
        ;
        assert(((k + 1) * dist) * ((k + 1) * dist) == ((k + 1) * (k + 1)) * (dist * dist))
            by (nonlinear_arith);
        assert((wx * wx + wy * wy) * (dist * dist) <= (px * px + py * py) * (dist * dist))
            by (nonlinear_arith)
            requires
                wx * wx + wy * wy <= px * px + py * py,
                dist >= 1,
        ;
        assert(wx * wx + wy * wy <= (k + 1) * (k + 1)) by (nonlinear_arith)
            requires
                (wx * wx + wy * wy) * (dist * dist) <= ((k + 1) * (k + 1)) * (dist * dist),
                dist >= 1,
        ;
        assert(len_sq(w.position) == wx * wx + wy * wy);
    }
}

/// Boundary invariant: immediately after the wall pass, every body whose
/// radius fits in the container sits within one quantum of the allowed
/// disc around the center.
pub proof fn lemma_boundary_invariant(
    vs: Seq<Verlet>,
    radius: i64,
    restitution: i64,
    dt: i64,
    k: int,
)
    requires
        all_wf(vs),
        1 <= radius <= LIM,
        0 <= k < vs.len(),
        vs[k].radius < radius,
    ensures
        len_sq(wall_all(vs, radius, restitution, dt)[k].position) <= (radius - vs[k].radius + 1) * (
        radius - vs[k].radius + 1),
{
    assert(vs[k].wf());
    lemma_wall_bound(vs[k], radius, restitution, dt);
    assert(wall_all(vs, radius, restitution, dt)[k] == wall_one(vs[k], radius, restitution, dt));
}

} // verus!

verus! {

/// The seven rainbow stops, bottom to top.
fn palette(i: usize) -> Color {
    match i {
        0 => Color { r: 255, g: 0, b: 0, a: 255 },
        1 => Color { r: 255, g: 127, b: 0, a: 255 },
        2 => Color { r: 255, g: 255, b: 0, a: 255 },
        3 => Color { r: 0, g: 255, b: 0, a: 255 },
        4 => Color { r: 0, g: 0, b: 255, a: 255 },
        5 => Color { r: 75, g: 0, b: 130, a: 255 },
        _ => Color { r: 148, g: 0, b: 211, a: 255 },
    }
}

/// One interpolated color channel.
fn blend(a: u8, b: u8, t: u128, total: u128) -> u8
    requires
        1 <= total <= 0x1_0000_0000_0000_0000,
        t <= total,
{
    proof {
        assert(255 * (t as int) < 0x100000000000000000000000000000000) by (nonlinear_arith)
            requires
                0 <= (t as int) <= 0x1_0000_0000_0000_0000,
        ;
        assert(forall|d: int| 0 <= d <= 255 ==> #[trigger] (d * (t as int)) <= 255 * (t as int))
            by (nonlinear_arith);
    }
    if b >= a {
        let q = ((b - a) as u128) * t / total;
        let qq: u8 = if q > 255 {
            255
        } else {
            q as u8
        };
        let c: u16 = (a as u16) + (qq as u16);
        if c > 255 {
            255
        } else {
            c as u8
        }
    } else {
        let q = ((a - b) as u128) * t / total;
        let qq: u8 = if q > 255 {
            255
        } else {
            q as u8
        };
        if qq > a {
            0
        } else {
            a - qq
        }
    }
}

impl Solver {
    /// Tint the bodies in a rainbow by height: the physics state is left
    /// untouched, and every body receives a fresh opaque palette color.
    /// Which palette blend lands on which body — the seven stops
    /// interpolated by descending-height rank — is deliberately left out
    /// of the contract: the mapping is cosmetic and feeds nothing
    /// downstream.
    pub fn apply_rainbow_gradient(&mut self)
        requires
            old(self).wf(),
        ensures
            final(self).wf(),
            *final(self) == (Solver { verlets: final(self).verlets, ..*old(self) }),
            final(self).verlets@.len() == old(self).verlets@.len(),
            forall|k: int|
                0 <= k < final(self).verlets@.len() ==> final(self).verlets@[k] == (Verlet {
                    color: final(self).verlets@[k].color,
                    ..(#[trigger] old(self).verlets@[k])
                }),
            forall|k: int|
                0 <= k < final(self).verlets@.len() ==> (#[trigger] final(self).verlets@[k]).color.a
                    == 255,
    {
        let n = self.verlets.len();
        if n == 0 {
            return ;
        }
        let mut order: Vec<usize> = Vec::new();
        let mut i: usize = 0;
        while i < n
            invariant
                i <= n,
                order@.len() == i,
                forall|k: int| 0 <= k < order@.len() ==> (#[trigger] order@[k]) < n,
                forall|v: usize| v < i ==> order@.contains(v),
            decreases n - i,
        {
            let ghost pre = order@;
            order.push(i);
            proof {
                assert forall|v: usize| v < i + 1 implies order@.contains(v) by {
                    if v < i {
                        assert(pre.contains(v));
                        let k0 = choose|k0: int| 0 <= k0 < pre.len() && pre[k0] == v;
                        assert(order@[k0] == v);
                    } else {
                        assert(order@[order@.len() - 1] == i);
                    }
                }
            }
            i += 1;
        }
        // insertion sort, tallest first
        let mut s: usize = 1;
        while s < n
            invariant
                old(self).wf(),
                *self == *old(self),
                n == self.verlets@.len(),
                s <= n,
                order@.len() == n,
                forall|k: int| 0 <= k < order@.len() ==> (#[trigger] order@[k]) < n,
                forall|v: usize| v < n ==> order@.contains(v),
            decreases n - s,
        {
            let mut j: usize = s;
            while j >= 1
                invariant
                    old(self).wf(),
                    *self == *old(self),
                    n == self.verlets@.len(),
                    j <= s < n,
                    order@.len() == n,
                    forall|k: int| 0 <= k < order@.len() ==> (#[trigger] order@[k]) < n,
                    forall|v: usize| v < n ==> order@.contains(v),
                decreases j,
            {
                let a = order[j - 1];
                let b = order[j];
                if self.verlets[a].position.y >= self.verlets[b].position.y {
                    break ;
                }
                let ghost pre = order@;
                order[j - 1] = b;
                order[j] = a;
                proof {
                    assert forall|v: usize| v < n implies order@.contains(v) by {
                        assert(pre.contains(v));
                        let k0 = choose|k0: int| 0 <= k0 < pre.len() && pre[k0] == v;
                        if k0 == j - 1 {
                            assert(order@[j as int] == v);
                        } else if k0 == j as int {
                            assert(order@[j as int - 1] == v);
                        } else {
                            assert(order@[k0] == v);
                        }
                    }
                }
                j -= 1;
            }
            s += 1;
        }
        let mut k: usize = 0;
        while k < n
            invariant
                old(self).wf(),
                *self == (Solver { verlets: self.verlets, ..*old(self) }),
                n == old(self).verlets@.len(),
                n == self.verlets@.len(),
                n >= 1,
                k <= n,
                order@.len() == n,
                forall|t: int| 0 <= t < order@.len() ==> (#[trigger] order@[t]) < n,
                forall|v: usize| v < n ==> order@.contains(v),
                all_wf(self.verlets@),
                forall|t: int|
                    0 <= t < n ==> self.verlets@[t] == (Verlet {
                        color: self.verlets@[t].color,
                        ..(#[trigger] old(self).verlets@[t])
                    }),
                forall|k2: int|
                    0 <= k2 < k ==> (#[trigger] self.verlets@[order@[k2] as int]).color.a == 255,
            decreases n - k,
        {
            let idx = order[k];
            let ci0 = ((k as u128) * 6) / (n as u128);
            let ci: usize = if ci0 > 6 {
                6
            } else {
                ci0 as usize
            };
            let next = if ci + 1 < 7 {
                ci + 1
            } else {
                6
            };
            let t = ((k as u128) * 6) % (n as u128);
            let start = palette(ci);
            let stop = palette(next);
            let color = Color {
                r: blend(start.r, stop.r, t, n as u128),
                g: blend(start.g, stop.g, t, n as u128),
                b: blend(start.b, stop.b, t, n as u128),
                a: 255,
            };
            let mut v = self.verlets[idx];
            v.set_color(color);
            self.verlets[idx] = v;
            k += 1;
        }
        proof {
            assert forall|t: int|
                0 <= t < self.verlets@.len() implies (#[trigger] self.verlets@[t]).color.a
                == 255 by {
                assert(order@.contains(t as usize));
                let k2 = choose|k2: int| 0 <= k2 < order@.len() && order@[k2] == t as usize;
                assert(self.verlets@[order@[k2] as int].color.a == 255);
            }
        }
    }

    /// The bodies' colors, in index order: what the color blob stores.
    pub fn collect_colors(&self) -> (r: Vec<Color>)
        ensures
            r@.len() == self.verlets@.len(),
            forall|k: int| 0 <= k < r@.len() ==> r@[k] == (#[trigger] self.verlets@[k]).color,
    {
        let n = self.verlets.len();
        let mut out: Vec<Color> = Vec::new();
        let mut i: usize = 0;
        while i < n
            invariant
                n == self.verlets@.len(),
                i <= n,
                out@.len() == i,
                forall|k: int| 0 <= k < i ==> out@[k] == (#[trigger] self.verlets@[k]).color,
            decreases n - i,
        {
            out.push(self.verlets[i].color);
            i += 1;
        }
        out
    }

    /// Install a loaded color sequence: it becomes the stamp queue for
    /// future spawns, and the leading colors are stamped onto the existing
    /// bodies in index order, one frame per body while frames remain; the
    /// physics state is untouched.
    pub fn apply_color_frames(&mut self, colors: Vec<Color>)
        requires
            old(self).wf(),
        ensures
            final(self).wf(),
            *final(self) == (Solver {
                verlets: final(self).verlets,
                color_frames: final(self).color_frames,
                current_frame: final(self).current_frame,
                ..*old(self)
            }),
            final(self).color_frames@ == colors@,
            final(self).verlets@.len() == old(self).verlets@.len(),
            forall|k: int|
                0 <= k < final(self).verlets@.len() ==> final(self).verlets@[k] == (Verlet {
                    color: (if k < colors@.len() {
                        colors@[k]
                    } else {
                        old(self).verlets@[k].color
                    }),
                    ..(#[trigger] old(self).verlets@[k])
                }),
            final(self).current_frame == (if old(self).verlets@.len() <= colors@.len() {
                old(self).verlets@.len() as int
            } else {
                colors@.len() as int
            }),
    {
        self.color_frames = colors;
        self.current_frame = 0;
        let n = self.verlets.len();
        let mut i: usize = 0;
        while i < n
            invariant
                old(self).wf(),
                *self == (Solver {
                    verlets: self.verlets,
                    color_frames: self.color_frames,
                    current_frame: self.current_frame,
                    ..*old(self)
                }),
                n == old(self).verlets@.len(),
                n == self.verlets@.len(),
                i <= n,
                self.color_frames@ == colors@,
                self.current_frame as int == (if i <= colors@.len() {
                    i as int
                } else {
                    colors@.len() as int
                }),
                all_wf(self.verlets@),
                forall|k: int|
                    0 <= k < i ==> self.verlets@[k] == (Verlet {
                        color: (if k < colors@.len() {
                            colors@[k]
                        } else {
                            old(self).verlets@[k].color
                        }),
                        ..(#[trigger] old(self).verlets@[k])
                    }),
                forall|k: int| i <= k < n ==> self.verlets@[k] == #[trigger] old(self).verlets@[k],
            decreases n - i,
        {
            if self.current_frame < self.color_frames.len() {
                let c = self.color_frames[self.current_frame];
                let mut v = self.verlets[i];
                v.set_color(c);
                self.verlets[i] = v;
                self.current_frame = self.current_frame + 1;
            }
            i += 1;
        }
    }
}

} // verus!
