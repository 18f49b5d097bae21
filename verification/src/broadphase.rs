//! Broad-phase candidate search.
//!
//! Four interchangeable strategies produce candidate index pairs `(i, j)`
//! with `i < j`: an exact all-pairs scan, a sweep along the x axis over a
//! persistent event list, a uniform grid, and a tiled variant of the grid
//! whose per-tile scans can be dispatched to worker threads.  The grid and
//! tiled strategies emit exactly the same set of pairs and never emit a
//! pair twice; every truly overlapping pair is emitted by all four.

use crate::fixed::{clamped, LIM};
use crate::vec2::{in_lim, vlen, vminus};
use crate::verlet::Verlet;
use vstd::prelude::*;

verus! {

/// Every body in the sequence is well-formed.
pub open spec fn all_wf(vs: Seq<Verlet>) -> bool {
    forall|i: int| 0 <= i < vs.len() ==> (#[trigger] vs[i]).wf()
}

/// The two discs at `i` and `j` genuinely overlap: their center distance is
/// below the sum of their radii.
pub open spec fn overlapping(vs: Seq<Verlet>, i: int, j: int) -> bool {
    vlen(vminus(vs[i].position, vs[j].position)) < vs[i].radius + vs[j].radius
}

/// Every entry is an ordered in-range index pair.
pub open spec fn valid_pairs(ps: Seq<(usize, usize)>, n: int) -> bool {
    forall|t: int| 0 <= t < ps.len() ==> (#[trigger] ps[t]).0 < ps[t].1 < n
}

/// Every genuinely overlapping pair appears among the candidates.
pub open spec fn pairs_complete(ps: Seq<(usize, usize)>, vs: Seq<Verlet>) -> bool {
    forall|a: usize, b: usize|
        #![trigger overlapping(vs, a as int, b as int)]
        a < b < vs.len() && overlapping(vs, a as int, b as int) ==> ps.contains((a, b))
}

/// No entry appears twice.
pub open spec fn no_dup_pairs(ps: Seq<(usize, usize)>) -> bool {
    forall|t1: int, t2: int| 0 <= t1 < t2 < ps.len() ==> ps[t1] != ps[t2]
}

/// Entries come in strictly increasing lexicographic order.
pub open spec fn lex_sorted(ps: Seq<(usize, usize)>) -> bool {
    forall|t1: int, t2: int|
        0 <= t1 < t2 < ps.len() ==> ((#[trigger] ps[t1]).0 < (#[trigger] ps[t2]).0 || (ps[t1].0
            == ps[t2].0 && ps[t1].1 < ps[t2].1))
}

/// A strictly lexicographically sorted candidate list is determined by its
/// member set, so a strategy whose membership and order are both pinned is
/// a function of the particle configuration.
pub proof fn lemma_lex_sorted_unique(ps1: Seq<(usize, usize)>, ps2: Seq<(usize, usize)>)
    requires
        lex_sorted(ps1),
        lex_sorted(ps2),
        forall|y: (usize, usize)| ps1.contains(y) <==> #[trigger] ps2.contains(y),
    ensures
        ps1 == ps2,
    decreases ps1.len(),
{
    if ps1.len() == 0 {
        if ps2.len() > 0 {
            assert(ps2.contains(ps2[0]));
            assert(ps1.contains(ps2[0]));
        }
        assert(ps1 =~= ps2);
    } else if ps2.len() == 0 {
        assert(ps1.contains(ps1[0]));
        assert(ps2.contains(ps1[0]));
    } else {
        assert(ps1[0] == ps2[0]) by {
            assert(ps1.contains(ps1[0]));
            assert(ps2.contains(ps1[0]));
            let k = choose|k: int| 0 <= k < ps2.len() && ps2[k] == ps1[0];
            assert(ps2.contains(ps2[0]));
            assert(ps1.contains(ps2[0]));
            let k2 = choose|k2: int| 0 <= k2 < ps1.len() && ps1[k2] == ps2[0];
            if k > 0 && k2 > 0 {
                assert(ps2[0].0 < ps2[k].0 || (ps2[0].0 == ps2[k].0 && ps2[0].1 < ps2[k].1));
                assert(ps1[0].0 < ps1[k2].0 || (ps1[0].0 == ps1[k2].0 && ps1[0].1 < ps1[k2].1));
            }
        }
        let t1 = ps1.drop_first();
        let t2 = ps2.drop_first();
        assert forall|y: (usize, usize)| t1.contains(y) <==> #[trigger] t2.contains(y) by {
            assert forall|y2: (usize, usize)| #[trigger]
                t1.contains(y2) <==> (ps1.contains(y2) && y2 != ps1[0]) by {
                if t1.contains(y2) {
                    let q = choose|q: int| 0 <= q < t1.len() && t1[q] == y2;
                    assert(ps1[q + 1] == y2);
                    assert(ps1.contains(y2));
                }
                if ps1.contains(y2) && y2 != ps1[0] {
                    let q = choose|q: int| 0 <= q < ps1.len() && ps1[q] == y2;
                    assert(q > 0);
                    assert(t1[q - 1] == y2);
                    assert(t1.contains(y2));
                }
            }
            assert forall|y2: (usize, usize)| #[trigger]
                t2.contains(y2) <==> (ps2.contains(y2) && y2 != ps2[0]) by {
                if t2.contains(y2) {
                    let q = choose|q: int| 0 <= q < t2.len() && t2[q] == y2;
                    assert(ps2[q + 1] == y2);
                    assert(ps2.contains(y2));
                }
                if ps2.contains(y2) && y2 != ps2[0] {
                    let q = choose|q: int| 0 <= q < ps2.len() && ps2[q] == y2;
                    assert(q > 0);
                    assert(t2[q - 1] == y2);
                    assert(t2.contains(y2));
                }
            }
        }
        assert(lex_sorted(t1)) by {
            assert forall|q1: int, q2: int|
                0 <= q1 < q2 < t1.len() implies ((#[trigger] t1[q1]).0 < (#[trigger] t1[q2]).0 || (
            t1[q1].0 == t1[q2].0 && t1[q1].1 < t1[q2].1)) by {
                assert(t1[q1] == ps1[q1 + 1] && t1[q2] == ps1[q2 + 1]);
            }
        }
        assert(lex_sorted(t2)) by {
            assert forall|q1: int, q2: int|
                0 <= q1 < q2 < t2.len() implies ((#[trigger] t2[q1]).0 < (#[trigger] t2[q2]).0 || (
            t2[q1].0 == t2[q2].0 && t2[q1].1 < t2[q2].1)) by {
                assert(t2[q1] == ps2[q1 + 1] && t2[q2] == ps2[q2 + 1]);
            }
        }
        lemma_lex_sorted_unique(t1, t2);
        assert(ps1.len() == ps2.len());
        assert forall|q: int| 0 <= q < ps1.len() implies ps1[q] == ps2[q] by {
            if q > 0 {
                assert(ps1[q] == t1[q - 1]);
                assert(ps2[q] == t2[q - 1]);
            }
        }
        assert(ps1 =~= ps2);
    }
}

pub proof fn lemma_contains_push<T>(s: Seq<T>, x: T, y: T)
    ensures
        s.push(x).contains(y) <==> (s.contains(y) || x == y),
{
    if s.contains(y) {
        let idx = choose|idx: int| 0 <= idx < s.len() && s[idx] == y;
        assert(s.push(x)[idx] == y);
    }
    if x == y {
        assert(s.push(x)[s.len() as int] == y);
    }
    if s.push(x).contains(y) {
        let idx = choose|idx: int| 0 <= idx < s.push(x).len() && s.push(x)[idx] == y;
        if idx < s.len() {
            assert(s[idx] == y);
        }
    }
}

/// The exact `O(n^2)` strategy: a candidate is emitted exactly when the two
/// discs genuinely overlap, so this is the reference the other strategies
/// are measured against.
pub fn naive_pairs(vs: &Vec<Verlet>) -> (out: Vec<(usize, usize)>)
    requires
        all_wf(vs@),
    ensures
        valid_pairs(out@, vs@.len() as int),
        no_dup_pairs(out@),
        lex_sorted(out@),
        forall|a: usize, b: usize|
            #![trigger out@.contains((a, b))]
            a < b < vs@.len() ==> (out@.contains((a, b)) <==> overlapping(vs@, a as int, b as int)),
        pairs_complete(out@, vs@),
{
    let n = vs.len();
    let mut out: Vec<(usize, usize)> = Vec::new();
    let mut i: usize = 0;
    while i < n
        invariant
            all_wf(vs@),
            n == vs@.len(),
            i <= n,
            valid_pairs(out@, n as int),
            no_dup_pairs(out@),
            lex_sorted(out@),
            forall|a: usize, b: usize|
                #![trigger out@.contains((a, b))]
                a < b < vs@.len() ==> (out@.contains((a, b)) <==> (overlapping(
                    vs@,
                    a as int,
                    b as int,
                ) && a < i)),
        decreases n - i,
    {
        let mut j: usize = i + 1;
        while j < n
            invariant
                all_wf(vs@),
                n == vs@.len(),
                i < n,
                i < j <= n,
                valid_pairs(out@, n as int),
                no_dup_pairs(out@),
                lex_sorted(out@),
                forall|a: usize, b: usize|
                    #![trigger out@.contains((a, b))]
                    a < b < vs@.len() ==> (out@.contains((a, b)) <==> (overlapping(
                        vs@,
                        a as int,
                        b as int,
                    ) && (a < i || (a == i && b < j)))),
            decreases n - j,
        {
            proof {
                assert(vs@[i as int].wf());
                assert(vs@[j as int].wf());
            }
            let axis = vs[i].position.minus(vs[j].position);
            let dist = axis.length();
            let min_dist = vs[i].radius + vs[j].radius;
            if dist < min_dist {
                let ghost old_out = out@;
                out.push((i, j));
                proof {
                    assert forall|y: (usize, usize)| #[trigger]
                        out@.contains(y) <==> (old_out.contains(y) || y == (i, j)) by {
                        lemma_contains_push(old_out, (i, j), y);
                    }
                    assert(overlapping(vs@, i as int, j as int));
                    assert(!old_out.contains((i, j)));
                    assert forall|t1: int, t2: int|
                        0 <= t1 < t2 < out@.len() implies out@[t1] != out@[t2] by {
                        if t2 == out@.len() - 1 {
                            assert(out@[t1] == old_out[t1]);
                            assert(old_out.contains(old_out[t1]));
                        }
                    }
                    assert forall|t1: int, t2: int|
                        0 <= t1 < t2 < out@.len() implies ((#[trigger] out@[t1]).0 < (
                    #[trigger] out@[t2]).0 || (out@[t1].0 == out@[t2].0 && out@[t1].1
                        < out@[t2].1)) by {
                        if t2 == out@.len() - 1 {
                            assert(out@[t1] == old_out[t1]);
                            assert(old_out.contains((old_out[t1].0, old_out[t1].1)));
                            assert(out@[t2] == (i, j));
                        }
                    }
                }
            } else {
                proof {
                    assert(!overlapping(vs@, i as int, j as int));
                }
            }
            j += 1;
        }
        i += 1;
    }
    proof {
        assert forall|a: usize, b: usize|
            #![trigger overlapping(vs@, a as int, b as int)]
            a < b < vs@.len() && overlapping(vs@, a as int, b as int) implies out@.contains(
        (a, b)) by {
            assert(out@.contains((a, b)) <==> (overlapping(vs@, a as int, b as int) && a < i));
        }
    }
    out
}

} // verus!

verus! {

// ---------------------------------------------------------------------
// Uniform grid
//
// The container square `[-r, r] x [-r, r]` is cut into `gs x gs` cells of
// side `cs`; a body belongs to the cell its center falls in.  Cells are
// scanned against themselves and four forward neighbors (right,
// bottom-right, bottom, bottom-left), which covers every adjacent cell
// pair exactly once.
// ---------------------------------------------------------------------

/// Column of the cell holding body `i` (floor division).
pub open spec fn cell_col(vs: Seq<Verlet>, r: i64, cs: i64, i: int) -> int {
    (vs[i].position.x + r) / (cs as int)
}

/// Row of the cell holding body `i`.
pub open spec fn cell_row(vs: Seq<Verlet>, r: i64, cs: i64, i: int) -> int {
    (vs[i].position.y + r) / (cs as int)
}

pub open spec fn cell_of(vs: Seq<Verlet>, r: i64, cs: i64, i: int) -> (int, int) {
    (cell_col(vs, r, cs, i), cell_row(vs, r, cs, i))
}

/// Body `i` falls inside the covered square.
pub open spec fn in_grid(vs: Seq<Verlet>, r: i64, cs: i64, gs: int, i: int) -> bool {
    &&& 0 <= vs[i].position.x + r
    &&& 0 <= vs[i].position.y + r
    &&& cell_col(vs, r, cs, i) < gs
    &&& cell_row(vs, r, cs, i) < gs
}

/// Linear index of the cell holding body `i`.
pub open spec fn cell_lin(vs: Seq<Verlet>, r: i64, cs: i64, gs: int, i: int) -> int {
    cell_row(vs, r, cs, i) * gs + cell_col(vs, r, cs, i)
}

pub open spec fn deep(g: Seq<Vec<usize>>) -> Seq<Seq<usize>> {
    g.map_values(|c: Vec<usize>| c@)
}

pub open spec fn strict_sorted(c: Seq<usize>) -> bool {
    forall|k1: int, k2: int| 0 <= k1 < k2 < c.len() ==> c[k1] < c[k2]
}

/// The grid holds exactly the in-square bodies, each in its own cell, each
/// cell listing its members in increasing index order.
pub open spec fn grid_wf(g: Seq<Seq<usize>>, vs: Seq<Verlet>, r: i64, cs: i64, gs: int) -> bool {
    &&& g.len() == gs * gs
    &&& forall|c: int, k: int|
        0 <= c < g.len() && 0 <= k < g[c].len() ==> (#[trigger] g[c][k]) < vs.len() && in_grid(
            vs,
            r,
            cs,
            gs,
            g[c][k] as int,
        ) && cell_lin(vs, r, cs, gs, g[c][k] as int) == c
    &&& forall|c: int| 0 <= c < g.len() ==> strict_sorted(#[trigger] g[c])
    &&& forall|i: int|
        0 <= i < vs.len() && #[trigger] in_grid(vs, r, cs, gs, i) ==> g[cell_lin(
            vs,
            r,
            cs,
            gs,
            i,
        )].contains(i as usize)
}

pub proof fn lemma_cell_lin_bounds(vs: Seq<Verlet>, r: i64, cs: i64, gs: int, i: int)
    requires
        cs >= 1,
        0 <= i < vs.len(),
        in_grid(vs, r, cs, gs, i),
    ensures
        0 <= cell_col(vs, r, cs, i),
        0 <= cell_row(vs, r, cs, i),
        0 <= cell_lin(vs, r, cs, gs, i) < gs * gs,
{
    vstd::arithmetic::div_mod::lemma_div_pos_is_pos(vs[i].position.x + r, cs as int);
    vstd::arithmetic::div_mod::lemma_div_pos_is_pos(vs[i].position.y + r, cs as int);
    let col = cell_col(vs, r, cs, i);
    let row = cell_row(vs, r, cs, i);
    assert(0 <= row * gs + col < gs * gs) by (nonlinear_arith)
        requires
            0 <= row < gs,
            0 <= col < gs,
    ;
}

/// `grid_wf` restricted to the first `m` bodies.
spec fn grid_wf_upto(g: Seq<Seq<usize>>, vs: Seq<Verlet>, r: i64, cs: i64, gs: int, m: int) -> bool {
    &&& g.len() == gs * gs
    &&& forall|c: int, k: int|
        0 <= c < g.len() && 0 <= k < g[c].len() ==> (#[trigger] g[c][k]) < m && in_grid(
            vs,
            r,
            cs,
            gs,
            g[c][k] as int,
        ) && cell_lin(vs, r, cs, gs, g[c][k] as int) == c
    &&& forall|c: int| 0 <= c < g.len() ==> strict_sorted(#[trigger] g[c])
    &&& forall|i: int|
        0 <= i < m && #[trigger] in_grid(vs, r, cs, gs, i) ==> g[cell_lin(vs, r, cs, gs, i)].contains(
            i as usize,
        )
}

/// Bucket every body into its cell; bodies outside the covered square are
/// left out (they are handled by the wall pass long before they matter).
pub fn build_grid(vs: &Vec<Verlet>, r: i64, cs: i64, gs: usize) -> (g: Vec<Vec<usize>>)
    requires
        all_wf(vs@),
        1 <= cs <= LIM,
        0 <= r <= LIM,
        (gs as int) * (gs as int) <= usize::MAX as int,
    ensures
        grid_wf(deep(g@), vs@, r, cs, gs as int),
{
    proof {
        assert((gs as int) * (gs as int) >= 0) by (nonlinear_arith);
    }
    let n_cells = gs * gs;
    let mut g: Vec<Vec<usize>> = Vec::new();
    while g.len() < n_cells
        invariant
            g@.len() <= n_cells,
            forall|c: int| 0 <= c < g@.len() ==> (#[trigger] deep(g@)[c]).len() == 0,
        decreases n_cells - g@.len(),
    {
        let ghost g0 = g@;
        g.push(Vec::new());
        proof {
            assert forall|c: int| 0 <= c < g@.len() implies (#[trigger] deep(g@)[c]).len()
                == 0 by {
                assert(deep(g@)[c] == g@[c]@);
                if c < g0.len() {
                    assert(g@[c] == g0[c]);
                    assert(deep(g0)[c] == g0[c]@);
                }
            }
        }
    }
    let n = vs.len();
    let mut i: usize = 0;
    while i < n
        invariant
            all_wf(vs@),
            n == vs@.len(),
            i <= n,
            1 <= cs <= LIM,
            0 <= r <= LIM,
            (gs as int) * (gs as int) <= usize::MAX as int,
            deep(g@).len() == n_cells,
            n_cells == (gs as int) * (gs as int),
            grid_wf_upto(deep(g@), vs@, r, cs, gs as int, i as int),
        decreases n - i,
    {
        proof {
            assert(vs@[i as int].wf());
        }
        let sx = vs[i].position.x + r;
        let sy = vs[i].position.y + r;
        if sx >= 0 && sy >= 0 {
            let col64 = (sx as u64) / (cs as u64);
            let row64 = (sy as u64) / (cs as u64);
            proof {
                assert(col64 as int == cell_col(vs@, r, cs, i as int));
                assert(row64 as int == cell_row(vs@, r, cs, i as int));
            }
            if col64 < gs as u64 && row64 < gs as u64 {
                let col = col64 as usize;
                let row = row64 as usize;
                proof {
                    assert((row as int) * (gs as int) + (col as int) < (gs as int) * (gs as int)
                        && (row as int) * (gs as int) >= 0) by (nonlinear_arith)
                        requires
                            0 <= (row as int) < (gs as int),
                            0 <= (col as int) < (gs as int),
                    ;
                }
                let idx = row * gs + col;
                let ghost g1 = deep(g@);
                let cell = &mut g[idx];
                cell.push(i);
                proof {
                    let g2 = deep(g@);
                    assert(g2 =~= g1.update(idx as int, g1[idx as int].push(i)));
                    assert(in_grid(vs@, r, cs, gs as int, i as int));
                    lemma_cell_lin_bounds(vs@, r, cs, gs as int, i as int);
                    assert(cell_lin(vs@, r, cs, gs as int, i as int) == idx as int);
                    assert(g2[idx as int].last() == i);
                    assert(g2[idx as int].contains(i));
                    assert forall|c: int| 0 <= c < g2.len() implies strict_sorted(#[trigger] g2[c]) by {
                        if c == idx as int {
                            assert forall|k1: int, k2: int|
                                0 <= k1 < k2 < g2[c].len() implies g2[c][k1] < g2[c][k2] by {
                                if k2 == g2[c].len() - 1 {
                                    assert(g1[c][k1] < i);
                                }
                            }
                        }
                    }
                    assert forall|j: int|
                        0 <= j < i + 1 && #[trigger] in_grid(vs@, r, cs, gs as int, j) implies g2[cell_lin(
                        vs@,
                        r,
                        cs,
                        gs as int,
                        j,
                    )].contains(j as usize) by {
                        if j < i as int {
                            lemma_cell_lin_bounds(vs@, r, cs, gs as int, j);
                            let cj = cell_lin(vs@, r, cs, gs as int, j);
                            assert(g1[cj].contains(j as usize));
                            let kj = choose|kj: int| 0 <= kj < g1[cj].len() && g1[cj][kj] == j as usize;
                            assert(g2[cj][kj] == j as usize);
                        }
                    }
                }
            }
        }
        i += 1;
    }
    g
}

} // verus!

verus! {

/// The tail of `new` past the length of `old`: what a scan appended.
pub open spec fn appended(old: Seq<(usize, usize)>, new: Seq<(usize, usize)>) -> Seq<
    (usize, usize),
> {
    new.skip(old.len() as int)
}

proof fn lemma_strict_sorted_injective(c: Seq<usize>, a: int, b: int)
    requires
        strict_sorted(c),
        0 <= a < c.len(),
        0 <= b < c.len(),
        c[a] == c[b],
    ensures
        a == b,
{
}

/// `(u, v)` as an ordered pair.
pub open spec fn norm2(u: usize, v: usize) -> (usize, usize) {
    if u < v {
        (u, v)
    } else {
        (v, u)
    }
}

/// Entry `t` of `ap` comes from positions `(j1, j2)` of `cell` strictly
/// before the scan position `(h1, h2)` in lexicographic order.
spec fn within_sound(ap: Seq<(usize, usize)>, cell: Seq<usize>, t: int, h1: int, h2: int) -> bool {
    exists|j1: int, j2: int|
        0 <= j1 < j2 < cell.len() && (j1 < h1 || (j1 == h1 && j2 < h2)) && ap[t] == (
        cell[j1],
        cell[j2],
        )
}

proof fn lemma_within_sound_mono(
    ap: Seq<(usize, usize)>,
    cell: Seq<usize>,
    t: int,
    h1: int,
    h2: int,
    g1: int,
    g2: int,
)
    requires
        within_sound(ap, cell, t, h1, h2),
        h1 < g1 || (h1 == g1 && h2 <= g2),
    ensures
        within_sound(ap, cell, t, g1, g2),
{
    let (j1, j2) = choose|j1: int, j2: int|
        0 <= j1 < j2 < cell.len() && (j1 < h1 || (j1 == h1 && j2 < h2)) && ap[t] == (
        cell[j1],
        cell[j2],
        );
    assert(0 <= j1 < j2 < cell.len() && (j1 < g1 || (j1 == g1 && j2 < g2)) && ap[t] == (
    cell[j1],
    cell[j2],
    ));
}

proof fn lemma_within_sound_elim(
    ap: Seq<(usize, usize)>,
    cell: Seq<usize>,
    t: int,
    h1: int,
    h2: int,
) -> (jj: (int, int))
    requires
        within_sound(ap, cell, t, h1, h2),
    ensures
        0 <= jj.0 < jj.1 < cell.len(),
        jj.0 < h1 || (jj.0 == h1 && jj.1 < h2),
        ap[t] == (cell[jj.0], cell[jj.1]),
{
    let (j1, j2) = choose|j1: int, j2: int|
        0 <= j1 < j2 < cell.len() && (j1 < h1 || (j1 == h1 && j2 < h2)) && ap[t] == (
        cell[j1],
        cell[j2],
        );
    (j1, j2)
}

/// Emit every ordered pair of distinct members of one cell.
fn emit_within(cell: &Vec<usize>, out: &mut Vec<(usize, usize)>)
    requires
        strict_sorted(cell@),
    ensures
        final(out)@.len() >= old(out)@.len(),
        final(out)@.subrange(0, old(out)@.len() as int) == old(out)@,
        forall|t: int|
            0 <= t < appended(old(out)@, final(out)@).len() ==> (#[trigger] appended(
                old(out)@,
                final(out)@,
            )[t]).0 < appended(old(out)@, final(out)@)[t].1 && cell@.contains(
                appended(old(out)@, final(out)@)[t].0,
            ) && cell@.contains(appended(old(out)@, final(out)@)[t].1),
        forall|a: usize, b: usize|
            #![trigger appended(old(out)@, final(out)@).contains((a, b))]
            a < b ==> (appended(old(out)@, final(out)@).contains((a, b)) <==> (cell@.contains(a)
                && cell@.contains(b))),
        no_dup_pairs(appended(old(out)@, final(out)@)),
{
    let ghost base = out@;
    let len = cell.len();
    let mut k1: usize = 0;
    while k1 < len
        invariant
            strict_sorted(cell@),
            len == cell@.len(),
            k1 <= len,
            out@.len() >= base.len(),
            out@.subrange(0, base.len() as int) == base,
            forall|t: int|
                0 <= t < appended(base, out@).len() ==> within_sound(
                    appended(base, out@),
                    cell@,
                    t,
                    k1 as int,
                    0,
                ),
            forall|j1: int, j2: int|
                #![trigger cell@[j1], cell@[j2]]
                0 <= j1 < j2 < cell@.len() && j1 < k1 ==> appended(base, out@).contains(
                    (cell@[j1], cell@[j2]),
                ),
            no_dup_pairs(appended(base, out@)),
        decreases len - k1,
    {
        let mut k2: usize = k1 + 1;
        proof {
            assert forall|t: int|
                0 <= t < appended(base, out@).len() implies within_sound(
                appended(base, out@),
                cell@,
                t,
                k1 as int,
                k2 as int,
            ) by {
                lemma_within_sound_mono(
                    appended(base, out@),
                    cell@,
                    t,
                    k1 as int,
                    0,
                    k1 as int,
                    k2 as int,
                );
            }
        }
        while k2 < len
            invariant
                strict_sorted(cell@),
                len == cell@.len(),
                k1 < len,
                k1 < k2 <= len,
                out@.len() >= base.len(),
                out@.subrange(0, base.len() as int) == base,
                forall|t: int|
                    0 <= t < appended(base, out@).len() ==> within_sound(
                        appended(base, out@),
                        cell@,
                        t,
                        k1 as int,
                        k2 as int,
                    ),
                forall|j1: int, j2: int|
                    #![trigger cell@[j1], cell@[j2]]
                    0 <= j1 < j2 < cell@.len() && (j1 < k1 || (j1 == k1 && j2 < k2)) ==> appended(
                        base,
                        out@,
                    ).contains((cell@[j1], cell@[j2])),
                no_dup_pairs(appended(base, out@)),
            decreases len - k2,
        {
            let ghost pre = out@;
            out.push((cell[k1], cell[k2]));
            proof {
                let ap_pre = appended(base, pre);
                let ap = appended(base, out@);
                let p = (cell@[k1 as int], cell@[k2 as int]);
                assert(ap =~= ap_pre.push(p));
                let h2 = k2 as int + 1;
                assert forall|t: int|
                    0 <= t < ap.len() implies within_sound(ap, cell@, t, k1 as int, h2) by {
                    if t == ap.len() - 1 {
                        assert(ap[t] == (cell@[k1 as int], cell@[k2 as int]));
                        assert(0 <= (k1 as int) && (k1 as int) < (k2 as int) && (k2 as int)
                            < cell@.len());
                    } else {
                        assert(ap[t] == ap_pre[t]);
                        let jj = lemma_within_sound_elim(ap_pre, cell@, t, k1 as int, k2 as int);
                        assert(ap[t] == (cell@[jj.0], cell@[jj.1]));
                        assert(jj.0 < k1 as int || (jj.0 == k1 as int && jj.1 < h2));
                    }
                }
                assert forall|j1: int, j2: int|
                    #![trigger cell@[j1], cell@[j2]]
                    0 <= j1 < j2 < cell@.len() && (j1 < k1 || (j1 == k1 && j2 < k2 + 1)) implies ap.contains(
                    (cell@[j1], cell@[j2])) by {
                    if j1 < k1 || (j1 == k1 && j2 < k2) {
                        assert(ap_pre.contains((cell@[j1], cell@[j2])));
                        lemma_contains_push(ap_pre, p, (cell@[j1], cell@[j2]));
                    } else {
                        assert(ap[ap.len() - 1] == (cell@[j1], cell@[j2]));
                    }
                }
                assert forall|t1: int, t2: int|
                    0 <= t1 < t2 < ap.len() implies ap[t1] != ap[t2] by {
                    if t2 == ap.len() - 1 {
                        assert(ap[t1] == ap_pre[t1]);
                        if ap[t1] == ap[t2] {
                            let jj = lemma_within_sound_elim(
                                ap_pre,
                                cell@,
                                t1,
                                k1 as int,
                                k2 as int,
                            );
                            lemma_strict_sorted_injective(cell@, jj.0, k1 as int);
                            lemma_strict_sorted_injective(cell@, jj.1, k2 as int);
                        }
                    }
                }
            }
            k2 += 1;
        }
        proof {
            let ghost h1 = k1 as int + 1;
            assert forall|t: int|
                0 <= t < appended(base, out@).len() implies within_sound(
                appended(base, out@),
                cell@,
                t,
                h1,
                0,
            ) by {
                lemma_within_sound_mono(
                    appended(base, out@),
                    cell@,
                    t,
                    k1 as int,
                    k2 as int,
                    k1 as int + 1,
                    0,
                );
            }
        }
        k1 += 1;
    }
    proof {
        let ap = appended(base, out@);
        assert forall|a: usize, b: usize|
            #![trigger ap.contains((a, b))]
            a < b implies (ap.contains((a, b)) <==> (cell@.contains(a) && cell@.contains(
        b))) by {
            if ap.contains((a, b)) {
                let t = choose|t: int| 0 <= t < ap.len() && ap[t] == (a, b);
                let jj = lemma_within_sound_elim(ap, cell@, t, k1 as int, 0);
                assert(cell@.contains(cell@[jj.0]));
                assert(cell@.contains(cell@[jj.1]));
                assert(cell@[jj.0] == a && cell@[jj.1] == b);
            }
            if cell@.contains(a) && cell@.contains(b) {
                let ja = choose|ja: int| 0 <= ja < cell@.len() && cell@[ja] == a;
                let jb = choose|jb: int| 0 <= jb < cell@.len() && cell@[jb] == b;
                assert(ja < jb);
                assert(ap.contains((cell@[ja], cell@[jb])));
            }
        }
        assert forall|t: int|
            0 <= t < ap.len() implies (#[trigger] ap[t]).0 < ap[t].1 && cell@.contains(ap[t].0)
                && cell@.contains(ap[t].1) by {
            let jj = lemma_within_sound_elim(ap, cell@, t, k1 as int, 0);
            assert(cell@.contains(cell@[jj.0]));
            assert(cell@.contains(cell@[jj.1]));
        }
    }
}

} // verus!

verus! {

/// Entry `t` of `ap` pairs position `j1` of `ca` with position `j2` of
/// `cb`, at a scan position strictly before `(h1, h2)`.
spec fn cross_sound(
    ap: Seq<(usize, usize)>,
    ca: Seq<usize>,
    cb: Seq<usize>,
    t: int,
    h1: int,
    h2: int,
) -> bool {
    exists|j1: int, j2: int|
        0 <= j1 < ca.len() && 0 <= j2 < cb.len() && (j1 < h1 || (j1 == h1 && j2 < h2)) && ap[t]
            == norm2(ca[j1], cb[j2])
}

proof fn lemma_cross_sound_mono(
    ap: Seq<(usize, usize)>,
    ca: Seq<usize>,
    cb: Seq<usize>,
    t: int,
    h1: int,
    h2: int,
    g1: int,
    g2: int,
)
    requires
        cross_sound(ap, ca, cb, t, h1, h2),
        h1 < g1 || (h1 == g1 && h2 <= g2),
    ensures
        cross_sound(ap, ca, cb, t, g1, g2),
{
    let (j1, j2) = choose|j1: int, j2: int|
        0 <= j1 < ca.len() && 0 <= j2 < cb.len() && (j1 < h1 || (j1 == h1 && j2 < h2)) && ap[t]
            == norm2(ca[j1], cb[j2]);
    assert(0 <= j1 < ca.len() && 0 <= j2 < cb.len() && (j1 < g1 || (j1 == g1 && j2 < g2)) && ap[t]
        == norm2(ca[j1], cb[j2]));
}

proof fn lemma_cross_sound_elim(
    ap: Seq<(usize, usize)>,
    ca: Seq<usize>,
    cb: Seq<usize>,
    t: int,
    h1: int,
    h2: int,
) -> (jj: (int, int))
    requires
        cross_sound(ap, ca, cb, t, h1, h2),
    ensures
        0 <= jj.0 < ca.len(),
        0 <= jj.1 < cb.len(),
        jj.0 < h1 || (jj.0 == h1 && jj.1 < h2),
        ap[t] == norm2(ca[jj.0], cb[jj.1]),
{
    let (j1, j2) = choose|j1: int, j2: int|
        0 <= j1 < ca.len() && 0 <= j2 < cb.len() && (j1 < h1 || (j1 == h1 && j2 < h2)) && ap[t]
            == norm2(ca[j1], cb[j2]);
    (j1, j2)
}

/// Emit every pair of one member of `ca` with one member of `cb`, as
/// ordered pairs; the two cells must not share a member.
fn emit_cross(ca: &Vec<usize>, cb: &Vec<usize>, out: &mut Vec<(usize, usize)>)
    requires
        strict_sorted(ca@),
        strict_sorted(cb@),
        forall|k1: int, k2: int|
            #![trigger ca@[k1], cb@[k2]]
            0 <= k1 < ca@.len() && 0 <= k2 < cb@.len() ==> ca@[k1] != cb@[k2],
    ensures
        final(out)@.len() >= old(out)@.len(),
        final(out)@.subrange(0, old(out)@.len() as int) == old(out)@,
        forall|t: int|
            0 <= t < appended(old(out)@, final(out)@).len() ==> (#[trigger] appended(
                old(out)@,
                final(out)@,
            )[t]).0 < appended(old(out)@, final(out)@)[t].1 && ((ca@.contains(
                appended(old(out)@, final(out)@)[t].0,
            ) && cb@.contains(appended(old(out)@, final(out)@)[t].1)) || (ca@.contains(
                appended(old(out)@, final(out)@)[t].1,
            ) && cb@.contains(appended(old(out)@, final(out)@)[t].0))),
        forall|a: usize, b: usize|
            #![trigger appended(old(out)@, final(out)@).contains((a, b))]
            a < b ==> (appended(old(out)@, final(out)@).contains((a, b)) <==> ((ca@.contains(a)
                && cb@.contains(b)) || (ca@.contains(b) && cb@.contains(a)))),
        no_dup_pairs(appended(old(out)@, final(out)@)),
{
    let ghost base = out@;
    let la = ca.len();
    let lb = cb.len();
    let mut k1: usize = 0;
    while k1 < la
        invariant
            strict_sorted(ca@),
            strict_sorted(cb@),
            forall|m1: int, m2: int|
                #![trigger ca@[m1], cb@[m2]]
                0 <= m1 < ca@.len() && 0 <= m2 < cb@.len() ==> ca@[m1] != cb@[m2],
            la == ca@.len(),
            lb == cb@.len(),
            k1 <= la,
            out@.len() >= base.len(),
            out@.subrange(0, base.len() as int) == base,
            forall|t: int|
                0 <= t < appended(base, out@).len() ==> cross_sound(
                    appended(base, out@),
                    ca@,
                    cb@,
                    t,
                    k1 as int,
                    0,
                ),
            forall|j1: int, j2: int|
                #![trigger ca@[j1], cb@[j2]]
                0 <= j1 < ca@.len() && 0 <= j2 < cb@.len() && j1 < k1 ==> appended(
                    base,
                    out@,
                ).contains(norm2(ca@[j1], cb@[j2])),
            no_dup_pairs(appended(base, out@)),
        decreases la - k1,
    {
        let mut k2: usize = 0;
        proof {
            assert forall|t: int|
                0 <= t < appended(base, out@).len() implies cross_sound(
                appended(base, out@),
                ca@,
                cb@,
                t,
                k1 as int,
                k2 as int,
            ) by {
                lemma_cross_sound_mono(
                    appended(base, out@),
                    ca@,
                    cb@,
                    t,
                    k1 as int,
                    0,
                    k1 as int,
                    k2 as int,
                );
            }
        }
        while k2 < lb
            invariant
                strict_sorted(ca@),
                strict_sorted(cb@),
                forall|m1: int, m2: int|
                    #![trigger ca@[m1], cb@[m2]]
                    0 <= m1 < ca@.len() && 0 <= m2 < cb@.len() ==> ca@[m1] != cb@[m2],
                la == ca@.len(),
                lb == cb@.len(),
                k1 < la,
                k2 <= lb,
                out@.len() >= base.len(),
                out@.subrange(0, base.len() as int) == base,
                forall|t: int|
                    0 <= t < appended(base, out@).len() ==> cross_sound(
                        appended(base, out@),
                        ca@,
                        cb@,
                        t,
                        k1 as int,
                        k2 as int,
                    ),
                forall|j1: int, j2: int|
                    #![trigger ca@[j1], cb@[j2]]
                    0 <= j1 < ca@.len() && 0 <= j2 < cb@.len() && (j1 < k1 || (j1 == k1 && j2
                        < k2)) ==> appended(base, out@).contains(norm2(ca@[j1], cb@[j2])),
                no_dup_pairs(appended(base, out@)),
            decreases lb - k2,
        {
            let u = ca[k1];
            let v = cb[k2];
            proof {
                assert(ca@[k1 as int] != cb@[k2 as int]);
            }
            let ghost pre = out@;
            if u < v {
                out.push((u, v));
            } else {
                out.push((v, u));
            }
            proof {
                let ap_pre = appended(base, pre);
                let ap = appended(base, out@);
                let p = norm2(ca@[k1 as int], cb@[k2 as int]);
                assert(ap =~= ap_pre.push(p));
                let h2 = k2 as int + 1;
                assert forall|t: int|
                    0 <= t < ap.len() implies cross_sound(ap, ca@, cb@, t, k1 as int, h2) by {
                    if t == ap.len() - 1 {
                        assert(ap[t] == p);
                        assert(0 <= (k1 as int) && (k1 as int) < ca@.len() && 0 <= (k2 as int) && (
                        k2 as int) < cb@.len());
                    } else {
                        assert(ap[t] == ap_pre[t]);
                        let jj = lemma_cross_sound_elim(ap_pre, ca@, cb@, t, k1 as int, k2 as int);
                        assert(ap[t] == norm2(ca@[jj.0], cb@[jj.1]));
                        assert(jj.0 < k1 as int || (jj.0 == k1 as int && jj.1 < h2));
                    }
                }
                assert forall|j1: int, j2: int|
                    #![trigger ca@[j1], cb@[j2]]
                    0 <= j1 < ca@.len() && 0 <= j2 < cb@.len() && (j1 < k1 || (j1 == k1 && j2 < k2
                        + 1)) implies ap.contains(norm2(ca@[j1], cb@[j2])) by {
                    if j1 < k1 || (j1 == k1 && j2 < k2) {
                        assert(ap_pre.contains(norm2(ca@[j1], cb@[j2])));
                        lemma_contains_push(ap_pre, p, norm2(ca@[j1], cb@[j2]));
                    } else {
                        assert(ap[ap.len() - 1] == norm2(ca@[j1], cb@[j2]));
                    }
                }
                assert forall|t1: int, t2: int|
                    0 <= t1 < t2 < ap.len() implies ap[t1] != ap[t2] by {
                    if t2 == ap.len() - 1 {
                        assert(ap[t1] == ap_pre[t1]);
                        if ap[t1] == ap[t2] {
                            let jj = lemma_cross_sound_elim(
                                ap_pre,
                                ca@,
                                cb@,
                                t1,
                                k1 as int,
                                k2 as int,
                            );
                            assert(norm2(ca@[jj.0], cb@[jj.1]) == norm2(
                                ca@[k1 as int],
                                cb@[k2 as int],
                            ));
                            assert(ca@[jj.0] == ca@[k1 as int] && cb@[jj.1] == cb@[k2 as int]);
                            lemma_strict_sorted_injective(ca@, jj.0, k1 as int);
                            lemma_strict_sorted_injective(cb@, jj.1, k2 as int);
                        }
                    }
                }
            }
            k2 += 1;
        }
        proof {
            let ghost h1 = k1 as int + 1;
            assert forall|t: int|
                0 <= t < appended(base, out@).len() implies cross_sound(
                appended(base, out@),
                ca@,
                cb@,
                t,
                h1,
                0,
            ) by {
                lemma_cross_sound_mono(
                    appended(base, out@),
                    ca@,
                    cb@,
                    t,
                    k1 as int,
                    k2 as int,
                    h1,
                    0,
                );
            }
        }
        k1 += 1;
    }
    proof {
        let ap = appended(base, out@);
        assert forall|a: usize, b: usize|
            #![trigger ap.contains((a, b))]
            a < b implies (ap.contains((a, b)) <==> ((ca@.contains(a) && cb@.contains(b)) || (
        ca@.contains(b) && cb@.contains(a)))) by {
            if ap.contains((a, b)) {
                let t = choose|t: int| 0 <= t < ap.len() && ap[t] == (a, b);
                let jj = lemma_cross_sound_elim(ap, ca@, cb@, t, k1 as int, 0);
                assert(ca@.contains(ca@[jj.0]));
                assert(cb@.contains(cb@[jj.1]));
            }
            if ca@.contains(a) && cb@.contains(b) {
                let ja = choose|ja: int| 0 <= ja < ca@.len() && ca@[ja] == a;
                let jb = choose|jb: int| 0 <= jb < cb@.len() && cb@[jb] == b;
                assert(ap.contains(norm2(ca@[ja], cb@[jb])));
            }
            if ca@.contains(b) && cb@.contains(a) {
                let jb = choose|jb: int| 0 <= jb < ca@.len() && ca@[jb] == b;
                let ja = choose|ja: int| 0 <= ja < cb@.len() && cb@[ja] == a;
                assert(ap.contains(norm2(ca@[jb], cb@[ja])));
            }
        }
        assert forall|t: int|
            0 <= t < ap.len() implies (#[trigger] ap[t]).0 < ap[t].1 && ((ca@.contains(ap[t].0)
                && cb@.contains(ap[t].1)) || (ca@.contains(ap[t].1) && cb@.contains(
            ap[t].0))) by {
            let jj = lemma_cross_sound_elim(ap, ca@, cb@, t, k1 as int, 0);
            assert(ca@.contains(ca@[jj.0]));
            assert(cb@.contains(cb@[jj.1]));
            assert(ca@[jj.0] != cb@[jj.1]);
        }
    }
}

} // verus!

verus! {

/// `c2` is one of the four forward neighbors of `c1` (cells as
/// `(col, row)`): right, bottom-right, bottom, bottom-left.
pub open spec fn fwd_of(c1: (int, int), c2: (int, int)) -> bool {
    ||| c2 == ((c1.0 + 1, c1.1))
    ||| c2 == ((c1.0 + 1, c1.1 + 1))
    ||| c2 == ((c1.0, c1.1 + 1))
    ||| c2 == ((c1.0 - 1, c1.1 + 1))
}

/// The unordered pair `{a, b}` is a grid candidate: two distinct in-square
/// bodies whose cells coincide or touch through the forward neighborhood.
pub open spec fn grid_pair(vs: Seq<Verlet>, r: i64, cs: i64, gs: int, a: int, b: int) -> bool {
    &&& 0 <= a < vs.len()
    &&& 0 <= b < vs.len()
    &&& a != b
    &&& in_grid(vs, r, cs, gs, a)
    &&& in_grid(vs, r, cs, gs, b)
    &&& (cell_of(vs, r, cs, a) == cell_of(vs, r, cs, b) || fwd_of(
        cell_of(vs, r, cs, a),
        cell_of(vs, r, cs, b),
    ) || fwd_of(cell_of(vs, r, cs, b), cell_of(vs, r, cs, a)))
}

/// The one cell whose scan emits the pair `{a, b}`.
pub open spec fn owner_of(vs: Seq<Verlet>, r: i64, cs: i64, a: int, b: int) -> (int, int) {
    if cell_of(vs, r, cs, a) == cell_of(vs, r, cs, b) || fwd_of(
        cell_of(vs, r, cs, a),
        cell_of(vs, r, cs, b),
    ) {
        cell_of(vs, r, cs, a)
    } else {
        cell_of(vs, r, cs, b)
    }
}

/// What the scan of cell `(x, y)` emits.
pub open spec fn cell_scan_pair(
    vs: Seq<Verlet>,
    r: i64,
    cs: i64,
    gs: int,
    x: int,
    y: int,
    a: usize,
    b: usize,
) -> bool {
    grid_pair(vs, r, cs, gs, a as int, b as int) && owner_of(vs, r, cs, a as int, b as int) == (
    x,
    y,
    )
}

proof fn lemma_lin_inj(gs: int, x: int, y: int, col: int, row: int)
    requires
        0 <= x < gs,
        0 <= y < gs,
        0 <= col < gs,
        0 <= row < gs,
        row * gs + col == y * gs + x,
    ensures
        row == y && col == x,
{
    assert(row == y && col == x) by (nonlinear_arith)
        requires
            0 <= x < gs,
            0 <= y < gs,
            0 <= col < gs,
            0 <= row < gs,
            row * gs + col == y * gs + x,
    ;
}

/// Membership in the cell list at `(x, y)` is exactly "this body is in the
/// square and its cell is `(x, y)`".
proof fn lemma_cell_members(
    g: Seq<Seq<usize>>,
    vs: Seq<Verlet>,
    r: i64,
    cs: i64,
    gs: int,
    x: int,
    y: int,
)
    requires
        cs >= 1,
        grid_wf(g, vs, r, cs, gs),
        0 <= x < gs,
        0 <= y < gs,
    ensures
        forall|a: usize|
            #![trigger g[y * gs + x].contains(a)]
            g[y * gs + x].contains(a) <==> ((a as int) < vs.len() && in_grid(
                vs,
                r,
                cs,
                gs,
                a as int,
            ) && cell_of(vs, r, cs, a as int) == (x, y)),
{
    assert(0 <= y * gs + x < gs * gs) by (nonlinear_arith)
        requires
            0 <= x < gs,
            0 <= y < gs,
    ;
    let c = y * gs + x;
    assert forall|a: usize|
        #![trigger g[c].contains(a)]
        g[c].contains(a) <==> ((a as int) < vs.len() && in_grid(vs, r, cs, gs, a as int) && cell_of(
            vs,
            r,
            cs,
            a as int,
        ) == (x, y)) by {
        if g[c].contains(a) {
            let k = choose|k: int| 0 <= k < g[c].len() && g[c][k] == a;
            assert(g[c][k] < vs.len());
            lemma_cell_lin_bounds(vs, r, cs, gs, a as int);
            lemma_lin_inj(
                gs,
                x,
                y,
                cell_col(vs, r, cs, a as int),
                cell_row(vs, r, cs, a as int),
            );
        }
        if (a as int) < vs.len() && in_grid(vs, r, cs, gs, a as int) && cell_of(vs, r, cs, a as int)
            == (x, y) {
            assert(cell_lin(vs, r, cs, gs, a as int) == c);
            assert(g[cell_lin(vs, r, cs, gs, a as int)].contains(a));
        }
    }
}

pub proof fn lemma_contains_add<T>(s1: Seq<T>, s2: Seq<T>, y: T)
    ensures
        (s1 + s2).contains(y) <==> (s1.contains(y) || s2.contains(y)),
{
    if s1.contains(y) {
        let idx = choose|idx: int| 0 <= idx < s1.len() && s1[idx] == y;
        assert((s1 + s2)[idx] == y);
    }
    if s2.contains(y) {
        let idx = choose|idx: int| 0 <= idx < s2.len() && s2[idx] == y;
        assert((s1 + s2)[s1.len() + idx] == y);
    }
    if (s1 + s2).contains(y) {
        let idx = choose|idx: int| 0 <= idx < (s1 + s2).len() && (s1 + s2)[idx] == y;
        if idx < s1.len() {
            assert(s1[idx] == y);
        } else {
            assert(s2[idx - s1.len()] == y);
        }
    }
}

pub proof fn lemma_no_dup_add(s1: Seq<(usize, usize)>, s2: Seq<(usize, usize)>)
    requires
        no_dup_pairs(s1),
        no_dup_pairs(s2),
        forall|y: (usize, usize)| s1.contains(y) ==> !#[trigger] s2.contains(y),
    ensures
        no_dup_pairs(s1 + s2),
{
    assert forall|t1: int, t2: int|
        0 <= t1 < t2 < (s1 + s2).len() implies (s1 + s2)[t1] != (s1 + s2)[t2] by {
        if t1 < s1.len() && t2 >= s1.len() {
            if (s1 + s2)[t1] == (s1 + s2)[t2] {
                assert(s1[t1] == (s1 + s2)[t1]);
                assert(s2[t2 - s1.len()] == (s1 + s2)[t2]);
                assert(s1.contains(s1[t1]));
                assert(s2.contains(s1[t1]));
            }
        } else if t2 < s1.len() {
            assert(s1[t1] == (s1 + s2)[t1] && s1[t2] == (s1 + s2)[t2]);
        } else {
            assert(s2[t1 - s1.len()] == (s1 + s2)[t1] && s2[t2 - s1.len()] == (s1 + s2)[t2]);
        }
    }
}

} // verus!

verus! {

/// A pair with one body in cell `(x, y)` and the other in cell `(nx, ny)`.
pub open spec fn cross_pair_at(
    vs: Seq<Verlet>,
    r: i64,
    cs: i64,
    gs: int,
    x: int,
    y: int,
    nx: int,
    ny: int,
    a: usize,
    b: usize,
) -> bool {
    &&& a != b
    &&& (a as int) < vs.len()
    &&& (b as int) < vs.len()
    &&& in_grid(vs, r, cs, gs, a as int)
    &&& in_grid(vs, r, cs, gs, b as int)
    &&& ((cell_of(vs, r, cs, a as int) == (x, y) && cell_of(vs, r, cs, b as int) == (nx, ny)) || (
    cell_of(vs, r, cs, a as int) == (nx, ny) && cell_of(vs, r, cs, b as int) == (x, y)))
}

/// A pair with both bodies in cell `(x, y)`.
pub open spec fn same_pair_at(
    vs: Seq<Verlet>,
    r: i64,
    cs: i64,
    gs: int,
    x: int,
    y: int,
    a: usize,
    b: usize,
) -> bool {
    &&& a != b
    &&& (a as int) < vs.len()
    &&& (b as int) < vs.len()
    &&& in_grid(vs, r, cs, gs, a as int)
    &&& in_grid(vs, r, cs, gs, b as int)
    &&& cell_of(vs, r, cs, a as int) == (x, y)
    &&& cell_of(vs, r, cs, b as int) == (x, y)
}

/// The scan of cell `(x, y)` emits exactly the same-cell pairs plus the
/// pairs crossing into its four forward neighbors.
proof fn lemma_scan_decompose(
    vs: Seq<Verlet>,
    r: i64,
    cs: i64,
    gs: int,
    x: int,
    y: int,
    a: usize,
    b: usize,
)
    requires
        0 <= x < gs,
        0 <= y < gs,
    ensures
        cell_scan_pair(vs, r, cs, gs, x, y, a, b) <==> (same_pair_at(vs, r, cs, gs, x, y, a, b)
            || cross_pair_at(vs, r, cs, gs, x, y, x + 1, y, a, b) || cross_pair_at(
            vs,
            r,
            cs,
            gs,
            x,
            y,
            x + 1,
            y + 1,
            a,
            b,
        ) || cross_pair_at(vs, r, cs, gs, x, y, x, y + 1, a, b) || cross_pair_at(
            vs,
            r,
            cs,
            gs,
            x,
            y,
            x - 1,
            y + 1,
            a,
            b,
        )),
{
}

/// Emit the pairs between cell `(x, y)` and its neighbor `(nx, ny)`.
fn cross_neighbor(
    g: &Vec<Vec<usize>>,
    gs: usize,
    x: usize,
    y: usize,
    nx: usize,
    ny: usize,
    out: &mut Vec<(usize, usize)>,
    Ghost(vs): Ghost<Seq<Verlet>>,
    Ghost(r): Ghost<i64>,
    Ghost(cs): Ghost<i64>,
)
    requires
        cs >= 1,
        grid_wf(deep(g@), vs, r, cs, gs as int),
        x < gs,
        y < gs,
        nx < gs,
        ny < gs,
        (x as int, y as int) != ((nx as int, ny as int)),
        (gs as int) * (gs as int) <= usize::MAX as int,
    ensures
        final(out)@.len() >= old(out)@.len(),
        final(out)@.subrange(0, old(out)@.len() as int) == old(out)@,
        forall|a: usize, b: usize|
            #![trigger appended(old(out)@, final(out)@).contains((a, b))]
            a < b ==> (appended(old(out)@, final(out)@).contains((a, b)) <==> cross_pair_at(
                vs,
                r,
                cs,
                gs as int,
                x as int,
                y as int,
                nx as int,
                ny as int,
                a,
                b,
            )),
        forall|t: int|
            0 <= t < appended(old(out)@, final(out)@).len() ==> (#[trigger] appended(
                old(out)@,
                final(out)@,
            )[t]).0 < appended(old(out)@, final(out)@)[t].1 && cross_pair_at(
                vs,
                r,
                cs,
                gs as int,
                x as int,
                y as int,
                nx as int,
                ny as int,
                appended(old(out)@, final(out)@)[t].0,
                appended(old(out)@, final(out)@)[t].1,
            ),
        no_dup_pairs(appended(old(out)@, final(out)@)),
{
    proof {
        assert(0 <= (y as int) * (gs as int) + (x as int) < (gs as int) * (gs as int) && 0 <= (
        ny as int) * (gs as int) + (nx as int) < (gs as int) * (gs as int)) by (nonlinear_arith)
            requires
                0 <= (x as int) < (gs as int),
                0 <= (y as int) < (gs as int),
                0 <= (nx as int) < (gs as int),
                0 <= (ny as int) < (gs as int),
        ;
        lemma_cell_members(deep(g@), vs, r, cs, gs as int, x as int, y as int);
        lemma_cell_members(deep(g@), vs, r, cs, gs as int, nx as int, ny as int);
    }
    let idx = y * gs + x;
    let nidx = ny * gs + nx;
    let ghost ca = deep(g@)[idx as int];
    let ghost cb = deep(g@)[nidx as int];
    proof {
        assert(strict_sorted(ca));
        assert(strict_sorted(cb));
        assert forall|k1: int, k2: int|
            #![trigger ca[k1], cb[k2]]
            0 <= k1 < ca.len() && 0 <= k2 < cb.len() implies ca[k1] != cb[k2] by {
            assert(ca.contains(ca[k1]));
            assert(cb.contains(cb[k2]));
        }
    }
    emit_cross(&g[idx], &g[nidx], out);
}

} // verus!

verus! {

/// Stitch one scan phase onto the pairs already emitted: membership is the
/// disjunction of the two characterizations, and disjointness of the two
/// keeps the whole list free of duplicates.
proof fn lemma_compose_phase(
    base: Seq<(usize, usize)>,
    mid: Seq<(usize, usize)>,
    end: Seq<(usize, usize)>,
    p_old: spec_fn(usize, usize) -> bool,
    p_new: spec_fn(usize, usize) -> bool,
)
    requires
        base.len() <= mid.len() <= end.len(),
        mid.subrange(0, base.len() as int) == base,
        end.subrange(0, mid.len() as int) == mid,
        forall|a: usize, b: usize|
            #![trigger appended(base, mid).contains((a, b))]
            a < b ==> (appended(base, mid).contains((a, b)) <==> p_old(a, b)),
        forall|t: int|
            0 <= t < appended(base, mid).len() ==> (#[trigger] appended(base, mid)[t]).0
                < appended(base, mid)[t].1 && p_old(
                appended(base, mid)[t].0,
                appended(base, mid)[t].1,
            ),
        forall|a: usize, b: usize|
            #![trigger appended(mid, end).contains((a, b))]
            a < b ==> (appended(mid, end).contains((a, b)) <==> p_new(a, b)),
        forall|t: int|
            0 <= t < appended(mid, end).len() ==> (#[trigger] appended(mid, end)[t]).0
                < appended(mid, end)[t].1 && p_new(
                appended(mid, end)[t].0,
                appended(mid, end)[t].1,
            ),
        no_dup_pairs(appended(base, mid)),
        no_dup_pairs(appended(mid, end)),
        forall|a: usize, b: usize| a < b ==> !(#[trigger] p_old(a, b) && p_new(a, b)),
    ensures
        end.subrange(0, base.len() as int) == base,
        forall|a: usize, b: usize|
            #![trigger appended(base, end).contains((a, b))]
            a < b ==> (appended(base, end).contains((a, b)) <==> (p_old(a, b) || p_new(a, b))),
        forall|t: int|
            0 <= t < appended(base, end).len() ==> (#[trigger] appended(base, end)[t]).0
                < appended(base, end)[t].1 && (p_old(
                appended(base, end)[t].0,
                appended(base, end)[t].1,
            ) || p_new(appended(base, end)[t].0, appended(base, end)[t].1)),
        no_dup_pairs(appended(base, end)),
{
    let ap1 = appended(base, mid);
    let ap2 = appended(mid, end);
    let ap = appended(base, end);
    assert(end.subrange(0, base.len() as int) =~= base) by {
        assert forall|i: int| 0 <= i < base.len() implies end.subrange(0, base.len() as int)[i]
            == base[i] by {
            assert(end[i] == end.subrange(0, mid.len() as int)[i]);
            assert(mid[i] == mid.subrange(0, base.len() as int)[i]);
        }
    }
    assert(ap =~= ap1 + ap2) by {
        assert forall|t: int| 0 <= t < ap.len() implies ap[t] == (ap1 + ap2)[t] by {
            if t < ap1.len() {
                assert(end[base.len() + t] == end.subrange(0, mid.len() as int)[base.len() + t]);
            }
        }
    }
    assert forall|a: usize, b: usize|
        #![trigger ap.contains((a, b))]
        a < b implies (ap.contains((a, b)) <==> (p_old(a, b) || p_new(a, b))) by {
        lemma_contains_add(ap1, ap2, (a, b));
    }
    assert forall|t: int|
        0 <= t < ap.len() implies (#[trigger] ap[t]).0 < ap[t].1 && (p_old(ap[t].0, ap[t].1)
            || p_new(ap[t].0, ap[t].1)) by {
        if t < ap1.len() {
            assert(ap[t] == ap1[t]);
        } else {
            assert(ap[t] == ap2[t - ap1.len()]);
        }
    }
    assert forall|y: (usize, usize)| ap1.contains(y) implies !#[trigger] ap2.contains(y) by {
        if ap1.contains(y) && ap2.contains(y) {
            let t1 = choose|t1: int| 0 <= t1 < ap1.len() && ap1[t1] == y;
            let t2 = choose|t2: int| 0 <= t2 < ap2.len() && ap2[t2] == y;
            assert(y == (y.0, y.1));
            assert(p_old(y.0, y.1) && p_new(y.0, y.1) && y.0 < y.1);
        }
    }
    lemma_no_dup_add(ap1, ap2);
    assert(no_dup_pairs(ap));
}

/// Scan one cell: pairs inside it, then pairs against each in-range
/// forward neighbor.
fn scan_cell(
    g: &Vec<Vec<usize>>,
    gs: usize,
    x: usize,
    y: usize,
    out: &mut Vec<(usize, usize)>,
    Ghost(vs): Ghost<Seq<Verlet>>,
    Ghost(r): Ghost<i64>,
    Ghost(cs): Ghost<i64>,
)
    requires
        cs >= 1,
        grid_wf(deep(g@), vs, r, cs, gs as int),
        x < gs,
        y < gs,
        (gs as int) * (gs as int) <= usize::MAX as int,
    ensures
        final(out)@.len() >= old(out)@.len(),
        final(out)@.subrange(0, old(out)@.len() as int) == old(out)@,
        forall|a: usize, b: usize|
            #![trigger appended(old(out)@, final(out)@).contains((a, b))]
            a < b ==> (appended(old(out)@, final(out)@).contains((a, b)) <==> cell_scan_pair(
                vs,
                r,
                cs,
                gs as int,
                x as int,
                y as int,
                a,
                b,
            )),
        forall|t: int|
            0 <= t < appended(old(out)@, final(out)@).len() ==> (#[trigger] appended(
                old(out)@,
                final(out)@,
            )[t]).0 < appended(old(out)@, final(out)@)[t].1 && cell_scan_pair(
                vs,
                r,
                cs,
                gs as int,
                x as int,
                y as int,
                appended(old(out)@, final(out)@)[t].0,
                appended(old(out)@, final(out)@)[t].1,
            ),
        no_dup_pairs(appended(old(out)@, final(out)@)),
{
    let ghost base = out@;
    let ghost gsi = gs as int;
    let ghost xi = x as int;
    let ghost yi = y as int;
    proof {
        assert(0 <= yi * gsi + xi < gsi * gsi) by (nonlinear_arith)
            requires
                0 <= xi < gsi,
                0 <= yi < gsi,
        ;
        lemma_cell_members(deep(g@), vs, r, cs, gsi, xi, yi);
    }
    let idx = y * gs + x;
    proof {
        assert(deep(g@)[idx as int] == g@[idx as int]@);
        assert(strict_sorted(deep(g@)[idx as int]));
    }
    emit_within(&g[idx], out);
    let ghost p_acc = |a: usize, b: usize| same_pair_at(vs, r, cs, gsi, xi, yi, a, b);
    let ghost mid0 = out@;
    proof {
        let ap = appended(base, mid0);
        let cell = deep(g@)[idx as int];
        assert forall|a: usize, b: usize|
            #![trigger ap.contains((a, b))]
            a < b implies (ap.contains((a, b)) <==> p_acc(a, b)) by {
            assert(cell.contains(a) <==> ((a as int) < vs.len() && in_grid(vs, r, cs, gsi, a as int)
                && cell_of(vs, r, cs, a as int) == (xi, yi)));
            assert(cell.contains(b) <==> ((b as int) < vs.len() && in_grid(vs, r, cs, gsi, b as int)
                && cell_of(vs, r, cs, b as int) == (xi, yi)));
        }
        assert forall|t: int|
            0 <= t < ap.len() implies (#[trigger] ap[t]).0 < ap[t].1 && p_acc(ap[t].0, ap[t].1) by {
            assert(cell.contains(ap[t].0) <==> ((ap[t].0 as int) < vs.len() && in_grid(
                vs, r, cs, gsi, ap[t].0 as int) && cell_of(vs, r, cs, ap[t].0 as int) == (xi, yi)));
            assert(cell.contains(ap[t].1) <==> ((ap[t].1 as int) < vs.len() && in_grid(
                vs, r, cs, gsi, ap[t].1 as int) && cell_of(vs, r, cs, ap[t].1 as int) == (xi, yi)));
        }
    }
    // right neighbor
    let ghost p_next = |a: usize, b: usize| cross_pair_at(vs, r, cs, gsi, xi, yi, xi + 1, yi, a, b);
    let ghost mid1 = out@;
    if x + 1 < gs {
        cross_neighbor(g, gs, x, y, x + 1, y, out, Ghost(vs), Ghost(r), Ghost(cs));
    }
    proof {
        if x + 1 < gs {
            assert forall|a: usize, b: usize| a < b implies !(#[trigger] p_acc(a, b) && p_next(
                a, b)) by {}
            lemma_compose_phase(base, mid1, out@, p_acc, p_next);
        } else {
            assert forall|a: usize, b: usize|
                #![trigger p_next(a, b)]
                a < b implies !p_next(a, b) by {
                if cross_pair_at(vs, r, cs, gsi, xi, yi, xi + 1, yi, a, b) {
                    assert(in_grid(vs, r, cs, gsi, a as int) && in_grid(vs, r, cs, gsi, b as int));
                }
            }
        }
        assert forall|a: usize, b: usize|
            #![trigger appended(base, out@).contains((a, b))]
            a < b implies (appended(base, out@).contains((a, b)) <==> (p_acc(a, b) || p_next(
            a, b))) by {}
    }
    let ghost p_acc = |a: usize, b: usize| (p_acc(a, b) || p_next(a, b));
    // bottom-right neighbor
    let ghost p_next = |a: usize, b: usize|
        cross_pair_at(vs, r, cs, gsi, xi, yi, xi + 1, yi + 1, a, b);
    let ghost mid2 = out@;
    if x + 1 < gs && y + 1 < gs {
        cross_neighbor(g, gs, x, y, x + 1, y + 1, out, Ghost(vs), Ghost(r), Ghost(cs));
    }
    proof {
        if x + 1 < gs && y + 1 < gs {
            assert forall|a: usize, b: usize| a < b implies !(#[trigger] p_acc(a, b) && p_next(
                a, b)) by {}
            lemma_compose_phase(base, mid2, out@, p_acc, p_next);
        } else {
            assert forall|a: usize, b: usize|
                #![trigger p_next(a, b)]
                a < b implies !p_next(a, b) by {
                if cross_pair_at(vs, r, cs, gsi, xi, yi, xi + 1, yi + 1, a, b) {
                    assert(in_grid(vs, r, cs, gsi, a as int) && in_grid(vs, r, cs, gsi, b as int));
                }
            }
        }
        assert forall|a: usize, b: usize|
            #![trigger appended(base, out@).contains((a, b))]
            a < b implies (appended(base, out@).contains((a, b)) <==> (p_acc(a, b) || p_next(
            a, b))) by {}
    }
    let ghost p_acc = |a: usize, b: usize| (p_acc(a, b) || p_next(a, b));
    // bottom neighbor
    let ghost p_next = |a: usize, b: usize| cross_pair_at(vs, r, cs, gsi, xi, yi, xi, yi + 1, a, b);
    let ghost mid3 = out@;
    if y + 1 < gs {
        cross_neighbor(g, gs, x, y, x, y + 1, out, Ghost(vs), Ghost(r), Ghost(cs));
    }
    proof {
        if y + 1 < gs {
            assert forall|a: usize, b: usize| a < b implies !(#[trigger] p_acc(a, b) && p_next(
                a, b)) by {}
            lemma_compose_phase(base, mid3, out@, p_acc, p_next);
        } else {
            assert forall|a: usize, b: usize|
                #![trigger p_next(a, b)]
                a < b implies !p_next(a, b) by {
                if cross_pair_at(vs, r, cs, gsi, xi, yi, xi, yi + 1, a, b) {
                    assert(in_grid(vs, r, cs, gsi, a as int) && in_grid(vs, r, cs, gsi, b as int));
                }
            }
        }
        assert forall|a: usize, b: usize|
            #![trigger appended(base, out@).contains((a, b))]
            a < b implies (appended(base, out@).contains((a, b)) <==> (p_acc(a, b) || p_next(
            a, b))) by {}
    }
    let ghost p_acc = |a: usize, b: usize| (p_acc(a, b) || p_next(a, b));
    // bottom-left neighbor
    let ghost p_next = |a: usize, b: usize|
        cross_pair_at(vs, r, cs, gsi, xi, yi, xi - 1, yi + 1, a, b);
    let ghost mid4 = out@;
    if x >= 1 && y + 1 < gs {
        cross_neighbor(g, gs, x, y, x - 1, y + 1, out, Ghost(vs), Ghost(r), Ghost(cs));
    }
    proof {
        if x >= 1 && y + 1 < gs {
            assert forall|a: usize, b: usize| a < b implies !(#[trigger] p_acc(a, b) && p_next(
                a, b)) by {}
            lemma_compose_phase(base, mid4, out@, p_acc, p_next);
        } else {
            assert forall|a: usize, b: usize|
                #![trigger p_next(a, b)]
                a < b implies !p_next(a, b) by {
                if cross_pair_at(vs, r, cs, gsi, xi, yi, xi - 1, yi + 1, a, b) {
                    assert(in_grid(vs, r, cs, gsi, a as int) && in_grid(vs, r, cs, gsi, b as int));
                }
            }
        }
        assert forall|a: usize, b: usize|
            #![trigger appended(base, out@).contains((a, b))]
            a < b implies (appended(base, out@).contains((a, b)) <==> (p_acc(a, b) || p_next(
            a, b))) by {}
        assert forall|a: usize, b: usize|
            #![trigger appended(base, out@).contains((a, b))]
            a < b implies (appended(base, out@).contains((a, b)) <==> cell_scan_pair(
            vs, r, cs, gsi, xi, yi, a, b)) by {
            lemma_scan_decompose(vs, r, cs, gsi, xi, yi, a, b);
        }
        assert forall|t: int|
            0 <= t < appended(base, out@).len() implies (#[trigger] appended(base, out@)[t]).0
                < appended(base, out@)[t].1 && cell_scan_pair(
                vs, r, cs, gsi, xi, yi,
                appended(base, out@)[t].0,
                appended(base, out@)[t].1,
            ) by {
            lemma_scan_decompose(
                vs, r, cs, gsi, xi, yi,
                appended(base, out@)[t].0,
                appended(base, out@)[t].1,
            );
        }
    }
}

} // verus!

verus! {

/// What a rectangle scan of cells `[x0, x1) x [y0, y1)` emits: the grid
/// candidates whose owning cell lies in the rectangle.
pub open spec fn region_scan_pair(
    vs: Seq<Verlet>,
    r: i64,
    cs: i64,
    gs: int,
    x0: int,
    x1: int,
    y0: int,
    y1: int,
    a: usize,
    b: usize,
) -> bool {
    &&& grid_pair(vs, r, cs, gs, a as int, b as int)
    &&& x0 <= owner_of(vs, r, cs, a as int, b as int).0 < x1
    &&& y0 <= owner_of(vs, r, cs, a as int, b as int).1 < y1
}

/// Scan every cell of the rectangle `[x0, x1) x [y0, y1)` in row-major
/// order.
fn scan_region(
    g: &Vec<Vec<usize>>,
    gs: usize,
    x0: usize,
    x1: usize,
    y0: usize,
    y1: usize,
    out: &mut Vec<(usize, usize)>,
    Ghost(vs): Ghost<Seq<Verlet>>,
    Ghost(r): Ghost<i64>,
    Ghost(cs): Ghost<i64>,
)
    requires
        cs >= 1,
        grid_wf(deep(g@), vs, r, cs, gs as int),
        x0 <= x1 <= gs,
        y0 <= y1 <= gs,
        (gs as int) * (gs as int) <= usize::MAX as int,
    ensures
        final(out)@.len() >= old(out)@.len(),
        final(out)@.subrange(0, old(out)@.len() as int) == old(out)@,
        forall|a: usize, b: usize|
            #![trigger appended(old(out)@, final(out)@).contains((a, b))]
            a < b ==> (appended(old(out)@, final(out)@).contains((a, b)) <==> region_scan_pair(
                vs,
                r,
                cs,
                gs as int,
                x0 as int,
                x1 as int,
                y0 as int,
                y1 as int,
                a,
                b,
            )),
        forall|t: int|
            0 <= t < appended(old(out)@, final(out)@).len() ==> (#[trigger] appended(
                old(out)@,
                final(out)@,
            )[t]).0 < appended(old(out)@, final(out)@)[t].1 && region_scan_pair(
                vs,
                r,
                cs,
                gs as int,
                x0 as int,
                x1 as int,
                y0 as int,
                y1 as int,
                appended(old(out)@, final(out)@)[t].0,
                appended(old(out)@, final(out)@)[t].1,
            ),
        no_dup_pairs(appended(old(out)@, final(out)@)),
{
    let ghost base = out@;
    let ghost gsi = gs as int;
    let mut y: usize = y0;
    while y < y1
        invariant
            cs >= 1,
            grid_wf(deep(g@), vs, r, cs, gsi),
            gsi == gs as int,
            x0 <= x1 <= gs,
            y0 <= y <= y1 <= gs,
            (gs as int) * (gs as int) <= usize::MAX as int,
            out@.len() >= base.len(),
            out@.subrange(0, base.len() as int) == base,
            forall|a: usize, b: usize|
                #![trigger appended(base, out@).contains((a, b))]
                a < b ==> (appended(base, out@).contains((a, b)) <==> region_scan_pair(
                    vs,
                    r,
                    cs,
                    gsi,
                    x0 as int,
                    x1 as int,
                    y0 as int,
                    y as int,
                    a,
                    b,
                )),
            forall|t: int|
                0 <= t < appended(base, out@).len() ==> (#[trigger] appended(base, out@)[t]).0
                    < appended(base, out@)[t].1 && region_scan_pair(
                    vs,
                    r,
                    cs,
                    gsi,
                    x0 as int,
                    x1 as int,
                    y0 as int,
                    y as int,
                    appended(base, out@)[t].0,
                    appended(base, out@)[t].1,
                ),
            no_dup_pairs(appended(base, out@)),
        decreases y1 - y,
    {
        let mut x: usize = x0;
        while x < x1
            invariant
                cs >= 1,
                grid_wf(deep(g@), vs, r, cs, gsi),
                gsi == gs as int,
                x0 <= x <= x1 <= gs,
                y0 <= y < y1 <= gs,
                (gs as int) * (gs as int) <= usize::MAX as int,
                out@.len() >= base.len(),
                out@.subrange(0, base.len() as int) == base,
                forall|a: usize, b: usize|
                    #![trigger appended(base, out@).contains((a, b))]
                    a < b ==> (appended(base, out@).contains((a, b)) <==> (region_scan_pair(
                        vs,
                        r,
                        cs,
                        gsi,
                        x0 as int,
                        x1 as int,
                        y0 as int,
                        y as int,
                        a,
                        b,
                    ) || region_scan_pair(
                        vs,
                        r,
                        cs,
                        gsi,
                        x0 as int,
                        x as int,
                        y as int,
                        y as int + 1,
                        a,
                        b,
                    ))),
                forall|t: int|
                    0 <= t < appended(base, out@).len() ==> (#[trigger] appended(base, out@)[t]).0
                        < appended(base, out@)[t].1 && (region_scan_pair(
                        vs,
                        r,
                        cs,
                        gsi,
                        x0 as int,
                        x1 as int,
                        y0 as int,
                        y as int,
                        appended(base, out@)[t].0,
                        appended(base, out@)[t].1,
                    ) || region_scan_pair(
                        vs,
                        r,
                        cs,
                        gsi,
                        x0 as int,
                        x as int,
                        y as int,
                        y as int + 1,
                        appended(base, out@)[t].0,
                        appended(base, out@)[t].1,
                    )),
                no_dup_pairs(appended(base, out@)),
            decreases x1 - x,
        {
            let ghost mid = out@;
            let ghost p_acc = |a: usize, b: usize|
                (region_scan_pair(vs, r, cs, gsi, x0 as int, x1 as int, y0 as int, y as int, a, b)
                    || region_scan_pair(
                    vs,
                    r,
                    cs,
                    gsi,
                    x0 as int,
                    x as int,
                    y as int,
                    y as int + 1,
                    a,
                    b,
                ));
            let ghost p_new = |a: usize, b: usize|
                cell_scan_pair(vs, r, cs, gsi, x as int, y as int, a, b);
            scan_cell(g, gs, x, y, out, Ghost(vs), Ghost(r), Ghost(cs));
            proof {
                assert forall|a: usize, b: usize| a < b implies !(#[trigger] p_acc(a, b) && p_new(
                    a,
                    b,
                )) by {}
                lemma_compose_phase(base, mid, out@, p_acc, p_new);
                assert forall|a: usize, b: usize|
                    #![trigger appended(base, out@).contains((a, b))]
                    a < b implies (appended(base, out@).contains((a, b)) <==> (region_scan_pair(
                    vs,
                    r,
                    cs,
                    gsi,
                    x0 as int,
                    x1 as int,
                    y0 as int,
                    y as int,
                    a,
                    b,
                ) || region_scan_pair(
                    vs,
                    r,
                    cs,
                    gsi,
                    x0 as int,
                    x as int + 1,
                    y as int,
                    y as int + 1,
                    a,
                    b,
                ))) by {}
            }
            x += 1;
        }
        proof {
            assert forall|a: usize, b: usize|
                #![trigger appended(base, out@).contains((a, b))]
                a < b implies (appended(base, out@).contains((a, b)) <==> region_scan_pair(
                vs,
                r,
                cs,
                gsi,
                x0 as int,
                x1 as int,
                y0 as int,
                y as int + 1,
                a,
                b,
            )) by {}
        }
        y += 1;
    }
}

} // verus!

verus! {

proof fn lemma_owner_bounds(vs: Seq<Verlet>, r: i64, cs: i64, gs: int, a: int, b: int)
    requires
        cs >= 1,
        grid_pair(vs, r, cs, gs, a, b),
    ensures
        0 <= owner_of(vs, r, cs, a, b).0 < gs,
        0 <= owner_of(vs, r, cs, a, b).1 < gs,
{
    lemma_cell_lin_bounds(vs, r, cs, gs, a);
    lemma_cell_lin_bounds(vs, r, cs, gs, b);
}

/// The grid strategy: bucket all bodies, then scan the whole grid.  The
/// result holds exactly the grid candidates, each exactly once.
pub fn grid_pairs(vs: &Vec<Verlet>, r: i64, cs: i64, gs: usize) -> (out: Vec<(usize, usize)>)
    requires
        all_wf(vs@),
        1 <= cs <= LIM,
        0 <= r <= LIM,
        (gs as int) * (gs as int) <= usize::MAX as int,
    ensures
        valid_pairs(out@, vs@.len() as int),
        no_dup_pairs(out@),
        forall|a: usize, b: usize|
            #![trigger out@.contains((a, b))]
            a < b ==> (out@.contains((a, b)) <==> grid_pair(
                vs@,
                r,
                cs,
                gs as int,
                a as int,
                b as int,
            )),
{
    let g = build_grid(vs, r, cs, gs);
    let mut out: Vec<(usize, usize)> = Vec::new();
    let ghost base = out@;
    scan_region(&g, gs, 0, gs, 0, gs, &mut out, Ghost(vs@), Ghost(r), Ghost(cs));
    proof {
        assert(appended(base, out@) =~= out@);
        assert forall|a: usize, b: usize|
            #![trigger out@.contains((a, b))]
            a < b implies (out@.contains((a, b)) <==> grid_pair(
            vs@,
            r,
            cs,
            gs as int,
            a as int,
            b as int,
        )) by {
            if grid_pair(vs@, r, cs, gs as int, a as int, b as int) {
                lemma_owner_bounds(vs@, r, cs, gs as int, a as int, b as int);
            }
        }
        assert forall|t: int|
            0 <= t < out@.len() implies (#[trigger] out@[t]).0 < out@[t].1 < vs@.len() by {
            assert(appended(base, out@)[t] == out@[t]);
        }
    }
    out
}

/// The start of the `k`-th of `parts` equal slices of `0..gs`.
pub open spec fn band(k: int, gs: int, parts: int) -> int {
    (k * gs) / parts
}

proof fn lemma_band_facts(gs: int, parts: int, k: int)
    requires
        parts >= 1,
        0 <= k < parts,
        gs >= 0,
    ensures
        0 <= band(k, gs, parts) <= band(k + 1, gs, parts) <= gs,
        band(0, gs, parts) == 0,
        band(parts, gs, parts) == gs,
{
    assert(0 * gs == 0) by (nonlinear_arith);
    vstd::arithmetic::div_mod::lemma_div_pos_is_pos(k * gs, parts);
    assert(k * gs >= 0 && k * gs <= (k + 1) * gs && (k + 1) * gs <= parts * gs)
        by (nonlinear_arith)
        requires
            0 <= k < parts,
            gs >= 0,
    ;
    vstd::arithmetic::div_mod::lemma_div_is_ordered(k * gs, (k + 1) * gs, parts);
    vstd::arithmetic::div_mod::lemma_div_is_ordered((k + 1) * gs, parts * gs, parts);
    vstd::arithmetic::div_mod::lemma_div_multiples_vanish(gs, parts);
    assert(parts * gs == gs * parts) by (nonlinear_arith);
    assert((0int) / parts == 0) by {
        vstd::arithmetic::div_mod::lemma_div_of0(parts);
    }
}

/// The tiled grid strategy: the cell rectangle is split into
/// `rx x ry` tiles along integer-division boundaries and each tile is
/// scanned on its own against the shared grid, exactly as a worker pool
/// would run it; the tile results are concatenated in dispatch order.
/// The emitted set is exactly the grid strategy's set, again without
/// duplicates.
pub fn parallel_grid_pairs(
    vs: &Vec<Verlet>,
    r: i64,
    cs: i64,
    gs: usize,
    rx: usize,
    ry: usize,
) -> (out: Vec<(usize, usize)>)
    requires
        all_wf(vs@),
        1 <= cs <= LIM,
        0 <= r <= LIM,
        (gs as int) * (gs as int) <= usize::MAX as int,
        1 <= rx,
        1 <= ry,
        (rx as int) * (gs as int) <= usize::MAX as int,
        (ry as int) * (gs as int) <= usize::MAX as int,
    ensures
        valid_pairs(out@, vs@.len() as int),
        no_dup_pairs(out@),
        forall|a: usize, b: usize|
            #![trigger out@.contains((a, b))]
            a < b ==> (out@.contains((a, b)) <==> grid_pair(
                vs@,
                r,
                cs,
                gs as int,
                a as int,
                b as int,
            )),
{
    let ghost gsi = gs as int;
    let g = build_grid(vs, r, cs, gs);
    let mut out: Vec<(usize, usize)> = Vec::new();
    let ghost base = out@;
    let mut yr: usize = 0;
    while yr < ry
        invariant
            all_wf(vs@),
            cs >= 1,
            grid_wf(deep(g@), vs@, r, cs, gsi),
            gsi == gs as int,
            yr <= ry,
            1 <= rx,
            1 <= ry,
            (gs as int) * (gs as int) <= usize::MAX as int,
            (rx as int) * (gs as int) <= usize::MAX as int,
            (ry as int) * (gs as int) <= usize::MAX as int,
            base.len() == 0,
            out@.subrange(0, base.len() as int) == base,
            forall|a: usize, b: usize|
                #![trigger appended(base, out@).contains((a, b))]
                a < b ==> (appended(base, out@).contains((a, b)) <==> region_scan_pair(
                    vs@,
                    r,
                    cs,
                    gsi,
                    0,
                    gsi,
                    0,
                    band(yr as int, gsi, ry as int),
                    a,
                    b,
                )),
            forall|t: int|
                0 <= t < appended(base, out@).len() ==> (#[trigger] appended(base, out@)[t]).0
                    < appended(base, out@)[t].1 && region_scan_pair(
                    vs@,
                    r,
                    cs,
                    gsi,
                    0,
                    gsi,
                    0,
                    band(yr as int, gsi, ry as int),
                    appended(base, out@)[t].0,
                    appended(base, out@)[t].1,
                ),
            no_dup_pairs(appended(base, out@)),
        decreases ry - yr,
    {
        proof {
            lemma_band_facts(gsi, ry as int, yr as int);
            assert((yr as int) * (gs as int) <= (ry as int) * (gs as int) && ((yr as int) + 1) * (
            gs as int) <= (ry as int) * (gs as int)) by (nonlinear_arith)
                requires
                    0 <= (yr as int) < (ry as int),
                    0 <= gs as int,
            ;
        }
        let ys = (yr * gs) / ry;
        let ye = ((yr + 1) * gs) / ry;
        let ghost ysi = ys as int;
        let ghost yei = ye as int;
        let mut xr: usize = 0;
        while xr < rx
            invariant
                all_wf(vs@),
                cs >= 1,
                grid_wf(deep(g@), vs@, r, cs, gsi),
                gsi == gs as int,
                yr < ry,
                xr <= rx,
                1 <= rx,
                1 <= ry,
                (gs as int) * (gs as int) <= usize::MAX as int,
                (rx as int) * (gs as int) <= usize::MAX as int,
                (ry as int) * (gs as int) <= usize::MAX as int,
                ysi == band(yr as int, gsi, ry as int),
                yei == band(yr as int + 1, gsi, ry as int),
                0 <= ysi <= yei <= gsi,
                ys <= ye <= gs,
                ysi == ys as int,
                yei == ye as int,
                base.len() == 0,
                out@.subrange(0, base.len() as int) == base,
                forall|a: usize, b: usize|
                    #![trigger appended(base, out@).contains((a, b))]
                    a < b ==> (appended(base, out@).contains((a, b)) <==> (region_scan_pair(
                        vs@,
                        r,
                        cs,
                        gsi,
                        0,
                        gsi,
                        0,
                        ysi,
                        a,
                        b,
                    ) || region_scan_pair(
                        vs@,
                        r,
                        cs,
                        gsi,
                        0,
                        band(xr as int, gsi, rx as int),
                        ysi,
                        yei,
                        a,
                        b,
                    ))),
                forall|t: int|
                    0 <= t < appended(base, out@).len() ==> (#[trigger] appended(base, out@)[t]).0
                        < appended(base, out@)[t].1 && (region_scan_pair(
                        vs@,
                        r,
                        cs,
                        gsi,
                        0,
                        gsi,
                        0,
                        ysi,
                        appended(base, out@)[t].0,
                        appended(base, out@)[t].1,
                    ) || region_scan_pair(
                        vs@,
                        r,
                        cs,
                        gsi,
                        0,
                        band(xr as int, gsi, rx as int),
                        ysi,
                        yei,
                        appended(base, out@)[t].0,
                        appended(base, out@)[t].1,
                    )),
                no_dup_pairs(appended(base, out@)),
            decreases rx - xr,
        {
            proof {
                lemma_band_facts(gsi, rx as int, xr as int);
                assert((xr as int) * (gs as int) <= (rx as int) * (gs as int) && ((xr as int) + 1)
                    * (gs as int) <= (rx as int) * (gs as int)) by (nonlinear_arith)
                    requires
                        0 <= (xr as int) < (rx as int),
                        0 <= gs as int,
                ;
            }
            let xs = (xr * gs) / rx;
            let xe = ((xr + 1) * gs) / rx;
            let ghost mid = out@;
            let ghost p_acc = |a: usize, b: usize|
                (region_scan_pair(vs@, r, cs, gsi, 0, gsi, 0, ysi, a, b) || region_scan_pair(
                    vs@,
                    r,
                    cs,
                    gsi,
                    0,
                    band(xr as int, gsi, rx as int),
                    ysi,
                    yei,
                    a,
                    b,
                ));
            let ghost p_new = |a: usize, b: usize|
                region_scan_pair(vs@, r, cs, gsi, xs as int, xe as int, ysi, yei, a, b);
            scan_region(&g, gs, xs, xe, ys, ye, &mut out, Ghost(vs@), Ghost(r), Ghost(cs));
            proof {
                assert forall|a: usize, b: usize| a < b implies !(#[trigger] p_acc(a, b) && p_new(
                    a,
                    b,
                )) by {}
                lemma_compose_phase(base, mid, out@, p_acc, p_new);
                assert forall|a: usize, b: usize|
                    #![trigger appended(base, out@).contains((a, b))]
                    a < b implies (appended(base, out@).contains((a, b)) <==> (region_scan_pair(
                    vs@,
                    r,
                    cs,
                    gsi,
                    0,
                    gsi,
                    0,
                    ysi,
                    a,
                    b,
                ) || region_scan_pair(
                    vs@,
                    r,
                    cs,
                    gsi,
                    0,
                    band(xr as int + 1, gsi, rx as int),
                    ysi,
                    yei,
                    a,
                    b,
                ))) by {}
            }
            xr += 1;
        }
        proof {
            lemma_band_facts(gsi, rx as int, rx as int - 1);
            assert(band(rx as int, gsi, rx as int) == gsi);
            assert forall|a: usize, b: usize|
                #![trigger appended(base, out@).contains((a, b))]
                a < b implies (appended(base, out@).contains((a, b)) <==> region_scan_pair(
                vs@,
                r,
                cs,
                gsi,
                0,
                gsi,
                0,
                yei,
                a,
                b,
            )) by {}
        }
        yr += 1;
    }
    proof {
        lemma_band_facts(gsi, ry as int, ry as int - 1);
        assert(band(ry as int, gsi, ry as int) == gsi);
        assert(appended(base, out@) =~= out@);
        assert forall|a: usize, b: usize|
            #![trigger out@.contains((a, b))]
            a < b implies (out@.contains((a, b)) <==> grid_pair(
            vs@,
            r,
            cs,
            gs as int,
            a as int,
            b as int,
        )) by {
            if grid_pair(vs@, r, cs, gs as int, a as int, b as int) {
                lemma_owner_bounds(vs@, r, cs, gs as int, a as int, b as int);
            }
        }
        assert forall|t: int|
            0 <= t < out@.len() implies (#[trigger] out@[t]).0 < out@[t].1 < vs@.len() by {
            assert(appended(base, out@)[t] == out@[t]);
        }
    }
    out
}

} // verus!

verus! {

/// Floor division sends points less than one cell apart to the same or to
/// adjacent cells.
proof fn lemma_floor_adjacent(u: int, v: int, cs: int)
    requires
        cs >= 1,
        -cs < u - v < cs,
    ensures
        -1 <= u / cs - v / cs <= 1,
{
    if u <= v {
        vstd::arithmetic::div_mod::lemma_div_is_ordered(u, v, cs);
        vstd::arithmetic::div_mod::lemma_div_is_ordered(v, u + cs, cs);
        vstd::arithmetic::div_mod::lemma_div_plus_one(u, cs);
    } else {
        vstd::arithmetic::div_mod::lemma_div_is_ordered(v, u, cs);
        vstd::arithmetic::div_mod::lemma_div_is_ordered(u, v + cs, cs);
        vstd::arithmetic::div_mod::lemma_div_plus_one(v, cs);
    }
}

/// Completeness of the grid: two genuinely overlapping bodies inside the
/// covered square, with radii that fit in one cell, form a grid candidate.
pub proof fn lemma_grid_complete(vs: Seq<Verlet>, r: i64, cs: i64, gs: int, i: int, j: int)
    requires
        all_wf(vs),
        1 <= cs <= LIM,
        0 <= i < vs.len(),
        0 <= j < vs.len(),
        i != j,
        vs[i].radius + vs[j].radius <= cs,
        in_grid(vs, r, cs, gs, i),
        in_grid(vs, r, cs, gs, j),
        overlapping(vs, i, j),
    ensures
        grid_pair(vs, r, cs, gs, i, j),
{
    let pi = vs[i].position;
    let pj = vs[j].position;
    let axis = vminus(pi, pj);
    assert(vs[i].wf());
    assert(vs[j].wf());
    assert(in_lim(axis));
    crate::vec2::lemma_len_dominates(axis);
    let dist = vlen(axis);
    assert(dist < cs);
    assert(-cs < (axis.x as int) && (axis.x as int) < cs && -cs < (axis.y as int) && (axis.y as int) < cs);
    assert(axis.x as int == pi.x - pj.x && axis.y as int == pi.y - pj.y) by {
        assert(axis.x as int == clamped(pi.x - pj.x));
        assert(axis.y as int == clamped(pi.y - pj.y));
    }
    lemma_floor_adjacent(pi.x + r, pj.x + r, cs as int);
    lemma_floor_adjacent(pi.y + r, pj.y + r, cs as int);
    let ci = cell_of(vs, r, cs, i);
    let cj = cell_of(vs, r, cs, j);
    assert(-1 <= ci.0 - cj.0 <= 1 && -1 <= ci.1 - cj.1 <= 1);
    if ci == cj {
    } else if ci.1 == cj.1 {
        assert(fwd_of(ci, cj) || fwd_of(cj, ci));
    } else if ci.1 < cj.1 {
        assert(fwd_of(ci, cj));
    } else {
        assert(fwd_of(cj, ci));
    }
}

/// Genuinely overlapping discs have strictly overlapping x-extents.
pub proof fn lemma_overlap_x_extent(vs: Seq<Verlet>, i: int, j: int)
    requires
        all_wf(vs),
        0 <= i < vs.len(),
        0 <= j < vs.len(),
        vs[i].radius + vs[j].radius <= LIM,
        overlapping(vs, i, j),
    ensures
        x_overlap(vs, i, j),
{
    let pi = vs[i].position;
    let pj = vs[j].position;
    let axis = vminus(pi, pj);
    assert(vs[i].wf());
    assert(vs[j].wf());
    assert(in_lim(axis));
    crate::vec2::lemma_len_dominates(axis);
    let dist = vlen(axis);
    let rr = vs[i].radius + vs[j].radius;
    assert(dist < rr);
    assert(axis.x as int == pi.x - pj.x) by {
        assert(axis.x as int == clamped(pi.x - pj.x));
    }
}

/// Broad-phase equivalence.  Under the standing geometry assumptions —
/// every body is well-formed and inside the covered square, and any two
/// radii together fit in one cell — the four strategies agree:
///
/// - the exact scan emits precisely the overlapping pairs;
/// - the grid and tiled scans emit exactly the same set of candidates, and
///   never emit a candidate twice;
/// - every overlapping pair is among the candidates of every strategy; so
/// - filtering any strategy's candidates by true overlap (which is what
///   the narrow phase does) yields one and the same set.
pub proof fn lemma_broad_phase_agreement(
    naive: Seq<(usize, usize)>,
    swept: Seq<(usize, usize)>,
    grid: Seq<(usize, usize)>,
    tiled: Seq<(usize, usize)>,
    vs: Seq<Verlet>,
    r: i64,
    cs: i64,
    gs: int,
)
    requires
        all_wf(vs),
        1 <= cs <= LIM,
        forall|i: int| 0 <= i < vs.len() ==> #[trigger] in_grid(vs, r, cs, gs, i),
        forall|i: int, j: int|
            0 <= i < vs.len() && 0 <= j < vs.len() ==> (#[trigger] vs[i].radius)
                + #[trigger] vs[j].radius <= cs,
        forall|a: usize, b: usize|
            #![trigger naive.contains((a, b))]
            a < b < vs.len() ==> (naive.contains((a, b)) <==> overlapping(vs, a as int, b as int)),
        valid_pairs(naive, vs.len() as int),
        valid_pairs(swept, vs.len() as int),
        valid_pairs(grid, vs.len() as int),
        valid_pairs(tiled, vs.len() as int),
        sweep_complete(swept, vs),
        forall|a: usize, b: usize|
            #![trigger grid.contains((a, b))]
            a < b ==> (grid.contains((a, b)) <==> grid_pair(vs, r, cs, gs, a as int, b as int)),
        forall|a: usize, b: usize|
            #![trigger tiled.contains((a, b))]
            a < b ==> (tiled.contains((a, b)) <==> grid_pair(vs, r, cs, gs, a as int, b as int)),
    ensures
        forall|y: (usize, usize)| #[trigger] grid.contains(y) <==> tiled.contains(y),
        pairs_complete(naive, vs),
        pairs_complete(swept, vs),
        pairs_complete(grid, vs),
        pairs_complete(tiled, vs),
        forall|a: usize, b: usize|
            #![trigger grid.contains((a, b))]
            a < b < vs.len() ==> ((grid.contains((a, b)) && overlapping(vs, a as int, b as int))
                <==> naive.contains((a, b))),
{
    assert forall|y: (usize, usize)| #[trigger] grid.contains(y) <==> tiled.contains(y) by {
        if grid.contains(y) {
            let t = choose|t: int| 0 <= t < grid.len() && grid[t] == y;
            assert(grid[t].0 < grid[t].1);
            assert(y == (y.0, y.1));
            assert(grid.contains((y.0, y.1)));
            assert(tiled.contains((y.0, y.1)));
        }
        if tiled.contains(y) {
            let t = choose|t: int| 0 <= t < tiled.len() && tiled[t] == y;
            assert(tiled[t].0 < tiled[t].1);
            assert(y == (y.0, y.1));
            assert(tiled.contains((y.0, y.1)));
            assert(grid.contains((y.0, y.1)));
        }
    }
    assert forall|a: usize, b: usize|
        #![trigger overlapping(vs, a as int, b as int)]
        a < b < vs.len() && overlapping(vs, a as int, b as int) implies grid.contains((a, b))
        && tiled.contains((a, b)) && naive.contains((a, b)) && swept.contains((a, b)) by {
        assert(in_grid(vs, r, cs, gs, a as int));
        assert(in_grid(vs, r, cs, gs, b as int));
        assert(vs[a as int].radius + vs[b as int].radius <= cs);
        lemma_grid_complete(vs, r, cs, gs, a as int, b as int);
        lemma_overlap_x_extent(vs, a as int, b as int);
        assert(swept.contains((a, b)));
    }
}

} // verus!

verus! {

/// One boundary of a body's x-extent: its left edge (`is_end == false`) or
/// its right edge (`is_end == true`).
#[derive(Clone, Copy, Debug, PartialEq, Eq, Structural)]
pub struct Event {
    pub key: i64,
    pub is_end: bool,
    pub id: usize,
}

pub open spec fn has_open(es: Seq<Event>, id: int) -> bool {
    exists|t: int| 0 <= t < es.len() && (#[trigger] es[t]).id == id && !es[t].is_end
}

pub open spec fn has_close(es: Seq<Event>, id: int) -> bool {
    exists|t: int| 0 <= t < es.len() && (#[trigger] es[t]).id == id && es[t].is_end
}

/// The persistent event list carries exactly one opening and one closing
/// event for each of the first `len / 2` bodies.
pub open spec fn events_ok(es: Seq<Event>, n: int) -> bool {
    &&& es.len() % 2 == 0
    &&& es.len() <= 2 * n
    &&& forall|t: int| 0 <= t < es.len() ==> (#[trigger] es[t]).id < es.len() / 2
    &&& forall|id: int| 0 <= id < es.len() / 2 ==> #[trigger] has_open(es, id)
    &&& forall|id: int| 0 <= id < es.len() / 2 ==> #[trigger] has_close(es, id)
    &&& forall|t1: int, t2: int|
        0 <= t1 < t2 < es.len() ==> !((#[trigger] es[t1]).id == (#[trigger] es[t2]).id
            && es[t1].is_end == es[t2].is_end)
}

/// The key an event of body `id` should carry: the left or right edge of
/// its x-extent.
pub open spec fn edge_key(vs: Seq<Verlet>, id: int, is_end: bool) -> int {
    if is_end {
        vs[id].position.x + vs[id].radius
    } else {
        vs[id].position.x - vs[id].radius
    }
}

/// Every event carries the key of its body's current edge.
pub open spec fn events_fresh(es: Seq<Event>, vs: Seq<Verlet>) -> bool {
    forall|t: int|
        0 <= t < es.len() ==> (#[trigger] es[t]).id < vs.len() && es[t].key as int == edge_key(
            vs,
            es[t].id as int,
            es[t].is_end,
        )
}

/// The index of the opening (or closing) event of body `id`.
pub open spec fn open_idx(es: Seq<Event>, id: int) -> int {
    choose|t: int| 0 <= t < es.len() && (#[trigger] es[t]).id == id && !es[t].is_end
}

pub open spec fn close_idx(es: Seq<Event>, id: int) -> int {
    choose|t: int| 0 <= t < es.len() && (#[trigger] es[t]).id == id && es[t].is_end
}

/// With a well-paired list, `open_idx` and `close_idx` are the unique
/// indices of the body's two events.
pub proof fn lemma_event_indices(es: Seq<Event>, n: int, id: int)
    requires
        events_ok(es, n),
        0 <= id < es.len() / 2,
    ensures
        0 <= open_idx(es, id) < es.len(),
        es[open_idx(es, id)].id == id && !es[open_idx(es, id)].is_end,
        0 <= close_idx(es, id) < es.len(),
        es[close_idx(es, id)].id == id && es[close_idx(es, id)].is_end,
        forall|t: int|
            0 <= t < es.len() && (#[trigger] es[t]).id == id ==> (if es[t].is_end {
                t == close_idx(es, id)
            } else {
                t == open_idx(es, id)
            }),
{
    assert(has_open(es, id));
    assert(has_close(es, id));
    let o = open_idx(es, id);
    let c = close_idx(es, id);
    assert forall|t: int|
        0 <= t < es.len() && (#[trigger] es[t]).id == id implies (if es[t].is_end {
        t == close_idx(es, id)
    } else {
        t == open_idx(es, id)
    }) by {
        if es[t].is_end {
            if t < c {
                assert(!(es[t].id == es[c].id && es[t].is_end == es[c].is_end));
            }
            if c < t {
                assert(!(es[c].id == es[t].id && es[c].is_end == es[t].is_end));
            }
        } else {
            if t < o {
                assert(!(es[t].id == es[o].id && es[t].is_end == es[o].is_end));
            }
            if o < t {
                assert(!(es[o].id == es[t].id && es[o].is_end == es[t].is_end));
            }
        }
    }
}

/// Keys are sorted in nondecreasing order.
pub open spec fn events_sorted(es: Seq<Event>) -> bool {
    forall|t1: int, t2: int| 0 <= t1 < t2 < es.len() ==> es[t1].key <= es[t2].key
}

/// Pairing structure only depends on the ids and the open/close marks.
proof fn lemma_events_ok_same_ids(es1: Seq<Event>, es2: Seq<Event>, n: int)
    requires
        events_ok(es1, n),
        es2.len() == es1.len(),
        forall|t: int|
            0 <= t < es2.len() ==> (#[trigger] es2[t]).id == es1[t].id && es2[t].is_end
                == es1[t].is_end,
    ensures
        events_ok(es2, n),
{
    assert forall|id: int| 0 <= id < es2.len() / 2 implies #[trigger] has_open(es2, id) by {
        assert(has_open(es1, id));
        let t = choose|t: int|
            0 <= t < es1.len() && (#[trigger] es1[t]).id == id && !es1[t].is_end;
        assert(es2[t].id == id && !es2[t].is_end);
    }
    assert forall|id: int| 0 <= id < es2.len() / 2 implies #[trigger] has_close(es2, id) by {
        assert(has_close(es1, id));
        let t = choose|t: int| 0 <= t < es1.len() && (#[trigger] es1[t]).id == id && es1[t].is_end;
        assert(es2[t].id == id && es2[t].is_end);
    }
}

/// An adjacent swap keeps the pairing structure and every per-event fact.
proof fn lemma_events_ok_swap(es: Seq<Event>, n: int, j: int)
    requires
        events_ok(es, n),
        1 <= j < es.len(),
    ensures
        events_ok(es.update(j - 1, es[j]).update(j, es[j - 1]), n),
{
    let es2 = es.update(j - 1, es[j]).update(j, es[j - 1]);
    assert forall|id: int| 0 <= id < es2.len() / 2 implies #[trigger] has_open(es2, id) by {
        assert(has_open(es, id));
        let t = choose|t: int| 0 <= t < es.len() && (#[trigger] es[t]).id == id && !es[t].is_end;
        if t == j - 1 {
            assert(es2[j].id == id && !es2[j].is_end);
        } else if t == j {
            assert(es2[j - 1].id == id && !es2[j - 1].is_end);
        } else {
            assert(es2[t].id == id && !es2[t].is_end);
        }
    }
    assert forall|id: int| 0 <= id < es2.len() / 2 implies #[trigger] has_close(es2, id) by {
        assert(has_close(es, id));
        let t = choose|t: int| 0 <= t < es.len() && (#[trigger] es[t]).id == id && es[t].is_end;
        if t == j - 1 {
            assert(es2[j].id == id && es2[j].is_end);
        } else if t == j {
            assert(es2[j - 1].id == id && es2[j - 1].is_end);
        } else {
            assert(es2[t].id == id && es2[t].is_end);
        }
    }
    assert forall|t1: int, t2: int|
        0 <= t1 < t2 < es2.len() implies !((#[trigger] es2[t1]).id == (#[trigger] es2[t2]).id
        && es2[t1].is_end == es2[t2].is_end) by {
        let o1: int = if t1 == j - 1 { j } else if t1 == j { j - 1 } else { t1 };
        let o2: int = if t2 == j - 1 { j } else if t2 == j { j - 1 } else { t2 };
        assert(es2[t1] == es[o1]);
        assert(es2[t2] == es[o2]);
        if o1 < o2 {
            assert(!(es[o1].id == es[o2].id && es[o1].is_end == es[o2].is_end));
        } else {
            assert(!(es[o2].id == es[o1].id && es[o2].is_end == es[o1].is_end));
        }
    }
}

/// Restore key order by adjacent-swap insertion sort: cheap on the
/// nearly sorted lists the sweep sees frame to frame, and a full sort on
/// arbitrary input.  The pairing structure and every event's key are
/// untouched.
pub(crate) fn sort_events(events: &mut Vec<Event>, Ghost(vs): Ghost<Seq<Verlet>>, Ghost(n): Ghost<
    int,
>)
    requires
        events_ok(old(events)@, n),
        events_fresh(old(events)@, vs),
    ensures
        final(events)@.len() == old(events)@.len(),
        events_ok(final(events)@, n),
        events_fresh(final(events)@, vs),
        events_sorted(final(events)@),
{
    let m = events.len();
    let mut s: usize = 1;
    while s < m
        invariant
            m == events@.len(),
            1 <= s,
            events_ok(events@, n),
            events_fresh(events@, vs),
            forall|t1: int, t2: int| 0 <= t1 < t2 < s ==> events@[t1].key <= events@[t2].key,
        decreases m - s,
    {
        let mut j: usize = s;
        while j >= 1 && events[j - 1].key > events[j].key
            invariant
                m == events@.len(),
                j <= s < m,
                events_ok(events@, n),
                events_fresh(events@, vs),
                forall|t1: int, t2: int|
                    0 <= t1 < t2 <= s && t2 != j ==> events@[t1].key <= events@[t2].key,
            decreases j,
        {
            let ghost pre = events@;
            let a = events[j - 1];
            let b = events[j];
            events[j - 1] = b;
            events[j] = a;
            proof {
                assert(events@ =~= pre.update(j as int - 1, pre[j as int]).update(
                    j as int,
                    pre[j as int - 1],
                ));
                lemma_events_ok_swap(pre, n, j as int);
            }
            j -= 1;
        }
        s += 1;
    }
}

/// The x-extents of `a` and `b` strictly overlap.
pub open spec fn x_overlap(vs: Seq<Verlet>, a: int, b: int) -> bool {
    &&& edge_key(vs, b, false) < edge_key(vs, a, true)
    &&& edge_key(vs, a, false) < edge_key(vs, b, true)
}

/// The x-extents of `a` and `b` at least touch (closed-interval overlap).
pub open spec fn x_touch(vs: Seq<Verlet>, a: int, b: int) -> bool {
    &&& edge_key(vs, b, false) <= edge_key(vs, a, true)
    &&& edge_key(vs, a, false) <= edge_key(vs, b, true)
}

/// Every pair with strictly overlapping x-extents appears in `ps`.
pub open spec fn sweep_complete(ps: Seq<(usize, usize)>, vs: Seq<Verlet>) -> bool {
    forall|a: usize, b: usize|
        #![trigger ps.contains((a, b))]
        a < b < vs.len() && x_overlap(vs, a as int, b as int) ==> ps.contains((a, b))
}

/// Every entry of `ps` is an ordered in-range pair whose x-extents at
/// least touch.
pub open spec fn sweep_sound(ps: Seq<(usize, usize)>, vs: Seq<Verlet>) -> bool {
    forall|t: int|
        0 <= t < ps.len() ==> (#[trigger] ps[t]).0 < ps[t].1 < vs.len() && x_touch(
            vs,
            ps[t].0 as int,
            ps[t].1 as int,
        )
}

/// The sweep strategy over a persistent event list: refresh the interval
/// edges from the current positions, append events for bodies seen for the
/// first time, restore sortedness by adjacent-swap insertion sort (the
/// list is nearly sorted between frames), then sweep once along x keeping
/// an active set; every body opening its interval is paired with every
/// currently open body.  Every pair whose x-extents strictly overlap is
/// emitted.
#[verifier::rlimit(60)]
pub fn sweep_pairs(events: &mut Vec<Event>, vs: &Vec<Verlet>) -> (out: Vec<(usize, usize)>)
    requires
        all_wf(vs@),
        events_ok(old(events)@, vs@.len() as int),
    ensures
        events_ok(final(events)@, vs@.len() as int),
        final(events)@.len() == 2 * vs@.len(),
        events_sorted(final(events)@),
        events_fresh(final(events)@, vs@),
        valid_pairs(out@, vs@.len() as int),
        no_dup_pairs(out@),
        sweep_sound(out@, vs@),
        sweep_complete(out@, vs@),
{
    let n = vs.len();
    let ghost es0 = old(events)@;
    // refresh the keys of the existing events
    let mut t: usize = 0;
    while t < events.len()
        invariant
            all_wf(vs@),
            n == vs@.len(),
            events_ok(es0, n as int),
            events@.len() == es0.len(),
            forall|t2: int|
                0 <= t2 < events@.len() ==> (#[trigger] events@[t2]).id == es0[t2].id
                    && events@[t2].is_end == es0[t2].is_end,
            forall|t2: int|
                0 <= t2 < t ==> (#[trigger] events@[t2]).key as int == edge_key(
                    vs@,
                    events@[t2].id as int,
                    events@[t2].is_end,
                ),
        decreases events@.len() - t,
    {
        let id = events[t].id;
        proof {
            assert(es0[t as int].id < es0.len() / 2);
            assert(vs@[id as int].wf());
        }
        let e = events[t];
        let key = if e.is_end {
            vs[id].position.x + vs[id].radius
        } else {
            vs[id].position.x - vs[id].radius
        };
        events[t] = Event { key, ..e };
        t += 1;
    }
    proof {
        lemma_events_ok_same_ids(es0, events@, n as int);
    }
    // append events for bodies that have none yet
    let mut i: usize = events.len() / 2;
    proof {
        assert(2 * (events@.len() / 2) == events@.len());
    }
    while i < n
        invariant
            all_wf(vs@),
            n == vs@.len(),
            i <= n,
            events@.len() == 2 * i,
            events_ok(events@, i as int),
            events_fresh(events@, vs@),
        decreases n - i,
    {
        proof {
            assert(vs@[i as int].wf());
        }
        let ghost pre = events@;
        events.push(Event { key: vs[i].position.x - vs[i].radius, is_end: false, id: i });
        events.push(Event { key: vs[i].position.x + vs[i].radius, is_end: true, id: i });
        proof {
            let cur = events@;
            assert(cur.len() == 2 * i + 2);
            assert(cur[2 * (i as int)] == (Event {
                key: (vs@[i as int].position.x - vs@[i as int].radius) as i64,
                is_end: false,
                id: i,
            }));
            assert(cur[2 * (i as int) + 1] == (Event {
                key: (vs@[i as int].position.x + vs@[i as int].radius) as i64,
                is_end: true,
                id: i,
            }));
            assert(forall|t2: int| 0 <= t2 < pre.len() ==> cur[t2] == #[trigger] pre[t2]);
            assert forall|id: int| 0 <= id < cur.len() / 2 implies #[trigger] has_open(cur, id) by {
                if id < i {
                    assert(has_open(pre, id));
                    let t0 = choose|t0: int|
                        0 <= t0 < pre.len() && (#[trigger] pre[t0]).id == id && !pre[t0].is_end;
                    assert(cur[t0].id == id && !cur[t0].is_end);
                } else {
                    assert(cur[2 * (i as int)].id == id && !cur[2 * (i as int)].is_end);
                }
            }
            assert forall|id: int| 0 <= id < cur.len() / 2 implies #[trigger] has_close(cur, id) by {
                if id < i {
                    assert(has_close(pre, id));
                    let t0 = choose|t0: int|
                        0 <= t0 < pre.len() && (#[trigger] pre[t0]).id == id && pre[t0].is_end;
                    assert(cur[t0].id == id && cur[t0].is_end);
                } else {
                    assert(cur[2 * (i as int) + 1].id == id && cur[2 * (i as int) + 1].is_end);
                }
            }
        }
        i += 1;
    }
    // restore key order; the list is nearly sorted frame to frame
    sort_events(events, Ghost(vs@), Ghost(n as int));
    let m = events.len();
    let ghost es = events@;
    proof {
        assert forall|id: int| 0 <= id < n implies 0 <= #[trigger] open_idx(es, id) && 0
            <= close_idx(es, id) by {
            lemma_event_indices(es, n as int, id);
        }
    }
    // sweep: pair each opening body against every active one
    let mut out: Vec<(usize, usize)> = Vec::new();
    let mut active: Vec<usize> = Vec::new();
    let mut t: usize = 0;
    while t < m
        invariant
            all_wf(vs@),
            m == es.len(),
            es == events@,
            n == vs@.len(),
            es.len() == 2 * n,
            events_ok(es, n as int),
            events_fresh(es, vs@),
            events_sorted(es),
            t <= m,
            forall|k: int| 0 <= k < active@.len() ==> (#[trigger] active@[k]) < n,
            forall|k1: int, k2: int| 0 <= k1 < k2 < active@.len() ==> active@[k1] != active@[k2],
            forall|id: int|
                #![trigger active@.contains(id as usize)]
                0 <= id < n ==> (active@.contains(id as usize) <==> (open_idx(es, id) < t
                    && t <= close_idx(es, id))),
            valid_pairs(out@, n as int),
            no_dup_pairs(out@),
            sweep_sound(out@, vs@),
            forall|t2: int|
                0 <= t2 < out@.len() ==> open_idx(es, (#[trigger] out@[t2]).0 as int) < t as int
                    && open_idx(es, out@[t2].1 as int) < t as int,
            forall|a: usize, b: usize|
                #![trigger out@.contains((a, b))]
                a < b < n && x_overlap(vs@, a as int, b as int) && open_idx(es, a as int) < t
                    && open_idx(es, b as int) < t ==> out@.contains((a, b)),
        decreases m - t,
    {
        let e = events[t];
        proof {
            assert(es[t as int].id < n);
            lemma_event_indices(es, n as int, e.id as int);
        }
        if !e.is_end {
            proof {
                assert(open_idx(es, e.id as int) == t as int);
                // the closing event comes strictly later: keys are sorted
                // and the right edge exceeds the left edge
                assert(vs@[e.id as int].wf());
                let c = close_idx(es, e.id as int);
                if c < t as int {
                    assert(es[c].key <= es[t as int].key);
                    assert(false);
                }
                assert(c != t as int);
                // every currently active body touches the opening one on
                // the x axis: it opened at or before this key and closes
                // at or after it
                assert forall|k2: int|
                    0 <= k2 < active@.len() implies (#[trigger] active@[k2]) != e.id && open_idx(
                    es,
                    active@[k2] as int,
                ) < t as int && x_touch(vs@, active@[k2] as int, e.id as int) by {
                    let a = active@[k2] as int;
                    assert(active@.contains(a as usize));
                    assert(open_idx(es, a) < t as int && t as int <= close_idx(es, a));
                    lemma_event_indices(es, n as int, a);
                    assert(vs@[a].wf());
                    if close_idx(es, a) == t as int {
                        assert(false);
                    }
                    assert(es[open_idx(es, a)].key <= es[t as int].key);
                    assert(es[t as int].key <= es[close_idx(es, a)].key);
                }
            }
            let ghost pre_out = out@;
            let mut k: usize = 0;
            while k < active.len()
                invariant
                    all_wf(vs@),
                    m == es.len(),
                    es == events@,
                    n == vs@.len(),
                    es.len() == 2 * n,
                    events_ok(es, n as int),
                    events_fresh(es, vs@),
                    events_sorted(es),
                    t < m,
                    e == es[t as int],
                    !e.is_end,
                    e.id < n,
                    open_idx(es, e.id as int) == t as int,
                    forall|k2: int| 0 <= k2 < active@.len() ==> (#[trigger] active@[k2]) < n,
                    forall|k1: int, k2: int|
                        0 <= k1 < k2 < active@.len() ==> active@[k1] != active@[k2],
                    forall|k2: int|
                        0 <= k2 < active@.len() ==> (#[trigger] active@[k2]) != e.id && open_idx(
                            es,
                            active@[k2] as int,
                        ) < t as int && x_touch(vs@, active@[k2] as int, e.id as int),
                    k <= active@.len(),
                    out@.len() == pre_out.len() + k,
                    forall|t2: int| 0 <= t2 < pre_out.len() ==> out@[t2] == #[trigger] pre_out[t2],
                    forall|k2: int|
                        0 <= k2 < k ==> out@[pre_out.len() + k2] == norm2(
                            #[trigger] active@[k2],
                            e.id,
                        ),
                    forall|t2: int|
                        0 <= t2 < pre_out.len() ==> open_idx(
                            es,
                            (#[trigger] pre_out[t2]).0 as int,
                        ) < t as int && open_idx(es, pre_out[t2].1 as int) < t as int,
                    valid_pairs(out@, n as int),
                    no_dup_pairs(out@),
                    sweep_sound(out@, vs@),
                decreases active@.len() - k,
            {
                let other = active[k];
                let ghost pre = out@;
                if other < e.id {
                    out.push((other, e.id));
                } else {
                    out.push((e.id, other));
                }
                proof {
                    assert(other != e.id);
                    let p = norm2(active@[k as int], e.id);
                    assert(out@ == pre.push(p));
                    assert(p.0 < p.1 < n);
                    assert(x_touch(vs@, p.0 as int, p.1 as int)) by {
                        assert(x_touch(vs@, active@[k as int] as int, e.id as int));
                    }
                    assert(p.0 == e.id || p.1 == e.id);
                    assert forall|t1: int, t2: int|
                        0 <= t1 < t2 < out@.len() implies out@[t1] != out@[t2] by {
                        if t2 == out@.len() - 1 && out@[t1] == p {
                            if t1 < pre_out.len() {
                                // earlier rounds emitted only pairs whose
                                // bodies had already opened
                                assert(out@[t1] == pre_out[t1]);
                                assert(open_idx(es, (pre_out[t1]).0 as int) < t as int
                                    && open_idx(es, pre_out[t1].1 as int) < t as int);
                                assert(open_idx(es, e.id as int) < t as int);
                            } else {
                                let k2 = t1 - pre_out.len();
                                assert(out@[t1] == norm2(active@[k2], e.id));
                                assert(active@[k2] != e.id && active@[k as int] != e.id);
                                assert(active@[k2] == active@[k as int]);
                            }
                        }
                    }
                }
                k += 1;
            }
            proof {
                assert forall|k2: int|
                    0 <= k2 < active@.len() implies out@.contains(
                    norm2(#[trigger] active@[k2], e.id),
                ) by {
                    assert(out@[pre_out.len() + k2] == norm2(active@[k2], e.id));
                }
            }
            let ghost pre_act = active@;
            active.push(e.id);
            proof {
                let tt = t as int;
                assert(active@ == pre_act.push(e.id));
                assert forall|id: int|
                    #![trigger active@.contains(id as usize)]
                    0 <= id < n implies (active@.contains(id as usize) <==> (open_idx(es, id) < tt
                    + 1 && tt + 1 <= close_idx(es, id))) by {
                    lemma_event_indices(es, n as int, id);
                    if id == e.id as int {
                        assert(active@[active@.len() - 1] == e.id);
                        assert(active@.contains(e.id));
                        assert(open_idx(es, id) == tt);
                        assert(close_idx(es, id) != tt);
                        if close_idx(es, id) < tt {
                            assert(es[close_idx(es, id)].key <= es[tt].key);
                            assert(vs@[id].wf());
                            assert(false);
                        }
                    } else {
                        assert(open_idx(es, id) != tt);
                        assert(close_idx(es, id) != tt);
                        assert forall|y: usize| #[trigger]
                            active@.contains(y) <==> (pre_act.contains(y) || y == e.id) by {
                            lemma_contains_push(pre_act, e.id, y);
                        }
                        assert(pre_act.contains(id as usize) <==> (open_idx(es, id) < tt && tt
                            <= close_idx(es, id)));
                        assert(active@.contains(id as usize) <==> pre_act.contains(id as usize));
                    }
                }
                // pairs emitted so far mention only bodies opened by now
                assert forall|t2: int|
                    0 <= t2 < out@.len() implies open_idx(es, (#[trigger] out@[t2]).0 as int) < tt
                    + 1 && open_idx(es, out@[t2].1 as int) < tt + 1 by {
                    if t2 < pre_out.len() {
                        assert(out@[t2] == pre_out[t2]);
                    } else {
                        let k2 = t2 - pre_out.len();
                        assert(out@[t2] == norm2(pre_act[k2], e.id));
                        assert(open_idx(es, pre_act[k2] as int) < tt);
                        assert(open_idx(es, e.id as int) == tt);
                    }
                }
                // every pair newly covered by this opening was emitted
                assert forall|a: usize, b: usize|
                    #![trigger out@.contains((a, b))]
                    a < b < n && x_overlap(vs@, a as int, b as int) && open_idx(es, a as int) < tt
                    + 1 && open_idx(es, b as int) < tt + 1 implies out@.contains((a, b)) by {
                    if open_idx(es, a as int) < tt && open_idx(es, b as int) < tt {
                        assert(pre_out.contains((a, b)));
                        let q0 = choose|q0: int| 0 <= q0 < pre_out.len() && pre_out[q0] == (a, b);
                        assert(out@[q0] == (a, b));
                    } else {
                        // one of the two opened right now, and it is e.id
                        lemma_event_indices(es, n as int, a as int);
                        lemma_event_indices(es, n as int, b as int);
                        let o: int = if open_idx(es, a as int) == tt {
                            b as int
                        } else {
                            a as int
                        };
                        assert(open_idx(es, o) < tt);
                        lemma_event_indices(es, n as int, o);
                        // its interval is still open: the closing key is
                        // past this opening key
                        let c = close_idx(es, o);
                        if c <= tt {
                            assert(es[c].key <= es[tt].key);
                            assert(es[c].key as int == edge_key(vs@, o, true));
                            assert(es[tt].key as int == edge_key(vs@, e.id as int, false));
                            assert(false);
                        }
                        assert(pre_act.contains(o as usize));
                        let q = choose|q: int| 0 <= q < pre_act.len() && pre_act[q] == o as usize;
                        assert(out@.contains(norm2(pre_act[q], e.id)));
                        assert(norm2(o as usize, e.id) == (a, b));
                    }
                }
            }
        } else {
            proof {
                assert(close_idx(es, e.id as int) == t as int);
            }
            let mut k: usize = 0;
            let mut found = active.len();
            while k < active.len()
                invariant
                    forall|k2: int| 0 <= k2 < active@.len() ==> (#[trigger] active@[k2]) < n,
                    k <= active@.len(),
                    found <= active@.len(),
                    found < active@.len() ==> active@[found as int] == e.id,
                    found == active@.len() ==> forall|k2: int|
                        0 <= k2 < k ==> (#[trigger] active@[k2]) != e.id,
                decreases active@.len() - k,
            {
                if active[k] == e.id {
                    found = k;
                    k = active.len();
                } else {
                    k += 1;
                }
            }
            let ghost pre_active = active@;
            if found < active.len() {
                active.remove(found);
            }
            proof {
                let tt = t as int;
                assert forall|id: int|
                    #![trigger active@.contains(id as usize)]
                    0 <= id < n implies (active@.contains(id as usize) <==> (open_idx(es, id) < tt
                    + 1 && tt + 1 <= close_idx(es, id))) by {
                    lemma_event_indices(es, n as int, id);
                    assert(open_idx(es, id) != tt);
                    if id == e.id as int {
                        // just closed: it was in the active list and its
                        // one occurrence is gone
                        assert(open_idx(es, id) < close_idx(es, id)) by {
                            if close_idx(es, id) < open_idx(es, id) {
                                assert(es[close_idx(es, id)].key <= es[open_idx(es, id)].key);
                                assert(vs@[id].wf());
                                assert(false);
                            }
                        }
                        assert(pre_active.contains(id as usize));
                        assert(found < pre_active.len());
                        if active@.contains(id as usize) {
                            let q = choose|q: int|
                                0 <= q < active@.len() && active@[q] == id as usize;
                            if q < found {
                                assert(pre_active[q] == id as usize);
                                assert(pre_active[found as int] == id as usize);
                            } else {
                                assert(pre_active[q + 1] == id as usize);
                                assert(pre_active[found as int] == id as usize);
                            }
                            assert(false);
                        }
                    } else {
                        assert(close_idx(es, id) != tt);
                        if found == pre_active.len() {
                            assert(active@ == pre_active);
                        } else {
                            assert(pre_active.contains(id as usize) <==> active@.contains(
                                id as usize,
                            )) by {
                                if pre_active.contains(id as usize) {
                                    let q = choose|q: int|
                                        0 <= q < pre_active.len() && pre_active[q] == id as usize;
                                    assert(q != found);
                                    if q < found {
                                        assert(active@[q] == id as usize);
                                    } else {
                                        assert(active@[q - 1] == id as usize);
                                    }
                                    assert(active@.contains(id as usize));
                                }
                                if active@.contains(id as usize) {
                                    let q = choose|q: int|
                                        0 <= q < active@.len() && active@[q] == id as usize;
                                    if q < found {
                                        assert(pre_active[q] == id as usize);
                                    } else {
                                        assert(pre_active[q + 1] == id as usize);
                                    }
                                    assert(pre_active.contains(id as usize));
                                }
                            }
                        }
                    }
                }
                assert forall|k1: int, k2: int|
                    0 <= k1 < k2 < active@.len() implies active@[k1] != active@[k2] by {
                    if found < pre_active.len() {
                        let o1: int = if k1 < found {
                            k1
                        } else {
                            k1 + 1
                        };
                        let o2: int = if k2 < found {
                            k2
                        } else {
                            k2 + 1
                        };
                        assert(active@[k1] == pre_active[o1]);
                        assert(active@[k2] == pre_active[o2]);
                    }
                }
                assert forall|a: usize, b: usize|
                    #![trigger out@.contains((a, b))]
                    a < b < n && x_overlap(vs@, a as int, b as int) && open_idx(es, a as int) < tt
                    + 1 && open_idx(es, b as int) < tt + 1 implies out@.contains((a, b)) by {
                    lemma_event_indices(es, n as int, a as int);
                    lemma_event_indices(es, n as int, b as int);
                    assert(open_idx(es, a as int) != tt);
                    assert(open_idx(es, b as int) != tt);
                }
            }
        }
        t += 1;
    }
    proof {
        assert forall|a: usize, b: usize|
            #![trigger out@.contains((a, b))]
            a < b < vs@.len() && x_overlap(vs@, a as int, b as int) implies out@.contains(
        (a, b)) by {
            lemma_event_indices(es, n as int, a as int);
            lemma_event_indices(es, n as int, b as int);
        }
    }
    out
}

} // verus!

verus! {

/// The candidates owned by one tile of the cell rectangle, computed
/// against a freshly built grid: the unit of work a worker pool hands to
/// one thread.  Concatenating the tiles of a partition of the grid yields
/// exactly `grid_pairs`.
pub fn tile_pairs(
    vs: &Vec<Verlet>,
    r: i64,
    cs: i64,
    gs: usize,
    x0: usize,
    x1: usize,
    y0: usize,
    y1: usize,
) -> (out: Vec<(usize, usize)>)
    requires
        all_wf(vs@),
        1 <= cs <= LIM,
        0 <= r <= LIM,
        (gs as int) * (gs as int) <= usize::MAX as int,
        x0 <= x1 <= gs,
        y0 <= y1 <= gs,
    ensures
        valid_pairs(out@, vs@.len() as int),
        no_dup_pairs(out@),
        forall|a: usize, b: usize|
            #![trigger out@.contains((a, b))]
            a < b ==> (out@.contains((a, b)) <==> region_scan_pair(
                vs@,
                r,
                cs,
                gs as int,
                x0 as int,
                x1 as int,
                y0 as int,
                y1 as int,
                a,
                b,
            )),
{
    let g = build_grid(vs, r, cs, gs);
    let mut out: Vec<(usize, usize)> = Vec::new();
    let ghost base = out@;
    scan_region(&g, gs, x0, x1, y0, y1, &mut out, Ghost(vs@), Ghost(r), Ghost(cs));
    proof {
        assert(appended(base, out@) =~= out@);
        assert forall|t: int|
            0 <= t < out@.len() implies (#[trigger] out@[t]).0 < out@[t].1 < vs@.len() by {
            assert(appended(base, out@)[t] == out@[t]);
        }
    }
    out
}

} // verus!
