//! Snapshot persistence: the whole solver state as one binary blob, and a
//! secondary blob holding only the per-body colors.
//!
//! Every stored quantity becomes one little-endian 64-bit word.  Encoding
//! is injective on solver states (`lemma_snapshot_injective`), and a
//! successful decode returns a well-formed state that re-encodes to
//! exactly the input bytes, so a loaded snapshot replays exactly like the
//! state that was saved.

use crate::broadphase::{all_wf, events_ok, Event};
use crate::fixed::{LIM, SCALE};
use crate::solver::{BroadPhase, Solver};
use crate::vec2::Vec2;
use crate::verlet::{Color, Verlet};
use vstd::bytes::{
    lemma_auto_spec_u64_to_from_le_bytes, spec_u64_from_le_bytes, spec_u64_to_le_bytes,
    u64_from_le_bytes, u64_to_le_bytes,
};
use vstd::prelude::*;

verus! {

/// Snapshot bytes that no well-formed solver state produces.
#[derive(Clone, Copy, Debug, PartialEq, Eq, Structural)]
pub enum SnapshotError {
    Malformed,
}

pub open spec fn strategy_tag(s: BroadPhase) -> u64 {
    match s {
        BroadPhase::Naive => 0,
        BroadPhase::Sweep => 1,
        BroadPhase::Grid => 2,
        BroadPhase::ParallelGrid => 3,
    }
}

/// The twenty words of one body.
pub open spec fn verlet_words(v: Verlet) -> Seq<u64> {
    seq![
        v.id as u64,
        v.position.x as u64,
        v.position.y as u64,
        v.last_position.x as u64,
        v.last_position.y as u64,
        v.last_grid as u64,
        v.position_in_cell as u64,
        v.acceleration.x as u64,
        v.acceleration.y as u64,
        v.last_acceleration.x as u64,
        v.last_acceleration.y as u64,
        v.radius as u64,
        v.density as u64,
        v.last_dt as u64,
        v.color.r as u64,
        v.color.g as u64,
        v.color.b as u64,
        v.color.a as u64,
        if v.is_sleeping {
            1u64
        } else {
            0u64
        },
        v.sleep_timer as u64,
    ]
}

/// The four words of one color frame.
pub open spec fn color_words(c: Color) -> Seq<u64> {
    seq![c.r as u64, c.g as u64, c.b as u64, c.a as u64]
}

/// The three words of one sweep event.
pub open spec fn event_words(e: Event) -> Seq<u64> {
    seq![
        e.key as u64,
        if e.is_end {
            1u64
        } else {
            0u64
        },
        e.id as u64,
    ]
}

pub open spec fn verlets_flat(vs: Seq<Verlet>) -> Seq<u64>
    decreases vs.len(),
{
    if vs.len() == 0 {
        Seq::empty()
    } else {
        verlets_flat(vs.drop_last()) + verlet_words(vs.last())
    }
}

pub open spec fn colors_flat(cs: Seq<Color>) -> Seq<u64>
    decreases cs.len(),
{
    if cs.len() == 0 {
        Seq::empty()
    } else {
        colors_flat(cs.drop_last()) + color_words(cs.last())
    }
}

pub open spec fn events_flat(es: Seq<Event>) -> Seq<u64>
    decreases es.len(),
{
    if es.len() == 0 {
        Seq::empty()
    } else {
        events_flat(es.drop_last()) + event_words(es.last())
    }
}

pub open spec fn words_flat(ws: Seq<u64>) -> Seq<u8>
    decreases ws.len(),
{
    if ws.len() == 0 {
        Seq::empty()
    } else {
        words_flat(ws.drop_last()) + spec_u64_to_le_bytes(ws.last())
    }
}

/// The fifteen header words.
pub open spec fn header_words(s: Solver) -> Seq<u64> {
    seq![
        s.verlets@.len() as u64,
        s.gravity.x as u64,
        s.gravity.y as u64,
        s.constraint_radius as u64,
        s.subdivision as u64,
        s.cell_size as u64,
        s.grid_size as u64,
        s.region_split_x as u64,
        s.region_split_y as u64,
        strategy_tag(s.strategy),
        s.wall_restitution as u64,
        s.pair_restitution as u64,
        s.current_frame as u64,
        s.color_frames@.len() as u64,
        s.events@.len() as u64,
    ]
}

pub open spec fn solver_words(s: Solver) -> Seq<u64> {
    header_words(s) + verlets_flat(s.verlets@) + colors_flat(s.color_frames@) + events_flat(
        s.events@,
    )
}

/// The snapshot blob: every word as eight little-endian bytes.
pub open spec fn snapshot_bytes(s: Solver) -> Seq<u8> {
    words_flat(solver_words(s))
}

/// The color blob.
pub open spec fn colors_blob(cs: Seq<Color>) -> Seq<u8> {
    words_flat(seq![cs.len() as u64] + colors_flat(cs))
}

// ---------------------------------------------------------------------
// Structure lemmas for the flattenings
// ---------------------------------------------------------------------

pub proof fn lemma_verlets_flat_len(vs: Seq<Verlet>)
    ensures
        verlets_flat(vs).len() == 20 * vs.len(),
    decreases vs.len(),
{
    if vs.len() > 0 {
        lemma_verlets_flat_len(vs.drop_last());
    }
}

pub proof fn lemma_colors_flat_len(cs: Seq<Color>)
    ensures
        colors_flat(cs).len() == 4 * cs.len(),
    decreases cs.len(),
{
    if cs.len() > 0 {
        lemma_colors_flat_len(cs.drop_last());
    }
}

pub proof fn lemma_events_flat_len(es: Seq<Event>)
    ensures
        events_flat(es).len() == 3 * es.len(),
    decreases es.len(),
{
    if es.len() > 0 {
        lemma_events_flat_len(es.drop_last());
    }
}

pub proof fn lemma_words_flat_len(ws: Seq<u64>)
    ensures
        words_flat(ws).len() == 8 * ws.len(),
    decreases ws.len(),
{
    if ws.len() > 0 {
        lemma_words_flat_len(ws.drop_last());
        lemma_auto_spec_u64_to_from_le_bytes();
    }
}

pub proof fn lemma_verlets_flat_snoc(vs: Seq<Verlet>, i: int)
    requires
        0 <= i < vs.len(),
    ensures
        verlets_flat(vs.take(i + 1)) == verlets_flat(vs.take(i)) + verlet_words(vs[i]),
{
    assert(vs.take(i + 1).drop_last() =~= vs.take(i));
    assert(vs.take(i + 1).last() == vs[i]);
}

pub proof fn lemma_colors_flat_snoc(cs: Seq<Color>, i: int)
    requires
        0 <= i < cs.len(),
    ensures
        colors_flat(cs.take(i + 1)) == colors_flat(cs.take(i)) + color_words(cs[i]),
{
    assert(cs.take(i + 1).drop_last() =~= cs.take(i));
    assert(cs.take(i + 1).last() == cs[i]);
}

pub proof fn lemma_events_flat_snoc(es: Seq<Event>, i: int)
    requires
        0 <= i < es.len(),
    ensures
        events_flat(es.take(i + 1)) == events_flat(es.take(i)) + event_words(es[i]),
{
    assert(es.take(i + 1).drop_last() =~= es.take(i));
    assert(es.take(i + 1).last() == es[i]);
}

pub proof fn lemma_words_flat_snoc(ws: Seq<u64>, i: int)
    requires
        0 <= i < ws.len(),
    ensures
        words_flat(ws.take(i + 1)) == words_flat(ws.take(i)) + spec_u64_to_le_bytes(ws[i]),
{
    assert(ws.take(i + 1).drop_last() =~= ws.take(i));
    assert(ws.take(i + 1).last() == ws[i]);
}

/// Each word is recoverable from the byte flattening.
pub proof fn lemma_words_flat_slice(ws: Seq<u64>, k: int)
    requires
        0 <= k < ws.len(),
    ensures
        words_flat(ws).len() == 8 * ws.len(),
        words_flat(ws).subrange(8 * k, 8 * k + 8) == spec_u64_to_le_bytes(ws[k]),
    decreases ws.len(),
{
    lemma_words_flat_len(ws);
    lemma_auto_spec_u64_to_from_le_bytes();
    if k == ws.len() - 1 {
        lemma_words_flat_len(ws.drop_last());
        assert(words_flat(ws).subrange(8 * k, 8 * k + 8) =~= spec_u64_to_le_bytes(ws.last()));
    } else {
        lemma_words_flat_slice(ws.drop_last(), k);
        lemma_words_flat_len(ws.drop_last());
        assert(words_flat(ws).subrange(8 * k, 8 * k + 8) =~= words_flat(ws.drop_last()).subrange(
            8 * k,
            8 * k + 8,
        ));
        assert(ws[k] == ws.drop_last()[k]);
    }
}

/// Byte flattening is injective on word lists.
pub proof fn lemma_words_flat_injective(ws1: Seq<u64>, ws2: Seq<u64>)
    requires
        words_flat(ws1) == words_flat(ws2),
    ensures
        ws1 == ws2,
{
    lemma_words_flat_len(ws1);
    lemma_words_flat_len(ws2);
    assert(ws1.len() == ws2.len());
    assert forall|k: int| 0 <= k < ws1.len() implies ws1[k] == ws2[k] by {
        lemma_words_flat_slice(ws1, k);
        lemma_words_flat_slice(ws2, k);
        lemma_auto_spec_u64_to_from_le_bytes();
        assert(spec_u64_from_le_bytes(spec_u64_to_le_bytes(ws1[k])) == ws1[k]);
        assert(spec_u64_from_le_bytes(spec_u64_to_le_bytes(ws2[k])) == ws2[k]);
    }
    assert(ws1 =~= ws2);
}

} // verus!

verus! {

pub proof fn lemma_verlets_flat_slice(vs: Seq<Verlet>, k: int)
    requires
        0 <= k < vs.len(),
    ensures
        verlets_flat(vs).len() == 20 * vs.len(),
        verlets_flat(vs).subrange(20 * k, 20 * k + 20) == verlet_words(vs[k]),
    decreases vs.len(),
{
    lemma_verlets_flat_len(vs);
    if k == vs.len() - 1 {
        lemma_verlets_flat_len(vs.drop_last());
        assert(verlets_flat(vs).subrange(20 * k, 20 * k + 20) =~= verlet_words(vs.last()));
    } else {
        lemma_verlets_flat_slice(vs.drop_last(), k);
        lemma_verlets_flat_len(vs.drop_last());
        assert(verlets_flat(vs).subrange(20 * k, 20 * k + 20) =~= verlets_flat(
            vs.drop_last(),
        ).subrange(20 * k, 20 * k + 20));
        assert(vs[k] == vs.drop_last()[k]);
    }
}

pub proof fn lemma_colors_flat_slice(cs: Seq<Color>, k: int)
    requires
        0 <= k < cs.len(),
    ensures
        colors_flat(cs).len() == 4 * cs.len(),
        colors_flat(cs).subrange(4 * k, 4 * k + 4) == color_words(cs[k]),
    decreases cs.len(),
{
    lemma_colors_flat_len(cs);
    if k == cs.len() - 1 {
        lemma_colors_flat_len(cs.drop_last());
        assert(colors_flat(cs).subrange(4 * k, 4 * k + 4) =~= color_words(cs.last()));
    } else {
        lemma_colors_flat_slice(cs.drop_last(), k);
        lemma_colors_flat_len(cs.drop_last());
        assert(colors_flat(cs).subrange(4 * k, 4 * k + 4) =~= colors_flat(cs.drop_last()).subrange(
            4 * k,
            4 * k + 4,
        ));
        assert(cs[k] == cs.drop_last()[k]);
    }
}

pub proof fn lemma_events_flat_slice(es: Seq<Event>, k: int)
    requires
        0 <= k < es.len(),
    ensures
        events_flat(es).len() == 3 * es.len(),
        events_flat(es).subrange(3 * k, 3 * k + 3) == event_words(es[k]),
    decreases es.len(),
{
    lemma_events_flat_len(es);
    if k == es.len() - 1 {
        lemma_events_flat_len(es.drop_last());
        assert(events_flat(es).subrange(3 * k, 3 * k + 3) =~= event_words(es.last()));
    } else {
        lemma_events_flat_slice(es.drop_last(), k);
        lemma_events_flat_len(es.drop_last());
        assert(events_flat(es).subrange(3 * k, 3 * k + 3) =~= events_flat(es.drop_last()).subrange(
            3 * k,
            3 * k + 3,
        ));
        assert(es[k] == es.drop_last()[k]);
    }
}

proof fn lemma_i64_word_inj(a: i64, b: i64)
    requires
        a as u64 == b as u64,
    ensures
        a == b,
{
    assert(a as u64 == b as u64 ==> a == b) by (bit_vector);
}

/// Encoding is injective: two solver states with the same snapshot bytes
/// agree on every field that the simulation reads.
#[verifier::rlimit(100)]
#[verifier::spinoff_prover]
pub proof fn lemma_snapshot_injective(s1: Solver, s2: Solver)
    requires
        snapshot_bytes(s1) == snapshot_bytes(s2),
        s1.verlets@.len() < 0x10000000000000000,
        s2.verlets@.len() < 0x10000000000000000,
        s1.color_frames@.len() < 0x10000000000000000,
        s2.color_frames@.len() < 0x10000000000000000,
        s1.events@.len() < 0x10000000000000000,
        s2.events@.len() < 0x10000000000000000,
    ensures
        s1.verlets@ == s2.verlets@,
        s1.gravity == s2.gravity,
        s1.constraint_radius == s2.constraint_radius,
        s1.subdivision == s2.subdivision,
        s1.cell_size == s2.cell_size,
        s1.grid_size == s2.grid_size,
        s1.region_split_x == s2.region_split_x,
        s1.region_split_y == s2.region_split_y,
        s1.strategy == s2.strategy,
        s1.wall_restitution == s2.wall_restitution,
        s1.pair_restitution == s2.pair_restitution,
        s1.current_frame == s2.current_frame,
        s1.color_frames@ == s2.color_frames@,
        s1.events@ == s2.events@,
{
    lemma_words_flat_injective(solver_words(s1), solver_words(s2));
    let w1 = solver_words(s1);
    let w2 = solver_words(s2);
    lemma_verlets_flat_len(s1.verlets@);
    lemma_verlets_flat_len(s2.verlets@);
    lemma_colors_flat_len(s1.color_frames@);
    lemma_colors_flat_len(s2.color_frames@);
    lemma_events_flat_len(s1.events@);
    lemma_events_flat_len(s2.events@);
    // the headers agree word for word
    assert forall|i: int| 0 <= i < 15 implies header_words(s1)[i] == header_words(s2)[i] by {
        assert(w1[i] == header_words(s1)[i]);
        assert(w2[i] == header_words(s2)[i]);
    }
    assert(header_words(s1)[0] == header_words(s2)[0]);
    assert(header_words(s1)[1] == header_words(s2)[1]);
    assert(header_words(s1)[2] == header_words(s2)[2]);
    assert(header_words(s1)[3] == header_words(s2)[3]);
    assert(header_words(s1)[4] == header_words(s2)[4]);
    assert(header_words(s1)[5] == header_words(s2)[5]);
    assert(header_words(s1)[6] == header_words(s2)[6]);
    assert(header_words(s1)[7] == header_words(s2)[7]);
    assert(header_words(s1)[8] == header_words(s2)[8]);
    assert(header_words(s1)[9] == header_words(s2)[9]);
    assert(header_words(s1)[10] == header_words(s2)[10]);
    assert(header_words(s1)[11] == header_words(s2)[11]);
    assert(header_words(s1)[12] == header_words(s2)[12]);
    assert(header_words(s1)[13] == header_words(s2)[13]);
    assert(header_words(s1)[14] == header_words(s2)[14]);
    lemma_i64_word_inj(s1.gravity.x, s2.gravity.x);
    lemma_i64_word_inj(s1.gravity.y, s2.gravity.y);
    lemma_i64_word_inj(s1.constraint_radius, s2.constraint_radius);
    lemma_i64_word_inj(s1.cell_size, s2.cell_size);
    lemma_i64_word_inj(s1.wall_restitution, s2.wall_restitution);
    lemma_i64_word_inj(s1.pair_restitution, s2.pair_restitution);
    assert(s1.gravity == s2.gravity);
    assert(s1.verlets@.len() == s2.verlets@.len());
    assert(s1.color_frames@.len() == s2.color_frames@.len());
    assert(s1.events@.len() == s2.events@.len());
    let n = s1.verlets@.len() as int;
    let nc = s1.color_frames@.len() as int;
    let ne = s1.events@.len() as int;
    // the three flattened segments agree elementwise
    assert forall|t: int| 0 <= t < 20 * n implies verlets_flat(s1.verlets@)[t] == verlets_flat(
        s2.verlets@,
    )[t] by {
        assert(w1[15 + t] == verlets_flat(s1.verlets@)[t]);
        assert(w2[15 + t] == verlets_flat(s2.verlets@)[t]);
    }
    assert forall|t: int| 0 <= t < 4 * nc implies colors_flat(s1.color_frames@)[t] == colors_flat(
        s2.color_frames@,
    )[t] by {
        assert(w1[15 + 20 * n + t] == colors_flat(s1.color_frames@)[t]);
        assert(w2[15 + 20 * n + t] == colors_flat(s2.color_frames@)[t]);
    }
    assert forall|t: int| 0 <= t < 3 * ne implies events_flat(s1.events@)[t] == events_flat(
        s2.events@,
    )[t] by {
        assert(w1[15 + 20 * n + 4 * nc + t] == events_flat(s1.events@)[t]);
        assert(w2[15 + 20 * n + 4 * nc + t] == events_flat(s2.events@)[t]);
    }
    assert(verlets_flat(s1.verlets@) =~= verlets_flat(s2.verlets@));
    assert(colors_flat(s1.color_frames@) =~= colors_flat(s2.color_frames@));
    assert(events_flat(s1.events@) =~= events_flat(s2.events@));
    // element by element, the particles agree
    assert forall|k: int| 0 <= k < n implies s1.verlets@[k] == s2.verlets@[k] by {
        lemma_verlets_flat_slice(s1.verlets@, k);
        lemma_verlets_flat_slice(s2.verlets@, k);
        let a = s1.verlets@[k];
        let b = s2.verlets@[k];
        assert forall|j: int| 0 <= j < 20 implies verlet_words(a)[j] == verlet_words(b)[j] by {
            assert(verlet_words(a) == verlets_flat(s1.verlets@).subrange(20 * k, 20 * k + 20));
            assert(verlet_words(b) == verlets_flat(s2.verlets@).subrange(20 * k, 20 * k + 20));
        }
        lemma_i64_word_inj(a.position.x, b.position.x);
        lemma_i64_word_inj(a.position.y, b.position.y);
        lemma_i64_word_inj(a.last_position.x, b.last_position.x);
        lemma_i64_word_inj(a.last_position.y, b.last_position.y);
        lemma_i64_word_inj(a.acceleration.x, b.acceleration.x);
        lemma_i64_word_inj(a.acceleration.y, b.acceleration.y);
        lemma_i64_word_inj(a.last_acceleration.x, b.last_acceleration.x);
        lemma_i64_word_inj(a.last_acceleration.y, b.last_acceleration.y);
        lemma_i64_word_inj(a.radius, b.radius);
        lemma_i64_word_inj(a.density, b.density);
        lemma_i64_word_inj(a.last_dt, b.last_dt);
        lemma_i64_word_inj(a.sleep_timer, b.sleep_timer);
        assert(a.position == b.position && a.last_position == b.last_position && a.acceleration
            == b.acceleration && a.last_acceleration == b.last_acceleration);
        assert(a.color == b.color);
    }
    assert(s1.verlets@ =~= s2.verlets@);
    assert forall|k: int| 0 <= k < nc implies s1.color_frames@[k] == s2.color_frames@[k] by {
        lemma_colors_flat_slice(s1.color_frames@, k);
        lemma_colors_flat_slice(s2.color_frames@, k);
        let a = s1.color_frames@[k];
        let b = s2.color_frames@[k];
        assert forall|j: int| 0 <= j < 4 implies color_words(a)[j] == color_words(b)[j] by {
            assert(color_words(a) == colors_flat(s1.color_frames@).subrange(4 * k, 4 * k + 4));
            assert(color_words(b) == colors_flat(s2.color_frames@).subrange(4 * k, 4 * k + 4));
        }
    }
    assert(s1.color_frames@ =~= s2.color_frames@);
    assert forall|k: int| 0 <= k < ne implies s1.events@[k] == s2.events@[k] by {
        lemma_events_flat_slice(s1.events@, k);
        lemma_events_flat_slice(s2.events@, k);
        let a = s1.events@[k];
        let b = s2.events@[k];
        assert forall|j: int| 0 <= j < 3 implies event_words(a)[j] == event_words(b)[j] by {
            assert(event_words(a) == events_flat(s1.events@).subrange(3 * k, 3 * k + 3));
            assert(event_words(b) == events_flat(s2.events@).subrange(3 * k, 3 * k + 3));
        }
        lemma_i64_word_inj(a.key, b.key);
    }
    assert(s1.events@ =~= s2.events@);
}

} // verus!

verus! {

/// Serialize a word list to its little-endian bytes.
fn words_to_bytes(words: &Vec<u64>) -> (out: Vec<u8>)
    ensures
        out@ == words_flat(words@),
{
    let mut out: Vec<u8> = Vec::new();
    let n = words.len();
    let mut t: usize = 0;
    proof {
        assert(words@.take(0) =~= Seq::<u64>::empty());
    }
    while t < n
        invariant
            n == words@.len(),
            t <= n,
            out@ == words_flat(words@.take(t as int)),
        decreases n - t,
    {
        let mut chunk = u64_to_le_bytes(words[t]);
        out.append(&mut chunk);
        proof {
            lemma_words_flat_snoc(words@, t as int);
        }
        t += 1;
    }
    proof {
        assert(words@.take(n as int) =~= words@);
    }
    out
}

/// Read the eight bytes at `pos` as one word.
fn read_word(bytes: &Vec<u8>, pos: usize) -> (r: u64)
    requires
        pos + 8 <= bytes@.len(),
    ensures
        r == spec_u64_from_le_bytes(bytes@.subrange(pos as int, pos as int + 8)),
{
    let total = bytes.len();
    proof {
        assert(total == bytes@.len());
    }
    let s = vstd::slice::slice_subrange(bytes.as_slice(), pos, pos + 8);
    u64_from_le_bytes(s)
}

fn bytes_equal(a: &Vec<u8>, b: &Vec<u8>) -> (r: bool)
    ensures
        r <==> a@ == b@,
{
    if a.len() != b.len() {
        proof {
            assert(a@ != b@);
        }
        return false;
    }
    let n = a.len();
    let mut i: usize = 0;
    while i < n
        invariant
            n == a@.len(),
            n == b@.len(),
            i <= n,
            forall|k: int| 0 <= k < i ==> a@[k] == b@[k],
        decreases n - i,
    {
        if a[i] != b[i] {
            proof {
                assert(a@[i as int] != b@[i as int]);
            }
            return false;
        }
        i += 1;
    }
    proof {
        assert(a@ =~= b@);
    }
    true
}

/// Append the twenty words of one body.
fn push_verlet_words(words: &mut Vec<u64>, v: Verlet)
    ensures
        final(words)@ == old(words)@ + verlet_words(v),
{
    let ghost base = words@;
    words.push(v.id as u64);
    words.push(#[verifier::truncate] (v.position.x as u64));
    words.push(#[verifier::truncate] (v.position.y as u64));
    words.push(#[verifier::truncate] (v.last_position.x as u64));
    words.push(#[verifier::truncate] (v.last_position.y as u64));
    words.push(v.last_grid as u64);
    words.push(v.position_in_cell as u64);
    words.push(#[verifier::truncate] (v.acceleration.x as u64));
    words.push(#[verifier::truncate] (v.acceleration.y as u64));
    words.push(#[verifier::truncate] (v.last_acceleration.x as u64));
    words.push(#[verifier::truncate] (v.last_acceleration.y as u64));
    words.push(#[verifier::truncate] (v.radius as u64));
    words.push(#[verifier::truncate] (v.density as u64));
    words.push(#[verifier::truncate] (v.last_dt as u64));
    words.push(v.color.r as u64);
    words.push(v.color.g as u64);
    words.push(v.color.b as u64);
    words.push(v.color.a as u64);
    words.push(if v.is_sleeping { 1 } else { 0 });
    words.push(#[verifier::truncate] (v.sleep_timer as u64));
    proof {
        assert(words@ =~= base + verlet_words(v));
    }
}

impl Solver {
    /// Serialize the whole solver state to one binary blob.
    #[verifier::rlimit(100)]
    pub fn encode_state(&self) -> (r: Vec<u8>)
        ensures
            r@ == snapshot_bytes(*self),
    {
        let mut words: Vec<u64> = Vec::new();
        words.push(self.verlets.len() as u64);
        words.push(#[verifier::truncate] (self.gravity.x as u64));
        words.push(#[verifier::truncate] (self.gravity.y as u64));
        words.push(#[verifier::truncate] (self.constraint_radius as u64));
        words.push(self.subdivision as u64);
        words.push(#[verifier::truncate] (self.cell_size as u64));
        words.push(self.grid_size as u64);
        words.push(self.region_split_x as u64);
        words.push(self.region_split_y as u64);
        let tag: u64 = match self.strategy {
            BroadPhase::Naive => 0,
            BroadPhase::Sweep => 1,
            BroadPhase::Grid => 2,
            BroadPhase::ParallelGrid => 3,
        };
        words.push(tag);
        words.push(#[verifier::truncate] (self.wall_restitution as u64));
        words.push(#[verifier::truncate] (self.pair_restitution as u64));
        words.push(self.current_frame as u64);
        words.push(self.color_frames.len() as u64);
        words.push(self.events.len() as u64);
        proof {
            assert(words@ =~= header_words(*self));
        }
        let n = self.verlets.len();
        let mut i: usize = 0;
        proof {
            assert(self.verlets@.take(0) =~= Seq::<Verlet>::empty());
            assert(words@ =~= header_words(*self) + verlets_flat(self.verlets@.take(0)));
        }
        while i < n
            invariant
                n == self.verlets@.len(),
                i <= n,
                words@ == header_words(*self) + verlets_flat(self.verlets@.take(i as int)),
            decreases n - i,
        {
            let v = self.verlets[i];
            push_verlet_words(&mut words, v);
            proof {
                lemma_verlets_flat_snoc(self.verlets@, i as int);
                assert(words@ =~= header_words(*self) + verlets_flat(
                    self.verlets@.take(i as int + 1),
                ));
            }
            i += 1;
        }
        proof {
            assert(self.verlets@.take(n as int) =~= self.verlets@);
        }
        let nc = self.color_frames.len();
        let mut j: usize = 0;
        proof {
            assert(self.color_frames@.take(0) =~= Seq::<Color>::empty());
            assert(words@ =~= header_words(*self) + verlets_flat(self.verlets@) + colors_flat(
                self.color_frames@.take(0),
            ));
        }
        while j < nc
            invariant
                nc == self.color_frames@.len(),
                j <= nc,
                words@ == header_words(*self) + verlets_flat(self.verlets@) + colors_flat(
                    self.color_frames@.take(j as int),
                ),
            decreases nc - j,
        {
            let c = self.color_frames[j];
            words.push(c.r as u64);
            words.push(c.g as u64);
            words.push(c.b as u64);
            words.push(c.a as u64);
            proof {
                lemma_colors_flat_snoc(self.color_frames@, j as int);
                assert(words@ =~= header_words(*self) + verlets_flat(self.verlets@) + colors_flat(
                    self.color_frames@.take(j as int + 1),
                ));
            }
            j += 1;
        }
        proof {
            assert(self.color_frames@.take(nc as int) =~= self.color_frames@);
        }
        let ne = self.events.len();
        let mut t: usize = 0;
        proof {
            assert(self.events@.take(0) =~= Seq::<Event>::empty());
            assert(words@ =~= header_words(*self) + verlets_flat(self.verlets@) + colors_flat(
                self.color_frames@,
            ) + events_flat(self.events@.take(0)));
        }
        while t < ne
            invariant
                ne == self.events@.len(),
                t <= ne,
                words@ == header_words(*self) + verlets_flat(self.verlets@) + colors_flat(
                    self.color_frames@,
                ) + events_flat(self.events@.take(t as int)),
            decreases ne - t,
        {
            let e = self.events[t];
            words.push(#[verifier::truncate] (e.key as u64));
            words.push(if e.is_end { 1 } else { 0 });
            words.push(e.id as u64);
            proof {
                lemma_events_flat_snoc(self.events@, t as int);
                assert(words@ =~= header_words(*self) + verlets_flat(self.verlets@) + colors_flat(
                    self.color_frames@,
                ) + events_flat(self.events@.take(t as int + 1)));
            }
            t += 1;
        }
        proof {
            assert(self.events@.take(ne as int) =~= self.events@);
            assert(words@ == solver_words(*self));
        }
        words_to_bytes(&words)
    }
}

} // verus!

verus! {

/// The `k`-th little-endian word of a blob.
pub open spec fn word_of(bytes: Seq<u8>, k: int) -> u64 {
    spec_u64_from_le_bytes(bytes.subrange(8 * k, 8 * k + 8))
}

/// Read word `k` of a blob of `nw` words.
fn word_at(bytes: &Vec<u8>, k: usize) -> (r: u64)
    requires
        8 * (k as int) + 8 <= bytes@.len(),
    ensures
        r == word_of(bytes@, k as int),
{
    let total = bytes.len();
    proof {
        assert(total == bytes@.len());
    }
    read_word(bytes, 8 * k)
}

fn word_to_i64(w: u64) -> (r: i64)
    ensures
        r as u64 == w,
{
    proof {
        assert((#[verifier::truncate] (w as i64)) as u64 == w) by (bit_vector);
    }
    #[verifier::truncate] (w as i64)
}

fn word_to_usize(w: u64) -> (r: Option<usize>)
    ensures
        match r {
            Some(v) => v as u64 == w,
            None => w > usize::MAX as u64,
        },
{
    if w <= usize::MAX as u64 {
        Some(w as usize)
    } else {
        None
    }
}

fn word_to_u8(w: u64) -> (r: Option<u8>)
    ensures
        match r {
            Some(v) => v as u64 == w,
            None => w > 255,
        },
{
    if w <= 255 {
        Some(w as u8)
    } else {
        None
    }
}

/// `s` is a well-formed state of reasonable size whose snapshot is
/// exactly these bytes.
pub open spec fn state_source(s: Solver, bytes: Seq<u8>) -> bool {
    &&& s.wf()
    &&& s.verlets@.len() < 0x8000_0000
    &&& s.color_frames@.len() < 0x8000_0000
    &&& s.events@.len() < 0x8000_0000
    &&& snapshot_bytes(s) == bytes
}

/// Some well-formed solver state of reasonable size produces exactly
/// these bytes.
pub open spec fn state_decodable(bytes: Seq<u8>) -> bool {
    exists|s: Solver| #[trigger] state_source(s, bytes)
}

/// Every word of a state blob is determined by the state.
proof fn lemma_state_blob_facts(s: Solver, bytes: Seq<u8>)
    requires
        snapshot_bytes(s) == bytes,
    ensures
        bytes.len() == 8 * (15 + 20 * s.verlets@.len() + 4 * s.color_frames@.len() + 3
            * s.events@.len()),
        forall|k: int| 0 <= k < 15 ==> word_of(bytes, k) == header_words(s)[k],
        forall|i: int, l: int|
            #![trigger verlet_words(s.verlets@[i])[l]]
            0 <= i < s.verlets@.len() && 0 <= l < 20 ==> word_of(bytes, 15 + 20 * i + l)
                == verlet_words(s.verlets@[i])[l],
        forall|j: int, l: int|
            #![trigger color_words(s.color_frames@[j])[l]]
            0 <= j < s.color_frames@.len() && 0 <= l < 4 ==> word_of(
                bytes,
                15 + 20 * s.verlets@.len() + 4 * j + l,
            ) == color_words(s.color_frames@[j])[l],
        forall|t: int, l: int|
            #![trigger event_words(s.events@[t])[l]]
            0 <= t < s.events@.len() && 0 <= l < 3 ==> word_of(
                bytes,
                15 + 20 * s.verlets@.len() + 4 * s.color_frames@.len() + 3 * t + l,
            ) == event_words(s.events@[t])[l],
{
    let ws = solver_words(s);
    let vn = s.verlets@.len() as int;
    let cn = s.color_frames@.len() as int;
    let en = s.events@.len() as int;
    lemma_verlets_flat_len(s.verlets@);
    lemma_colors_flat_len(s.color_frames@);
    lemma_events_flat_len(s.events@);
    lemma_words_flat_len(ws);
    assert forall|k: int| 0 <= k < 15 implies word_of(bytes, k) == header_words(s)[k] by {
        lemma_blob_word(ws, bytes, k);
    }
    assert forall|i: int, l: int|
        #![trigger verlet_words(s.verlets@[i])[l]]
        0 <= i < vn && 0 <= l < 20 implies word_of(bytes, 15 + 20 * i + l) == verlet_words(
        s.verlets@[i])[l] by {
        lemma_blob_word(ws, bytes, 15 + 20 * i + l);
        lemma_verlets_flat_slice(s.verlets@, i);
        assert(ws[15 + 20 * i + l] == verlets_flat(s.verlets@)[20 * i + l]);
        assert(verlets_flat(s.verlets@)[20 * i + l] == verlets_flat(s.verlets@).subrange(
            20 * i,
            20 * i + 20,
        )[l]);
    }
    assert forall|j: int, l: int|
        #![trigger color_words(s.color_frames@[j])[l]]
        0 <= j < cn && 0 <= l < 4 implies word_of(bytes, 15 + 20 * vn + 4 * j + l) == color_words(
        s.color_frames@[j])[l] by {
        lemma_blob_word(ws, bytes, 15 + 20 * vn + 4 * j + l);
        lemma_colors_flat_slice(s.color_frames@, j);
        assert(ws[15 + 20 * vn + 4 * j + l] == colors_flat(s.color_frames@)[4 * j + l]);
        assert(colors_flat(s.color_frames@)[4 * j + l] == colors_flat(s.color_frames@).subrange(
            4 * j,
            4 * j + 4,
        )[l]);
    }
    assert forall|t: int, l: int|
        #![trigger event_words(s.events@[t])[l]]
        0 <= t < en && 0 <= l < 3 implies word_of(bytes, 15 + 20 * vn + 4 * cn + 3 * t + l)
        == event_words(s.events@[t])[l] by {
        lemma_blob_word(ws, bytes, 15 + 20 * vn + 4 * cn + 3 * t + l);
        lemma_events_flat_slice(s.events@, t);
        assert(ws[15 + 20 * vn + 4 * cn + 3 * t + l] == events_flat(s.events@)[3 * t + l]);
        assert(events_flat(s.events@)[3 * t + l] == events_flat(s.events@).subrange(
            3 * t,
            3 * t + 3,
        )[l]);
    }
}

/// Pick the state a decodable blob came from, with its word facts.
proof fn state_witness(bytes: Seq<u8>) -> (s: Solver)
    requires
        state_decodable(bytes),
    ensures
        state_source(s, bytes),
        s.wf(),
        s.verlets@.len() < 0x8000_0000,
        s.color_frames@.len() < 0x8000_0000,
        s.events@.len() < 0x8000_0000,
        snapshot_bytes(s) == bytes,
        bytes.len() == 8 * (15 + 20 * s.verlets@.len() + 4 * s.color_frames@.len() + 3
            * s.events@.len()),
        forall|k: int| 0 <= k < 15 ==> word_of(bytes, k) == header_words(s)[k],
        forall|i: int, l: int|
            #![trigger verlet_words(s.verlets@[i])[l]]
            0 <= i < s.verlets@.len() && 0 <= l < 20 ==> word_of(bytes, 15 + 20 * i + l)
                == verlet_words(s.verlets@[i])[l],
        forall|j: int, l: int|
            #![trigger color_words(s.color_frames@[j])[l]]
            0 <= j < s.color_frames@.len() && 0 <= l < 4 ==> word_of(
                bytes,
                15 + 20 * s.verlets@.len() + 4 * j + l,
            ) == color_words(s.color_frames@[j])[l],
        forall|t: int, l: int|
            #![trigger event_words(s.events@[t])[l]]
            0 <= t < s.events@.len() && 0 <= l < 3 ==> word_of(
                bytes,
                15 + 20 * s.verlets@.len() + 4 * s.color_frames@.len() + 3 * t + l,
            ) == event_words(s.events@[t])[l],
{
    let s = choose|s: Solver| #[trigger] state_source(s, bytes);
    lemma_state_blob_facts(s, bytes);
    s
}

impl Solver {
    /// Rebuild a solver from a snapshot blob.  On success the state is
    /// well-formed and re-encodes to exactly the given bytes; and every
    /// blob that a well-formed state of reasonable size encodes to is
    /// accepted, so a load of a save always succeeds and, by
    /// `lemma_snapshot_injective`, restores the saved state.
    #[verifier::rlimit(100)]
    #[verifier::spinoff_prover]
    pub fn decode_state(bytes: &Vec<u8>) -> (r: Result<Solver, SnapshotError>)
        ensures
            match r {
                Ok(d) => d.wf() && snapshot_bytes(d) == bytes@,
                Err(e) => e == SnapshotError::Malformed,
            },
            state_decodable(bytes@) ==> (r matches Ok(_)),
    {
        let len = bytes.len();
        if len % 8 != 0 || len / 8 < 15 {
            proof {
                if state_decodable(bytes@) {
                    let s = state_witness(bytes@);
                    let m = 15 + 20 * s.verlets@.len() as int + 4 * s.color_frames@.len() as int
                        + 3 * s.events@.len() as int;
                    assert((8 * m) % 8 == 0) by (nonlinear_arith);
                    assert((8 * m) / 8 == m) by (nonlinear_arith);
                    assert(false);
                }
            }
            return Err(SnapshotError::Malformed);
        }
        let nw = len / 8;
        proof {
            assert(8 * (nw as int) == len as int);
        }
        let w0 = word_at(bytes, 0);
        let w1 = word_at(bytes, 1);
        let w2 = word_at(bytes, 2);
        let w3 = word_at(bytes, 3);
        let w4 = word_at(bytes, 4);
        let w5 = word_at(bytes, 5);
        let w6 = word_at(bytes, 6);
        let w7 = word_at(bytes, 7);
        let w8 = word_at(bytes, 8);
        let w9 = word_at(bytes, 9);
        let w10 = word_at(bytes, 10);
        let w11 = word_at(bytes, 11);
        let w12 = word_at(bytes, 12);
        let w13 = word_at(bytes, 13);
        let w14 = word_at(bytes, 14);
        let gx = word_to_i64(w1);
        let gy = word_to_i64(w2);
        let constraint_radius = word_to_i64(w3);
        let cell_size = word_to_i64(w5);
        let wall_restitution = word_to_i64(w10);
        let pair_restitution = word_to_i64(w11);
        if w0 >= 0x8000_0000 || w4 < 1 || w4 > 1024 || w6 >= 0x10000 || w7 < 1 || w7 > 256 || w8
            < 1 || w8 > 256 || w12 > usize::MAX as u64 || w13 >= 0x8000_0000 || w14
            >= 0x8000_0000 || !(1 <= constraint_radius && constraint_radius <= LIM && 1
            <= cell_size && cell_size <= LIM && 0 <= wall_restitution && wall_restitution <= SCALE
            && 0 <= pair_restitution && pair_restitution <= SCALE && -LIM <= gx && gx <= LIM
            && -LIM <= gy && gy <= LIM) {
            proof {
                if state_decodable(bytes@) {
                    let s = state_witness(bytes@);
                    assert(w0 == header_words(s)[0]);
                    assert(w1 == header_words(s)[1]);
                    assert(w2 == header_words(s)[2]);
                    assert(w3 == header_words(s)[3]);
                    assert(w4 == header_words(s)[4]);
                    assert(w5 == header_words(s)[5]);
                    assert(w7 == header_words(s)[7]);
                    assert(w8 == header_words(s)[8]);
                    assert(w6 == header_words(s)[6]);
                    assert(w10 == header_words(s)[10]);
                    assert(w11 == header_words(s)[11]);
                    assert(w12 == header_words(s)[12]);
                    assert(w13 == header_words(s)[13]);
                    assert(w14 == header_words(s)[14]);
                    lemma_i64_word_inj(gx, s.gravity.x);
                    lemma_i64_word_inj(gy, s.gravity.y);
                    lemma_i64_word_inj(constraint_radius, s.constraint_radius);
                    lemma_i64_word_inj(cell_size, s.cell_size);
                    lemma_i64_word_inj(wall_restitution, s.wall_restitution);
                    lemma_i64_word_inj(pair_restitution, s.pair_restitution);
                    assert(false);
                }
            }
            return Err(SnapshotError::Malformed);
        }
        let n = w0 as usize;
        let subdivision = w4 as usize;
        let grid_size = w6 as usize;
        let region_split_x = w7 as usize;
        let region_split_y = w8 as usize;
        let current_frame = w12 as usize;
        let nc = w13 as usize;
        let ne = w14 as usize;
        let tag = w9;
        let strategy = if tag == 0 {
            BroadPhase::Naive
        } else if tag == 1 {
            BroadPhase::Sweep
        } else if tag == 2 {
            BroadPhase::Grid
        } else {
            BroadPhase::ParallelGrid
        };
        let need: u128 = 15 + 20 * (n as u128) + 4 * (nc as u128) + 3 * (ne as u128);
        if need != nw as u128 || !(ne % 2 == 0 && ne <= 2 * n) {
            proof {
                if state_decodable(bytes@) {
                    let s = state_witness(bytes@);
                    assert(w0 == header_words(s)[0]);
                    assert(w13 == header_words(s)[13]);
                    assert(w14 == header_words(s)[14]);
                    assert(n == s.verlets@.len());
                    assert(nc == s.color_frames@.len());
                    assert(ne == s.events@.len());
                    assert(false);
                }
            }
            return Err(SnapshotError::Malformed);
        }
        let mut verlets: Vec<Verlet> = Vec::new();
        proof {
            assert forall|s: Solver| #[trigger]
                state_source(s, bytes@) implies n == s.verlets@.len() && nc
                == s.color_frames@.len() && ne == s.events@.len() && verlets@ == s.verlets@.take(
                0,
            ) by {
                lemma_state_blob_facts(s, bytes@);
                assert(w0 == header_words(s)[0]);
                assert(w13 == header_words(s)[13]);
                assert(w14 == header_words(s)[14]);
                assert(verlets@ =~= s.verlets@.take(0));
            }
        }
        let mut i: usize = 0;
        while i < n
            invariant
                15 + 20 * (n as int) + 4 * (nc as int) + 3 * (ne as int) == nw as int,
                8 * (nw as int) == bytes@.len(),
                i <= n,
                verlets@.len() == i,
                all_wf(verlets@),
                forall|s: Solver| #[trigger]
                    state_source(s, bytes@) ==> n == s.verlets@.len() && nc
                        == s.color_frames@.len() && ne == s.events@.len() && verlets@
                        == s.verlets@.take(i as int),
            decreases n - i,
        {
            let base = 15 + 20 * i;
            proof {
                assert(20 * (i as int) + 20 <= 20 * (n as int));
            }
            let a0 = word_at(bytes, base);
            let a1 = word_at(bytes, base + 1);
            let a2 = word_at(bytes, base + 2);
            let a3 = word_at(bytes, base + 3);
            let a4 = word_at(bytes, base + 4);
            let a5 = word_at(bytes, base + 5);
            let a6 = word_at(bytes, base + 6);
            let a7 = word_at(bytes, base + 7);
            let a8 = word_at(bytes, base + 8);
            let a9 = word_at(bytes, base + 9);
            let a10 = word_at(bytes, base + 10);
            let a11 = word_at(bytes, base + 11);
            let a12 = word_at(bytes, base + 12);
            let a13 = word_at(bytes, base + 13);
            let a14 = word_at(bytes, base + 14);
            let a15 = word_at(bytes, base + 15);
            let a16 = word_at(bytes, base + 16);
            let a17 = word_at(bytes, base + 17);
            let a18 = word_at(bytes, base + 18);
            let a19 = word_at(bytes, base + 19);
            let px = word_to_i64(a1);
            let py = word_to_i64(a2);
            let lx = word_to_i64(a3);
            let ly = word_to_i64(a4);
            let ax = word_to_i64(a7);
            let ay = word_to_i64(a8);
            let lax = word_to_i64(a9);
            let lay = word_to_i64(a10);
            let radius = word_to_i64(a11);
            let density = word_to_i64(a12);
            let last_dt = word_to_i64(a13);
            let sleep_timer = word_to_i64(a19);
            if a0 > usize::MAX as u64 || a5 > usize::MAX as u64 || a6 > usize::MAX as u64 || a14
                > 255 || a15 > 255 || a16 > 255 || a17 > 255 || !(-LIM <= px && px <= LIM && -LIM
                <= py && py <= LIM && -LIM <= lx && lx <= LIM && -LIM <= ly && ly <= LIM && -LIM
                <= ax && ax <= LIM && -LIM <= ay && ay <= LIM && -LIM <= lax && lax <= LIM && -LIM
                <= lay && lay <= LIM && 1 <= radius && radius <= LIM && 1 <= density && density
                <= LIM && 0 <= last_dt && last_dt <= LIM && 0 <= sleep_timer && sleep_timer
                <= LIM) {
                proof {
                    if state_decodable(bytes@) {
                        let s = state_witness(bytes@);
                        assert(state_source(s, bytes@));
                        assert(n == s.verlets@.len());
                        assert(i < s.verlets@.len());
                        assert(verlet_words(s.verlets@[i as int])[0] == a0);
                        assert(verlet_words(s.verlets@[i as int])[1] == a1);
                        assert(verlet_words(s.verlets@[i as int])[2] == a2);
                        assert(verlet_words(s.verlets@[i as int])[3] == a3);
                        assert(verlet_words(s.verlets@[i as int])[4] == a4);
                        assert(verlet_words(s.verlets@[i as int])[5] == a5);
                        assert(verlet_words(s.verlets@[i as int])[6] == a6);
                        assert(verlet_words(s.verlets@[i as int])[7] == a7);
                        assert(verlet_words(s.verlets@[i as int])[8] == a8);
                        assert(verlet_words(s.verlets@[i as int])[9] == a9);
                        assert(verlet_words(s.verlets@[i as int])[10] == a10);
                        assert(verlet_words(s.verlets@[i as int])[11] == a11);
                        assert(verlet_words(s.verlets@[i as int])[12] == a12);
                        assert(verlet_words(s.verlets@[i as int])[13] == a13);
                        assert(verlet_words(s.verlets@[i as int])[14] == a14);
                        assert(verlet_words(s.verlets@[i as int])[15] == a15);
                        assert(verlet_words(s.verlets@[i as int])[16] == a16);
                        assert(verlet_words(s.verlets@[i as int])[17] == a17);
                        assert(verlet_words(s.verlets@[i as int])[18] == a18);
                        assert(verlet_words(s.verlets@[i as int])[19] == a19);
                        let v = s.verlets@[i as int];
                        assert(v.wf());
                        lemma_i64_word_inj(px, v.position.x);
                        lemma_i64_word_inj(py, v.position.y);
                        lemma_i64_word_inj(lx, v.last_position.x);
                        lemma_i64_word_inj(ly, v.last_position.y);
                        lemma_i64_word_inj(ax, v.acceleration.x);
                        lemma_i64_word_inj(ay, v.acceleration.y);
                        lemma_i64_word_inj(lax, v.last_acceleration.x);
                        lemma_i64_word_inj(lay, v.last_acceleration.y);
                        lemma_i64_word_inj(radius, v.radius);
                        lemma_i64_word_inj(density, v.density);
                        lemma_i64_word_inj(last_dt, v.last_dt);
                        lemma_i64_word_inj(sleep_timer, v.sleep_timer);
                        assert(false);
                    }
                }
                return Err(SnapshotError::Malformed);
            }
            let v = Verlet {
                id: a0 as usize,
                position: Vec2 { x: px, y: py },
                last_position: Vec2 { x: lx, y: ly },
                last_grid: a5 as usize,
                position_in_cell: a6 as usize,
                acceleration: Vec2 { x: ax, y: ay },
                last_acceleration: Vec2 { x: lax, y: lay },
                radius,
                density,
                last_dt,
                color: Color { r: a14 as u8, g: a15 as u8, b: a16 as u8, a: a17 as u8 },
                is_sleeping: a18 == 1,
                sleep_timer,
            };
            verlets.push(v);
            proof {
                assert forall|s: Solver| #[trigger]
                    state_source(s, bytes@) implies verlets@ == s.verlets@.take(i as int + 1) by {
                    lemma_state_blob_facts(s, bytes@);
                    assert(n == s.verlets@.len());
                    assert(i < s.verlets@.len());
                    assert(verlet_words(s.verlets@[i as int])[0] == a0);
                    assert(verlet_words(s.verlets@[i as int])[1] == a1);
                    assert(verlet_words(s.verlets@[i as int])[2] == a2);
                    assert(verlet_words(s.verlets@[i as int])[3] == a3);
                    assert(verlet_words(s.verlets@[i as int])[4] == a4);
                    assert(verlet_words(s.verlets@[i as int])[5] == a5);
                    assert(verlet_words(s.verlets@[i as int])[6] == a6);
                    assert(verlet_words(s.verlets@[i as int])[7] == a7);
                    assert(verlet_words(s.verlets@[i as int])[8] == a8);
                    assert(verlet_words(s.verlets@[i as int])[9] == a9);
                    assert(verlet_words(s.verlets@[i as int])[10] == a10);
                    assert(verlet_words(s.verlets@[i as int])[11] == a11);
                    assert(verlet_words(s.verlets@[i as int])[12] == a12);
                    assert(verlet_words(s.verlets@[i as int])[13] == a13);
                    assert(verlet_words(s.verlets@[i as int])[14] == a14);
                    assert(verlet_words(s.verlets@[i as int])[15] == a15);
                    assert(verlet_words(s.verlets@[i as int])[16] == a16);
                    assert(verlet_words(s.verlets@[i as int])[17] == a17);
                    assert(verlet_words(s.verlets@[i as int])[18] == a18);
                    assert(verlet_words(s.verlets@[i as int])[19] == a19);
                    let w = s.verlets@[i as int];
                    lemma_i64_word_inj(px, w.position.x);
                    lemma_i64_word_inj(py, w.position.y);
                    lemma_i64_word_inj(lx, w.last_position.x);
                    lemma_i64_word_inj(ly, w.last_position.y);
                    lemma_i64_word_inj(ax, w.acceleration.x);
                    lemma_i64_word_inj(ay, w.acceleration.y);
                    lemma_i64_word_inj(lax, w.last_acceleration.x);
                    lemma_i64_word_inj(lay, w.last_acceleration.y);
                    lemma_i64_word_inj(radius, w.radius);
                    lemma_i64_word_inj(density, w.density);
                    lemma_i64_word_inj(last_dt, w.last_dt);
                    lemma_i64_word_inj(sleep_timer, w.sleep_timer);
                    assert(v == w);
                    assert(verlets@ =~= s.verlets@.take(i as int + 1));
                }
            }
            i += 1;
        }
        let mut color_frames: Vec<Color> = Vec::new();
        proof {
            assert forall|s: Solver| #[trigger]
                state_source(s, bytes@) implies color_frames@ == s.color_frames@.take(0) by {
                assert(color_frames@ =~= s.color_frames@.take(0));
            }
        }
        let mut j: usize = 0;
        while j < nc
            invariant
                15 + 20 * (n as int) + 4 * (nc as int) + 3 * (ne as int) == nw as int,
                8 * (nw as int) == bytes@.len(),
                n == verlets@.len(),
                all_wf(verlets@),
                j <= nc,
                color_frames@.len() == j,
                forall|s: Solver| #[trigger]
                    state_source(s, bytes@) ==> n == s.verlets@.len() && nc
                        == s.color_frames@.len() && ne == s.events@.len() && verlets@
                        == s.verlets@.take(n as int) && color_frames@ == s.color_frames@.take(
                        j as int,
                    ),
            decreases nc - j,
        {
            let base = 15 + 20 * n + 4 * j;
            proof {
                assert(4 * (j as int) + 4 <= 4 * (nc as int));
            }
            let c0 = word_at(bytes, base);
            let c1 = word_at(bytes, base + 1);
            let c2 = word_at(bytes, base + 2);
            let c3 = word_at(bytes, base + 3);
            if c0 > 255 || c1 > 255 || c2 > 255 || c3 > 255 {
                proof {
                    if state_decodable(bytes@) {
                        let s = state_witness(bytes@);
                        assert(state_source(s, bytes@));
                        assert(nc == s.color_frames@.len() && n == s.verlets@.len());
                        assert(j < s.color_frames@.len());
                        assert(color_words(s.color_frames@[j as int])[0] == c0);
                        assert(color_words(s.color_frames@[j as int])[1] == c1);
                        assert(color_words(s.color_frames@[j as int])[2] == c2);
                        assert(color_words(s.color_frames@[j as int])[3] == c3);
                        assert(false);
                    }
                }
                return Err(SnapshotError::Malformed);
            }
            color_frames.push(Color { r: c0 as u8, g: c1 as u8, b: c2 as u8, a: c3 as u8 });
            proof {
                assert forall|s: Solver| #[trigger]
                    state_source(s, bytes@) implies color_frames@ == s.color_frames@.take(
                    j as int + 1,
                ) by {
                    lemma_state_blob_facts(s, bytes@);
                    assert(nc == s.color_frames@.len() && n == s.verlets@.len());
                    assert(j < s.color_frames@.len());
                    assert(color_words(s.color_frames@[j as int])[0] == c0);
                    assert(color_words(s.color_frames@[j as int])[1] == c1);
                    assert(color_words(s.color_frames@[j as int])[2] == c2);
                    assert(color_words(s.color_frames@[j as int])[3] == c3);
                    assert(s.color_frames@[j as int] == (Color {
                        r: c0 as u8,
                        g: c1 as u8,
                        b: c2 as u8,
                        a: c3 as u8,
                    }));
                    assert(color_frames@ =~= s.color_frames@.take(j as int + 1));
                }
            }
            j += 1;
        }
        let mut events: Vec<Event> = Vec::new();
        proof {
            assert forall|s: Solver| #[trigger]
                state_source(s, bytes@) implies events@ == s.events@.take(0) by {
                assert(events@ =~= s.events@.take(0));
            }
        }
        let mut t: usize = 0;
        while t < ne
            invariant
                15 + 20 * (n as int) + 4 * (nc as int) + 3 * (ne as int) == nw as int,
                8 * (nw as int) == bytes@.len(),
                n == verlets@.len(),
                all_wf(verlets@),
                ne % 2 == 0,
                ne <= 2 * n,
                t <= ne,
                events@.len() == t,
                forall|k: int| 0 <= k < events@.len() ==> (#[trigger] events@[k]).id < (ne as int)
                    / 2,
                forall|s: Solver| #[trigger]
                    state_source(s, bytes@) ==> n == s.verlets@.len() && nc
                        == s.color_frames@.len() && ne == s.events@.len() && verlets@
                        == s.verlets@.take(n as int) && color_frames@ == s.color_frames@.take(
                        nc as int,
                    ) && events@ == s.events@.take(t as int),
            decreases ne - t,
        {
            let base = 15 + 20 * n + 4 * nc + 3 * t;
            proof {
                assert(3 * (t as int) + 3 <= 3 * (ne as int));
            }
            let e0 = word_at(bytes, base);
            let e1 = word_at(bytes, base + 1);
            let e2 = word_at(bytes, base + 2);
            let key = word_to_i64(e0);
            if e2 > usize::MAX as u64 || !((e2 as usize) < ne / 2) {
                proof {
                    if state_decodable(bytes@) {
                        let s = state_witness(bytes@);
                        assert(state_source(s, bytes@));
                        assert(n == s.verlets@.len() && nc == s.color_frames@.len() && ne
                            == s.events@.len());
                        assert(t < s.events@.len());
                        assert(event_words(s.events@[t as int])[2] == e2);
                        assert(s.events@[t as int].id < s.events@.len() / 2);
                        assert(false);
                    }
                }
                return Err(SnapshotError::Malformed);
            }
            events.push(Event { key, is_end: e1 == 1, id: e2 as usize });
            proof {
                assert forall|s: Solver| #[trigger]
                    state_source(s, bytes@) implies events@ == s.events@.take(t as int + 1) by {
                    lemma_state_blob_facts(s, bytes@);
                    assert(n == s.verlets@.len() && nc == s.color_frames@.len() && ne
                        == s.events@.len());
                    assert(t < s.events@.len());
                    assert(event_words(s.events@[t as int])[0] == e0);
                    assert(event_words(s.events@[t as int])[1] == e1);
                    assert(event_words(s.events@[t as int])[2] == e2);
                    let w = s.events@[t as int];
                    lemma_i64_word_inj(key, w.key);
                    assert(events@ =~= s.events@.take(t as int + 1));
                }
            }
            t += 1;
        }
        // every body among the first half of the ids must contribute
        // exactly one opening and one closing event
        let half = ne / 2;
        let mut seen_open: Vec<bool> = Vec::new();
        let mut seen_close: Vec<bool> = Vec::new();
        while seen_open.len() < half
            invariant
                seen_open@.len() == seen_close@.len(),
                seen_open@.len() <= half,
                forall|id: int| 0 <= id < seen_open@.len() ==> !(#[trigger] seen_open@[id]),
                forall|id: int| 0 <= id < seen_close@.len() ==> !(#[trigger] seen_close@[id]),
            decreases half - seen_open@.len(),
        {
            seen_open.push(false);
            seen_close.push(false);
        }
        let mut q: usize = 0;
        proof {
            assert(events@.take(0) =~= Seq::<Event>::empty());
        }
        while q < ne
            invariant
                ne == events@.len(),
                half as int == (ne as int) / 2,
                seen_open@.len() == half,
                seen_close@.len() == half,
                q <= ne,
                forall|k: int|
                    0 <= k < events@.len() ==> (#[trigger] events@[k]).id < (ne as int) / 2,
                forall|id: int|
                    0 <= id < half ==> (#[trigger] seen_open@[id] <==> crate::broadphase::has_open(
                        events@.take(q as int),
                        id,
                    )),
                forall|id: int|
                    0 <= id < half ==> (#[trigger] seen_close@[id]
                        <==> crate::broadphase::has_close(events@.take(q as int), id)),
                forall|t1: int, t2: int|
                    0 <= t1 < t2 < q ==> !((#[trigger] events@[t1]).id == (#[trigger] events@[t2]).id
                        && events@[t1].is_end == events@[t2].is_end),
                forall|s: Solver| #[trigger] state_source(s, bytes@) ==> events@ == s.events@,
            decreases ne - q,
        {
            let ev = events[q];
            let ghost pre_open = seen_open@;
            let ghost pre_close = seen_close@;
            if ev.is_end {
                if seen_close[ev.id] {
                    proof {
                        if state_decodable(bytes@) {
                            let s = state_witness(bytes@);
                            assert(crate::broadphase::has_close(events@.take(q as int), ev.id as int));
                            let t0 = choose|t0: int|
                                0 <= t0 < events@.take(q as int).len() && (#[trigger] events@.take(
                                    q as int,
                                )[t0]).id == ev.id as int && events@.take(q as int)[t0].is_end;
                            assert(s.events@[t0].id == s.events@[q as int].id
                                && s.events@[t0].is_end == s.events@[q as int].is_end);
                            assert(false);
                        }
                    }
                    return Err(SnapshotError::Malformed);
                }
                seen_close[ev.id] = true;
            } else {
                if seen_open[ev.id] {
                    proof {
                        if state_decodable(bytes@) {
                            let s = state_witness(bytes@);
                            assert(crate::broadphase::has_open(events@.take(q as int), ev.id as int));
                            let t0 = choose|t0: int|
                                0 <= t0 < events@.take(q as int).len() && (#[trigger] events@.take(
                                    q as int,
                                )[t0]).id == ev.id as int && !events@.take(q as int)[t0].is_end;
                            assert(s.events@[t0].id == s.events@[q as int].id
                                && s.events@[t0].is_end == s.events@[q as int].is_end);
                            assert(false);
                        }
                    }
                    return Err(SnapshotError::Malformed);
                }
                seen_open[ev.id] = true;
            }
            proof {
                let cur = events@.take(q as int + 1);
                let prev = events@.take(q as int);
                assert(cur.drop_last() =~= prev);
                assert(cur.last() == events@[q as int]);
                assert forall|id: int|
                    0 <= id < half implies (#[trigger] seen_open@[id]
                    <==> crate::broadphase::has_open(cur, id)) by {
                    if seen_open@[id] {
                        if id == ev.id as int && !ev.is_end {
                            assert(cur[q as int].id == id && !cur[q as int].is_end);
                            assert(crate::broadphase::has_open(cur, id));
                        } else {
                            assert(pre_open[id]);
                            assert(crate::broadphase::has_open(prev, id));
                            let t0 = choose|t0: int|
                                0 <= t0 < prev.len() && (#[trigger] prev[t0]).id == id
                                    && !prev[t0].is_end;
                            assert(cur[t0].id == id && !cur[t0].is_end);
                        }
                    }
                    if crate::broadphase::has_open(cur, id) {
                        let t0 = choose|t0: int|
                            0 <= t0 < cur.len() && (#[trigger] cur[t0]).id == id
                                && !cur[t0].is_end;
                        if t0 < q as int {
                            assert(prev[t0].id == id && !prev[t0].is_end);
                            assert(crate::broadphase::has_open(prev, id));
                            assert(pre_open[id]);
                            assert(seen_open@[id]);
                        } else {
                            assert(ev.id == id && !ev.is_end);
                            assert(seen_open@[id]);
                        }
                    }
                }
                assert forall|id: int|
                    0 <= id < half implies (#[trigger] seen_close@[id]
                    <==> crate::broadphase::has_close(cur, id)) by {
                    if seen_close@[id] {
                        if id == ev.id as int && ev.is_end {
                            assert(cur[q as int].id == id && cur[q as int].is_end);
                            assert(crate::broadphase::has_close(cur, id));
                        } else {
                            assert(pre_close[id]);
                            assert(crate::broadphase::has_close(prev, id));
                            let t0 = choose|t0: int|
                                0 <= t0 < prev.len() && (#[trigger] prev[t0]).id == id
                                    && prev[t0].is_end;
                            assert(cur[t0].id == id && cur[t0].is_end);
                        }
                    }
                    if crate::broadphase::has_close(cur, id) {
                        let t0 = choose|t0: int|
                            0 <= t0 < cur.len() && (#[trigger] cur[t0]).id == id && cur[t0].is_end;
                        if t0 < q as int {
                            assert(prev[t0].id == id && prev[t0].is_end);
                            assert(crate::broadphase::has_close(prev, id));
                            assert(pre_close[id]);
                            assert(seen_close@[id]);
                        } else {
                            assert(ev.id == id && ev.is_end);
                            assert(seen_close@[id]);
                        }
                    }
                }
                assert forall|t1: int, t2: int|
                    0 <= t1 < t2 < q as int + 1 implies !((#[trigger] events@[t1]).id == (
                #[trigger] events@[t2]).id && events@[t1].is_end == events@[t2].is_end) by {
                    if t2 == q as int && events@[t1].id == events@[t2].id && events@[t1].is_end
                        == events@[t2].is_end {
                        assert(prev[t1].id == ev.id && prev[t1].is_end == ev.is_end);
                        if ev.is_end {
                            assert(crate::broadphase::has_close(prev, ev.id as int));
                            assert(pre_close[ev.id as int]);
                        } else {
                            assert(crate::broadphase::has_open(prev, ev.id as int));
                            assert(pre_open[ev.id as int]);
                        }
                    }
                }
            }
            q += 1;
        }
        let mut id2: usize = 0;
        while id2 < half
            invariant
                ne == events@.len(),
                half as int == (ne as int) / 2,
                seen_open@.len() == half,
                seen_close@.len() == half,
                id2 <= half,
                forall|id: int| 0 <= id < id2 ==> #[trigger] seen_open@[id],
                forall|id: int| 0 <= id < id2 ==> #[trigger] seen_close@[id],
                forall|id: int|
                    0 <= id < half ==> (#[trigger] seen_open@[id] <==> crate::broadphase::has_open(
                        events@.take(q as int),
                        id,
                    )),
                forall|id: int|
                    0 <= id < half ==> (#[trigger] seen_close@[id]
                        <==> crate::broadphase::has_close(events@.take(q as int), id)),
                q == ne,
                forall|s: Solver| #[trigger] state_source(s, bytes@) ==> events@ == s.events@,
            decreases half - id2,
        {
            let a = seen_open[id2];
            let b = seen_close[id2];
            if !a || !b {
                proof {
                    if state_decodable(bytes@) {
                        let s = state_witness(bytes@);
                        assert(events@.take(q as int) =~= s.events@);
                        assert(crate::broadphase::has_open(s.events@, id2 as int));
                        assert(crate::broadphase::has_close(s.events@, id2 as int));
                        assert(false);
                    }
                }
                return Err(SnapshotError::Malformed);
            }
            proof {
                assert(seen_open@[id2 as int]);
                assert(seen_close@[id2 as int]);
            }
            id2 += 1;
        }
        let d = Solver {
            verlets,
            gravity: Vec2 { x: gx, y: gy },
            constraint_radius,
            events,
            color_frames,
            current_frame,
            subdivision,
            cell_size,
            grid_size,
            region_split_x,
            region_split_y,
            strategy,
            wall_restitution,
            pair_restitution,
        };
        proof {
            assert(d.events@ == d.events@.take(ne as int));
            assert(d.events@.take(q as int) =~= d.events@);
            assert(d.events@.len() == ne);
            assert(ne % 2 == 0 && ne <= 2 * n);
            assert(d.verlets@.len() == n);
            assert forall|t1: int, t2: int|
                0 <= t1 < t2 < d.events@.len() implies !((#[trigger] d.events@[t1]).id == (
            #[trigger] d.events@[t2]).id && d.events@[t1].is_end == d.events@[t2].is_end) by {
                assert(t1 < t2 < q);
            }
            assert forall|id: int|
                0 <= id < d.events@.len() / 2 implies #[trigger] crate::broadphase::has_open(
                d.events@,
                id,
            ) by {
                assert(seen_open@[id]);
                assert(crate::broadphase::has_open(d.events@.take(q as int), id));
            }
            assert forall|id: int|
                0 <= id < d.events@.len() / 2 implies #[trigger] crate::broadphase::has_close(
                d.events@,
                id,
            ) by {
                assert(seen_close@[id]);
                assert(crate::broadphase::has_close(d.events@.take(q as int), id));
            }
            assert(events_ok(d.events@, d.verlets@.len() as int));
            assert(d.wf());
        }
        let re = d.encode_state();
        if bytes_equal(&re, bytes) {
            Ok(d)
        } else {
            proof {
                if state_decodable(bytes@) {
                    let s = state_witness(bytes@);
                    assert(d.verlets@ == s.verlets@.take(n as int));
                    assert(s.verlets@.take(n as int) =~= s.verlets@);
                    assert(d.color_frames@ == s.color_frames@.take(nc as int));
                    assert(s.color_frames@.take(nc as int) =~= s.color_frames@);
                    assert(d.events@ == s.events@);
                    assert(w1 == header_words(s)[1]);
                    assert(w2 == header_words(s)[2]);
                    assert(w3 == header_words(s)[3]);
                    assert(w4 == header_words(s)[4]);
                    assert(w5 == header_words(s)[5]);
                    assert(w6 == header_words(s)[6]);
                    assert(w7 == header_words(s)[7]);
                    assert(w8 == header_words(s)[8]);
                    assert(w9 == header_words(s)[9]);
                    assert(w10 == header_words(s)[10]);
                    assert(w11 == header_words(s)[11]);
                    assert(w12 == header_words(s)[12]);
                    lemma_i64_word_inj(gx, s.gravity.x);
                    lemma_i64_word_inj(gy, s.gravity.y);
                    lemma_i64_word_inj(constraint_radius, s.constraint_radius);
                    lemma_i64_word_inj(cell_size, s.cell_size);
                    lemma_i64_word_inj(wall_restitution, s.wall_restitution);
                    lemma_i64_word_inj(pair_restitution, s.pair_restitution);
                    assert(d.gravity == s.gravity);
                    assert(d.subdivision == s.subdivision);
                    assert(d.grid_size == s.grid_size);
                    assert(d.region_split_x == s.region_split_x);
                    assert(d.region_split_y == s.region_split_y);
                    assert(d.current_frame == s.current_frame);
                    assert(strategy_tag(s.strategy) == w9);
                    assert(d.strategy == s.strategy);
                    assert(header_words(d) =~= header_words(s));
                    assert(solver_words(d) == solver_words(s));
                    assert(re@ == bytes@);
                    assert(false);
                }
            }
            Err(SnapshotError::Malformed)
        }
    }
}

} // verus!

verus! {

/// Serialize a color sequence alone: the secondary blob used to re-tint a
/// simulation without touching its physics.
pub fn encode_colors(colors: &Vec<Color>) -> (r: Vec<u8>)
    ensures
        r@ == colors_blob(colors@),
{
    let mut words: Vec<u64> = Vec::new();
    words.push(colors.len() as u64);
    proof {
        assert(colors@.take(0) =~= Seq::<Color>::empty());
        assert(words@ =~= seq![colors@.len() as u64] + colors_flat(colors@.take(0)));
    }
    let nc = colors.len();
    let mut j: usize = 0;
    while j < nc
        invariant
            nc == colors@.len(),
            j <= nc,
            words@ == seq![colors@.len() as u64] + colors_flat(colors@.take(j as int)),
        decreases nc - j,
    {
        let c = colors[j];
        words.push(c.r as u64);
        words.push(c.g as u64);
        words.push(c.b as u64);
        words.push(c.a as u64);
        proof {
            lemma_colors_flat_snoc(colors@, j as int);
            assert(words@ =~= seq![colors@.len() as u64] + colors_flat(colors@.take(j as int + 1)));
        }
        j += 1;
    }
    proof {
        assert(colors@.take(nc as int) =~= colors@);
    }
    words_to_bytes(&words)
}

/// Rebuild a color sequence from its blob; on success the colors
/// re-encode to exactly the given bytes.
/// A word blob determines each of its words.
proof fn lemma_blob_word(ws: Seq<u64>, bytes: Seq<u8>, k: int)
    requires
        bytes == words_flat(ws),
        0 <= k < ws.len(),
    ensures
        bytes.len() == 8 * ws.len(),
        spec_u64_from_le_bytes(bytes.subrange(8 * k, 8 * k + 8)) == ws[k],
{
    lemma_words_flat_slice(ws, k);
    lemma_auto_spec_u64_to_from_le_bytes();
}

/// Some color sequence of reasonable length produces exactly these bytes.
pub open spec fn colors_decodable(bytes: Seq<u8>) -> bool {
    exists|cs: Seq<Color>| cs.len() < 0x8000_0000 && #[trigger] colors_blob(cs) == bytes
}

pub fn decode_colors(bytes: &Vec<u8>) -> (r: Result<Vec<Color>, SnapshotError>)
    ensures
        match r {
            Ok(cs) => colors_blob(cs@) == bytes@,
            Err(e) => e == SnapshotError::Malformed,
        },
        colors_decodable(bytes@) ==> (r matches Ok(_)),
{
    let len = bytes.len();
    if len % 8 != 0 || len / 8 < 1 {
        proof {
            if colors_decodable(bytes@) {
                let cs = choose|cs: Seq<Color>|
                    cs.len() < 0x8000_0000 && #[trigger] colors_blob(cs) == bytes@;
                lemma_colors_flat_len(cs);
                lemma_words_flat_len(seq![cs.len() as u64] + colors_flat(cs));
                assert((8 * (1 + 4 * cs.len() as int)) % 8 == 0) by (nonlinear_arith);
                assert((8 * (1 + 4 * cs.len() as int)) / 8 == 1 + 4 * cs.len() as int)
                    by (nonlinear_arith);
                assert(false);
            }
        }
        return Err(SnapshotError::Malformed);
    }
    let nw = len / 8;
    proof {
        assert(8 * (nw as int) == len as int);
        if colors_decodable(bytes@) {
            let cs = choose|cs: Seq<Color>|
                cs.len() < 0x8000_0000 && #[trigger] colors_blob(cs) == bytes@;
            lemma_colors_flat_len(cs);
            let ws = seq![cs.len() as u64] + colors_flat(cs);
            lemma_blob_word(ws, bytes@, 0);
            assert(ws[0] == cs.len() as u64);
            assert(nw as int == ws.len());
        }
    }
    let nc = match word_to_usize(word_at(bytes, 0)) {
        Some(v) => v,
        None => {
            proof {
                if colors_decodable(bytes@) {
                    let cs = choose|cs: Seq<Color>|
                        cs.len() < 0x8000_0000 && #[trigger] colors_blob(cs) == bytes@;
                    lemma_colors_flat_len(cs);
                    let ws = seq![cs.len() as u64] + colors_flat(cs);
                    lemma_blob_word(ws, bytes@, 0);
                    assert(ws[0] == cs.len() as u64);
                    assert(cs.len() as u64 <= usize::MAX as u64);
                    assert(false);
                }
            }
            return Err(SnapshotError::Malformed)
        },
    };
    let need: u128 = 1 + 4 * (nc as u128);
    if need != nw as u128 {
        proof {
            if colors_decodable(bytes@) {
                let cs = choose|cs: Seq<Color>|
                    cs.len() < 0x8000_0000 && #[trigger] colors_blob(cs) == bytes@;
                lemma_colors_flat_len(cs);
                let ws = seq![cs.len() as u64] + colors_flat(cs);
                lemma_blob_word(ws, bytes@, 0);
                assert(ws[0] == cs.len() as u64);
                assert(nc == cs.len());
                assert(nw as int == ws.len());
                assert(false);
            }
        }
        return Err(SnapshotError::Malformed);
    }
    let mut colors: Vec<Color> = Vec::new();
    proof {
        assert forall|cs: Seq<Color>|
            (cs.len() < 0x8000_0000 && #[trigger] colors_blob(cs) == bytes@) implies (cs.len()
            == nc && colors@ == cs.take(0)) by {
            lemma_colors_flat_len(cs);
            let ws = seq![cs.len() as u64] + colors_flat(cs);
            lemma_blob_word(ws, bytes@, 0);
            assert(ws[0] == cs.len() as u64);
            assert(colors@ =~= cs.take(0));
        }
    }
    let mut j: usize = 0;
    while j < nc
        invariant
            1 + 4 * (nc as int) == nw as int,
            8 * (nw as int) == bytes@.len(),
            j <= nc,
            colors@.len() == j,
            forall|cs: Seq<Color>|
                (cs.len() < 0x8000_0000 && #[trigger] colors_blob(cs) == bytes@) ==> (cs.len()
                    == nc && colors@ == cs.take(j as int)),
        decreases nc - j,
    {
        let base = 1 + 4 * j;
        proof {
            assert(4 * (j as int) + 4 <= 4 * (nc as int));
            assert forall|cs: Seq<Color>|
                cs.len() < 0x8000_0000 && #[trigger] colors_blob(cs) == bytes@ implies {
                let ws = seq![cs.len() as u64] + colors_flat(cs);
                &&& spec_u64_from_le_bytes(
                    bytes@.subrange(8 * (base as int), 8 * (base as int) + 8),
                ) == color_words(cs[j as int])[0]
                &&& spec_u64_from_le_bytes(
                    bytes@.subrange(8 * (base as int + 1), 8 * (base as int + 1) + 8),
                ) == color_words(cs[j as int])[1]
                &&& spec_u64_from_le_bytes(
                    bytes@.subrange(8 * (base as int + 2), 8 * (base as int + 2) + 8),
                ) == color_words(cs[j as int])[2]
                &&& spec_u64_from_le_bytes(
                    bytes@.subrange(8 * (base as int + 3), 8 * (base as int + 3) + 8),
                ) == color_words(cs[j as int])[3]
            } by {
                let ws = seq![cs.len() as u64] + colors_flat(cs);
                lemma_colors_flat_len(cs);
                lemma_colors_flat_slice(cs, j as int);
                lemma_blob_word(ws, bytes@, base as int);
                lemma_blob_word(ws, bytes@, base as int + 1);
                lemma_blob_word(ws, bytes@, base as int + 2);
                lemma_blob_word(ws, bytes@, base as int + 3);
                assert(ws[base as int] == colors_flat(cs)[4 * (j as int)]);
                assert(ws[base as int + 1] == colors_flat(cs)[4 * (j as int) + 1]);
                assert(ws[base as int + 2] == colors_flat(cs)[4 * (j as int) + 2]);
                assert(ws[base as int + 3] == colors_flat(cs)[4 * (j as int) + 3]);
                assert(colors_flat(cs)[4 * (j as int)] == colors_flat(cs).subrange(
                    4 * (j as int),
                    4 * (j as int) + 4,
                )[0]);
                assert(colors_flat(cs)[4 * (j as int) + 1] == colors_flat(cs).subrange(
                    4 * (j as int),
                    4 * (j as int) + 4,
                )[1]);
                assert(colors_flat(cs)[4 * (j as int) + 2] == colors_flat(cs).subrange(
                    4 * (j as int),
                    4 * (j as int) + 4,
                )[2]);
                assert(colors_flat(cs)[4 * (j as int) + 3] == colors_flat(cs).subrange(
                    4 * (j as int),
                    4 * (j as int) + 4,
                )[3]);
            }
        }
        let cr = match word_to_u8(word_at(bytes, base)) {
            Some(v) => v,
            None => {
                proof {
                    if colors_decodable(bytes@) {
                        let cs = choose|cs: Seq<Color>|
                            cs.len() < 0x8000_0000 && #[trigger] colors_blob(cs) == bytes@;
                        assert(false);
                    }
                }
                return Err(SnapshotError::Malformed)
            },
        };
        let cg = match word_to_u8(word_at(bytes, base + 1)) {
            Some(v) => v,
            None => {
                proof {
                    if colors_decodable(bytes@) {
                        let cs = choose|cs: Seq<Color>|
                            cs.len() < 0x8000_0000 && #[trigger] colors_blob(cs) == bytes@;
                        assert(false);
                    }
                }
                return Err(SnapshotError::Malformed)
            },
        };
        let cb = match word_to_u8(word_at(bytes, base + 2)) {
            Some(v) => v,
            None => {
                proof {
                    if colors_decodable(bytes@) {
                        let cs = choose|cs: Seq<Color>|
                            cs.len() < 0x8000_0000 && #[trigger] colors_blob(cs) == bytes@;
                        assert(false);
                    }
                }
                return Err(SnapshotError::Malformed)
            },
        };
        let ca = match word_to_u8(word_at(bytes, base + 3)) {
            Some(v) => v,
            None => {
                proof {
                    if colors_decodable(bytes@) {
                        let cs = choose|cs: Seq<Color>|
                            cs.len() < 0x8000_0000 && #[trigger] colors_blob(cs) == bytes@;
                        assert(false);
                    }
                }
                return Err(SnapshotError::Malformed)
            },
        };
        colors.push(Color { r: cr, g: cg, b: cb, a: ca });
        proof {
            assert forall|cs: Seq<Color>|
                (cs.len() < 0x8000_0000 && #[trigger] colors_blob(cs) == bytes@) implies (cs.len()
                == nc && colors@ == cs.take(j as int + 1)) by {
                assert(colors@.drop_last() == cs.take(j as int));
                assert(cs[j as int].r as u64 == cr as u64);
                assert(cs[j as int] == (Color { r: cr, g: cg, b: cb, a: ca }));
                assert(colors@ =~= cs.take(j as int + 1));
            }
        }
        j += 1;
    }
    let re = encode_colors(&colors);
    if bytes_equal(&re, bytes) {
        Ok(colors)
    } else {
        proof {
            if colors_decodable(bytes@) {
                let cs = choose|cs: Seq<Color>|
                    cs.len() < 0x8000_0000 && #[trigger] colors_blob(cs) == bytes@;
                assert(colors@ == cs.take(nc as int));
                assert(cs.take(nc as int) =~= cs);
                assert(re@ == colors_blob(cs));
                assert(false);
            }
        }
        Err(SnapshotError::Malformed)
    }
}

} // verus!
