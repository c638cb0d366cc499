//! The grid: the cell matrix, the scratch buffer for double-buffered
//! updates, the dirty-index list, and the rendered RGBA pixel buffer.

use vstd::prelude::*;
use vstd::pervasive::VecAdditionalExecFns;
use crate::cell::Cell;

verus! {

// ---------------------------------------------------------------------------
// Toroidal coordinates
// ---------------------------------------------------------------------------

/// One step towards lower indices on a ring of size `m`; equals
/// `(x + m - 1) % m` for `0 <= x < m`.
pub open spec fn dec_wrap(x: int, m: int) -> int {
    if x == 0 { m - 1 } else { x - 1 }
}

/// One step towards higher indices on a ring of size `m`; equals
/// `(x + 1) % m` for `0 <= x < m`.
pub open spec fn inc_wrap(x: int, m: int) -> int {
    if x == m - 1 { 0 } else { x + 1 }
}

/// The conditional form of the wrapped decrement is the modular one.
pub proof fn lemma_dec_wrap_is_mod(x: int, m: int)
    requires
        0 < m,
        0 <= x < m,
    ensures
        dec_wrap(x, m) == (x + m - 1) % m,
{
    if x == 0 {
        vstd::arithmetic::div_mod::lemma_small_mod((m - 1) as nat, m as nat);
    } else {
        vstd::arithmetic::div_mod::lemma_mod_add_multiples_vanish(x - 1, m);
        vstd::arithmetic::div_mod::lemma_small_mod((x - 1) as nat, m as nat);
    }
}

/// The conditional form of the wrapped increment is the modular one.
pub proof fn lemma_inc_wrap_is_mod(x: int, m: int)
    requires
        0 < m,
        0 <= x < m,
    ensures
        inc_wrap(x, m) == (x + 1) % m,
{
    if x == m - 1 {
        vstd::arithmetic::div_mod::lemma_mod_self_0(m);
    } else {
        vstd::arithmetic::div_mod::lemma_small_mod((x + 1) as nat, m as nat);
    }
}

fn dec_wrap_u(x: u32, m: u32) -> (r: u32)
    requires
        0 < m,
        x < m,
    ensures
        r == dec_wrap(x as int, m as int),
        r < m,
{
    if x == 0 { m - 1 } else { x - 1 }
}

fn inc_wrap_u(x: u32, m: u32) -> (r: u32)
    requires
        0 < m,
        x < m,
    ensures
        r == inc_wrap(x as int, m as int),
        r < m,
{
    if x == m - 1 { 0 } else { x + 1 }
}

// ---------------------------------------------------------------------------
// Row-major layout
// ---------------------------------------------------------------------------

/// The cell at (r, c) in a row-major sequence of width `w`.
pub open spec fn cell_at(s: Seq<Cell>, w: int, r: int, c: int) -> Cell {
    s[r * w + c]
}

/// The life state of the cell at (r, c).
pub open spec fn alive_at(s: Seq<Cell>, w: int, r: int, c: int) -> bool {
    cell_at(s, w, r, c).spec_alive()
}

pub open spec fn b2i(b: bool) -> int {
    if b { 1 } else { 0 }
}

/// A flat row-major index stays below the cell count.
pub proof fn lemma_flat_bound(w: int, h: int, r: int, c: int)
    requires
        0 <= c < w,
        0 <= r < h,
    ensures
        0 <= r * w + c < h * w,
        0 <= r * w + c < w * h,
{
    assert(r * w + c < h * w && r * w + c < w * h) by (nonlinear_arith)
        requires 0 <= c < w, 0 <= r, r + 1 <= h;
}

/// Distinct in-range coordinates have distinct flat indices.
pub proof fn lemma_flat_inj(w: int, r1: int, c1: int, r2: int, c2: int)
    requires
        0 <= c1 < w,
        0 <= c2 < w,
        0 <= r1,
        0 <= r2,
    ensures
        (r1 * w + c1 == r2 * w + c2) <==> (r1 == r2 && c1 == c2),
{
    assert((r1 * w + c1 == r2 * w + c2) ==> (r1 == r2 && c1 == c2)) by (nonlinear_arith)
        requires 0 <= c1 < w, 0 <= c2 < w, 0 <= r1, 0 <= r2;
}

/// The cell count is no larger than the pixel-buffer length bound.
pub proof fn lemma_area_bound(w: int, h: int, cs: int)
    requires
        0 < w,
        0 < h,
        0 < cs,
    ensures
        w * h <= w * h * cs * cs * 4,
        0 < w * h,
{
    assert(w * h <= w * h * cs * cs * 4 && 0 < w * h) by (nonlinear_arith)
        requires 0 < w, 0 < h, 0 < cs;
}

/// All cells of a sequence are well-formed packed bytes.
pub open spec fn cells_wf(s: Seq<Cell>) -> bool {
    forall|i: int| 0 <= i < s.len() ==> (#[trigger] s[i]).wf()
}

// ---------------------------------------------------------------------------
// Neighbor counts and the Conway rule
// ---------------------------------------------------------------------------

/// Number of live cells among the 8 toroidal neighbor positions of (r, c):
/// row offsets -1, 0, +1 mod `h` and column offsets -1, 0, +1 mod `w`, the
/// (0, 0) offset excluded. On a dimension of 1 a cell is its own neighbor,
/// so a position may be counted more than once. Opaque: proofs about the
/// eight summands go through the lemmas below; elsewhere the count is one
/// atomic quantity.
#[verifier::opaque]
pub open spec fn nbr_count(s: Seq<Cell>, w: int, h: int, r: int, c: int) -> int {
    b2i(alive_at(s, w, dec_wrap(r, h), dec_wrap(c, w)))
        + b2i(alive_at(s, w, dec_wrap(r, h), c))
        + b2i(alive_at(s, w, dec_wrap(r, h), inc_wrap(c, w)))
        + b2i(alive_at(s, w, r, dec_wrap(c, w)))
        + b2i(alive_at(s, w, r, inc_wrap(c, w)))
        + b2i(alive_at(s, w, inc_wrap(r, h), dec_wrap(c, w)))
        + b2i(alive_at(s, w, inc_wrap(r, h), c))
        + b2i(alive_at(s, w, inc_wrap(r, h), inc_wrap(c, w)))
}

/// Conway's rule B3/S23: a live cell survives with 2 or 3 live neighbors, a
/// dead cell is born with exactly 3.
pub open spec fn next_state(alive: bool, n: int) -> bool {
    if alive { n == 2 || n == 3 } else { n == 3 }
}

/// The packed count of every cell equals its true live-neighbor count.
pub open spec fn counts_ok(s: Seq<Cell>, w: int, h: int) -> bool {
    forall|r: int, c: int|
        0 <= r < h && 0 <= c < w ==> (#[trigger] cell_at(s, w, r, c)).spec_count()
            == nbr_count(s, w, h, r, c)
}

/// Two sequences with the same life states have the same neighbor counts.
pub proof fn lemma_nbr_count_congruent(s1: Seq<Cell>, s2: Seq<Cell>, w: int, h: int, r: int, c: int)
    requires
        s1.len() == w * h,
        s2.len() == w * h,
        0 < w,
        0 < h,
        0 <= r < h,
        0 <= c < w,
        forall|i: int| 0 <= i < s1.len() ==> (#[trigger] s1[i]).spec_alive() == s2[i].spec_alive(),
    ensures
        nbr_count(s1, w, h, r, c) == nbr_count(s2, w, h, r, c),
{
    reveal(nbr_count);
    let rm: int = dec_wrap(r, h);
    let rp: int = inc_wrap(r, h);
    let cm: int = dec_wrap(c, w);
    let cp: int = inc_wrap(c, w);
    lemma_flat_bound(w, h, rm, cm);
    lemma_flat_bound(w, h, rm, c);
    lemma_flat_bound(w, h, rm, cp);
    lemma_flat_bound(w, h, r, cm);
    lemma_flat_bound(w, h, r, cp);
    lemma_flat_bound(w, h, rp, cm);
    lemma_flat_bound(w, h, rp, c);
    lemma_flat_bound(w, h, rp, cp);
    assert(s1[rm * w + cm].spec_alive() == s2[rm * w + cm].spec_alive());
    assert(s1[rm * w + c].spec_alive() == s2[rm * w + c].spec_alive());
    assert(s1[rm * w + cp].spec_alive() == s2[rm * w + cp].spec_alive());
    assert(s1[r * w + cm].spec_alive() == s2[r * w + cm].spec_alive());
    assert(s1[r * w + cp].spec_alive() == s2[r * w + cp].spec_alive());
    assert(s1[rp * w + cm].spec_alive() == s2[rp * w + cm].spec_alive());
    assert(s1[rp * w + c].spec_alive() == s2[rp * w + c].spec_alive());
    assert(s1[rp * w + cp].spec_alive() == s2[rp * w + cp].spec_alive());
}

// ---------------------------------------------------------------------------
// One generation: changed cells and propagated count deltas
// ---------------------------------------------------------------------------

/// Whether the cell at flat index `i` changes state in the next generation,
/// judged from its packed state and count.
pub open spec fn cell_changes(s: Seq<Cell>, i: int) -> bool {
    next_state(s[i].spec_alive(), s[i].spec_count() as int) != s[i].spec_alive()
}

/// +1 when the cell at `i` is being born, -1 when it is dying.
pub open spec fn change_delta(s: Seq<Cell>, i: int) -> int {
    if s[i].spec_alive() { -1 } else { 1 }
}

/// The flat indices below `upto` whose cells change state, in increasing
/// order.
pub open spec fn changed_list(s: Seq<Cell>, upto: int) -> Seq<u32>
    decreases upto,
{
    if upto <= 0 {
        Seq::empty()
    } else if cell_changes(s, upto - 1) {
        changed_list(s, upto - 1).push((upto - 1) as u32)
    } else {
        changed_list(s, upto - 1)
    }
}

/// The count delta that the cell at (qr, qc) sends to each of its neighbors,
/// visible once the cells with flat index below `upto` have been processed.
pub open spec fn sent_from(s: Seq<Cell>, w: int, upto: int, qr: int, qc: int) -> int {
    if qr * w + qc < upto && cell_changes(s, qr * w + qc) {
        change_delta(s, qr * w + qc)
    } else {
        0
    }
}

/// Net count delta accumulated at (pr, pc) once the cells with flat index
/// below `upto` have propagated their state changes: one term per neighbor
/// offset, in the same order as `nbr_count`.
pub open spec fn recv_sum(s: Seq<Cell>, w: int, h: int, pr: int, pc: int, upto: int) -> int {
    sent_from(s, w, upto, dec_wrap(pr, h), dec_wrap(pc, w))
        + sent_from(s, w, upto, dec_wrap(pr, h), pc)
        + sent_from(s, w, upto, dec_wrap(pr, h), inc_wrap(pc, w))
        + sent_from(s, w, upto, pr, dec_wrap(pc, w))
        + sent_from(s, w, upto, pr, inc_wrap(pc, w))
        + sent_from(s, w, upto, inc_wrap(pr, h), dec_wrap(pc, w))
        + sent_from(s, w, upto, inc_wrap(pr, h), pc)
        + sent_from(s, w, upto, inc_wrap(pr, h), inc_wrap(pc, w))
}

/// The `t`-th of the eight neighbor offsets of (pr, pc), tested against
/// (qr, qc): 1 when that offset lands on (qr, qc), else 0.
pub open spec fn hit_term(w: int, h: int, pr: int, pc: int, qr: int, qc: int, t: int) -> int {
    if t == 0 { b2i(dec_wrap(pr, h) == qr && dec_wrap(pc, w) == qc) }
    else if t == 1 { b2i(dec_wrap(pr, h) == qr && pc == qc) }
    else if t == 2 { b2i(dec_wrap(pr, h) == qr && inc_wrap(pc, w) == qc) }
    else if t == 3 { b2i(pr == qr && dec_wrap(pc, w) == qc) }
    else if t == 4 { b2i(pr == qr && inc_wrap(pc, w) == qc) }
    else if t == 5 { b2i(inc_wrap(pr, h) == qr && dec_wrap(pc, w) == qc) }
    else if t == 6 { b2i(inc_wrap(pr, h) == qr && pc == qc) }
    else { b2i(inc_wrap(pr, h) == qr && inc_wrap(pc, w) == qc) }
}

/// Sum of the first `t` of the eight offset tests.
pub open spec fn hit_upto(w: int, h: int, pr: int, pc: int, qr: int, qc: int, t: int) -> int
    decreases t,
{
    if t <= 0 {
        0
    } else {
        hit_upto(w, h, pr, pc, qr, qc, t - 1) + hit_term(w, h, pr, pc, qr, qc, t - 1)
    }
}

/// The multiplicity with which (qr, qc) occurs among the eight toroidal
/// neighbors of (pr, pc). It is 0 or 1 on grids of size at least 3 in both
/// dimensions, but can be larger on dimensions of 1 or 2.
pub open spec fn hit_count(w: int, h: int, pr: int, pc: int, qr: int, qc: int) -> int {
    hit_upto(w, h, pr, pc, qr, qc, 8)
}

/// The row of the cell that receives the `t`-th propagated delta of a change
/// at row `qr`: the offsets are ordered so that (qr, qc) is, by the `t`-th
/// offset of `hit_term`, a neighbor of exactly this target.
pub open spec fn target_r(h: int, qr: int, t: int) -> int {
    if t <= 2 { inc_wrap(qr, h) } else if t <= 4 { qr } else { dec_wrap(qr, h) }
}

/// The column of the cell that receives the `t`-th propagated delta of a
/// change at column `qc`.
pub open spec fn target_c(w: int, qc: int, t: int) -> int {
    if t == 0 || t == 3 || t == 5 {
        inc_wrap(qc, w)
    } else if t == 1 || t == 6 {
        qc
    } else {
        dec_wrap(qc, w)
    }
}

/// The `t`-th offset of (pr, pc) lands on (qr, qc) exactly when (pr, pc) is
/// the target of the `t`-th propagated delta of (qr, qc).
pub proof fn lemma_hit_target(w: int, h: int, pr: int, pc: int, qr: int, qc: int, t: int)
    requires
        0 < w,
        0 < h,
        0 <= pr < h,
        0 <= pc < w,
        0 <= qr < h,
        0 <= qc < w,
        0 <= t < 8,
    ensures
        hit_term(w, h, pr, pc, qr, qc, t) == b2i(pr == target_r(h, qr, t) && pc == target_c(
            w, qc, t)),
{
}

/// Partial hit sums are monotone and bounded by the full multiplicity.
pub proof fn lemma_hit_upto_mono(w: int, h: int, pr: int, pc: int, qr: int, qc: int, t1: int, t2: int)
    requires
        0 <= t1 <= t2,
    ensures
        hit_upto(w, h, pr, pc, qr, qc, t1) <= hit_upto(w, h, pr, pc, qr, qc, t2),
        0 <= hit_upto(w, h, pr, pc, qr, qc, t1),
    decreases t2,
{
    if t1 < t2 {
        lemma_hit_upto_mono(w, h, pr, pc, qr, qc, t1, t2 - 1);
    } else if t1 == t2 && t1 > 0 {
        lemma_hit_upto_mono(w, h, pr, pc, qr, qc, t1 - 1, t1 - 1);
    }
}

/// With an empty processed prefix nothing has been received.
pub proof fn lemma_recv_sum_zero(s: Seq<Cell>, w: int, h: int, pr: int, pc: int)
    requires
        0 < w,
        0 < h,
        0 <= pr < h,
        0 <= pc < w,
    ensures
        recv_sum(s, w, h, pr, pc, 0) == 0,
{
    let rm: int = dec_wrap(pr, h);
    let rp: int = inc_wrap(pr, h);
    let cm: int = dec_wrap(pc, w);
    let cp: int = inc_wrap(pc, w);
    lemma_flat_bound(w, h, rm, cm);
    lemma_flat_bound(w, h, rm, pc);
    lemma_flat_bound(w, h, rm, cp);
    lemma_flat_bound(w, h, pr, cm);
    lemma_flat_bound(w, h, pr, cp);
    lemma_flat_bound(w, h, rp, cm);
    lemma_flat_bound(w, h, rp, pc);
    lemma_flat_bound(w, h, rp, cp);
}

/// Extending the processed prefix past the cell (qr, qc) adds its delta to
/// each cell that has it as a neighbor, once per occurrence.
#[verifier::rlimit(80)]
pub proof fn lemma_recv_sum_step(s: Seq<Cell>, w: int, h: int, pr: int, pc: int, qr: int, qc: int)
    requires
        0 < w,
        0 < h,
        0 <= pr < h,
        0 <= pc < w,
        0 <= qr < h,
        0 <= qc < w,
    ensures
        recv_sum(s, w, h, pr, pc, qr * w + qc + 1) == recv_sum(s, w, h, pr, pc, qr * w + qc) + (
        if cell_changes(s, qr * w + qc) {
            if s[qr * w + qc].spec_alive() {
                -hit_count(w, h, pr, pc, qr, qc)
            } else {
                hit_count(w, h, pr, pc, qr, qc)
            }
        } else {
            0
        }),
{
    reveal_with_fuel(hit_upto, 9);
    let i: int = qr * w + qc;
    let rm: int = dec_wrap(pr, h);
    let rp: int = inc_wrap(pr, h);
    let cm: int = dec_wrap(pc, w);
    let cp: int = inc_wrap(pc, w);
    lemma_flat_inj(w, rm, cm, qr, qc);
    lemma_flat_inj(w, rm, pc, qr, qc);
    lemma_flat_inj(w, rm, cp, qr, qc);
    lemma_flat_inj(w, pr, cm, qr, qc);
    lemma_flat_inj(w, pr, cp, qr, qc);
    lemma_flat_inj(w, rp, cm, qr, qc);
    lemma_flat_inj(w, rp, pc, qr, qc);
    lemma_flat_inj(w, rp, cp, qr, qc);
    assert(sent_from(s, w, i + 1, rm, cm) == sent_from(s, w, i, rm, cm) + (if rm == qr && cm == qc
        && cell_changes(s, i) { change_delta(s, i) } else { 0 }));
    assert(sent_from(s, w, i + 1, rm, pc) == sent_from(s, w, i, rm, pc) + (if rm == qr && pc == qc
        && cell_changes(s, i) { change_delta(s, i) } else { 0 }));
    assert(sent_from(s, w, i + 1, rm, cp) == sent_from(s, w, i, rm, cp) + (if rm == qr && cp == qc
        && cell_changes(s, i) { change_delta(s, i) } else { 0 }));
    assert(sent_from(s, w, i + 1, pr, cm) == sent_from(s, w, i, pr, cm) + (if pr == qr && cm == qc
        && cell_changes(s, i) { change_delta(s, i) } else { 0 }));
    assert(sent_from(s, w, i + 1, pr, cp) == sent_from(s, w, i, pr, cp) + (if pr == qr && cp == qc
        && cell_changes(s, i) { change_delta(s, i) } else { 0 }));
    assert(sent_from(s, w, i + 1, rp, cm) == sent_from(s, w, i, rp, cm) + (if rp == qr && cm == qc
        && cell_changes(s, i) { change_delta(s, i) } else { 0 }));
    assert(sent_from(s, w, i + 1, rp, pc) == sent_from(s, w, i, rp, pc) + (if rp == qr && pc == qc
        && cell_changes(s, i) { change_delta(s, i) } else { 0 }));
    assert(sent_from(s, w, i + 1, rp, cp) == sent_from(s, w, i, rp, cp) + (if rp == qr && cp == qc
        && cell_changes(s, i) { change_delta(s, i) } else { 0 }));
}

/// What a cell has received keeps its count between the number of its live
/// neighbors lost and its dead neighbors gained.
pub proof fn lemma_recv_sum_bounds(s: Seq<Cell>, w: int, h: int, pr: int, pc: int, upto: int)
    requires
        0 < w,
        0 < h,
        0 <= pr < h,
        0 <= pc < w,
    ensures
        -nbr_count(s, w, h, pr, pc) <= recv_sum(s, w, h, pr, pc, upto),
        recv_sum(s, w, h, pr, pc, upto) <= 8 - nbr_count(s, w, h, pr, pc),
{
    reveal(nbr_count);
    let rm: int = dec_wrap(pr, h);
    let rp: int = inc_wrap(pr, h);
    let cm: int = dec_wrap(pc, w);
    let cp: int = inc_wrap(pc, w);
    assert(-b2i(alive_at(s, w, rm, cm)) <= sent_from(s, w, upto, rm, cm) <= 1 - b2i(alive_at(s, w, rm, cm)));
    assert(-b2i(alive_at(s, w, rm, pc)) <= sent_from(s, w, upto, rm, pc) <= 1 - b2i(alive_at(s, w, rm, pc)));
    assert(-b2i(alive_at(s, w, rm, cp)) <= sent_from(s, w, upto, rm, cp) <= 1 - b2i(alive_at(s, w, rm, cp)));
    assert(-b2i(alive_at(s, w, pr, cm)) <= sent_from(s, w, upto, pr, cm) <= 1 - b2i(alive_at(s, w, pr, cm)));
    assert(-b2i(alive_at(s, w, pr, cp)) <= sent_from(s, w, upto, pr, cp) <= 1 - b2i(alive_at(s, w, pr, cp)));
    assert(-b2i(alive_at(s, w, rp, cm)) <= sent_from(s, w, upto, rp, cm) <= 1 - b2i(alive_at(s, w, rp, cm)));
    assert(-b2i(alive_at(s, w, rp, pc)) <= sent_from(s, w, upto, rp, pc) <= 1 - b2i(alive_at(s, w, rp, pc)));
    assert(-b2i(alive_at(s, w, rp, cp)) <= sent_from(s, w, upto, rp, cp) <= 1 - b2i(alive_at(s, w, rp, cp)));
}

/// One neighbor's share of `lemma_counts_restored`: its new life state is
/// its old one plus the delta it sent.
proof fn lemma_term_restored(s: Seq<Cell>, s2: Seq<Cell>, w: int, h: int, ar: int, ac: int)
    requires
        0 < w,
        0 < h,
        s.len() == w * h,
        s2.len() == w * h,
        0 <= ar < h,
        0 <= ac < w,
        counts_ok(s, w, h),
        forall|r: int, c: int|
            0 <= r < h && 0 <= c < w ==> #[trigger] alive_at(s2, w, r, c) == next_state(
                alive_at(s, w, r, c), nbr_count(s, w, h, r, c)),
    ensures
        b2i(alive_at(s2, w, ar, ac)) == b2i(alive_at(s, w, ar, ac)) + sent_from(s, w, w * h, ar, ac),
{
    reveal(nbr_count);
    lemma_flat_bound(w, h, ar, ac);
    assert(alive_at(s2, w, ar, ac) == next_state(alive_at(s, w, ar, ac), nbr_count(s, w, h, ar, ac)));
    assert(cell_at(s, w, ar, ac).spec_count() == nbr_count(s, w, h, ar, ac));
}

/// After a full pass the accumulated deltas turn the old generation's
/// neighbor counts into the new generation's.
#[verifier::rlimit(80)]
pub proof fn lemma_counts_restored(s: Seq<Cell>, s2: Seq<Cell>, w: int, h: int, pr: int, pc: int)
    requires
        0 < w,
        0 < h,
        s.len() == w * h,
        s2.len() == w * h,
        0 <= pr < h,
        0 <= pc < w,
        counts_ok(s, w, h),
        forall|r: int, c: int|
            0 <= r < h && 0 <= c < w ==> #[trigger] alive_at(s2, w, r, c) == next_state(
                alive_at(s, w, r, c), nbr_count(s, w, h, r, c)),
    ensures
        nbr_count(s2, w, h, pr, pc) == nbr_count(s, w, h, pr, pc) + recv_sum(
            s, w, h, pr, pc, w * h),
{
    reveal(nbr_count);
    let rm: int = dec_wrap(pr, h);
    let rp: int = inc_wrap(pr, h);
    let cm: int = dec_wrap(pc, w);
    let cp: int = inc_wrap(pc, w);
    lemma_term_restored(s, s2, w, h, rm, cm);
    lemma_term_restored(s, s2, w, h, rm, pc);
    lemma_term_restored(s, s2, w, h, rm, cp);
    lemma_term_restored(s, s2, w, h, pr, cm);
    lemma_term_restored(s, s2, w, h, pr, cp);
    lemma_term_restored(s, s2, w, h, rp, cm);
    lemma_term_restored(s, s2, w, h, rp, pc);
    lemma_term_restored(s, s2, w, h, rp, cp);
}

/// Everything one step promises, relating the grid before (`pre`) and after
/// (`post`): the new generation follows Conway's rule judged on the old one;
/// the update list holds exactly the flat indices of the cells that changed,
/// in increasing row-major order; blocks of changed cells are repainted in
/// the new state's color while the blocks of unchanged cells keep their
/// pixels; the scratch buffer again mirrors the cells.
pub open spec fn step_post(pre: Grid, post: Grid) -> bool {
    let w = pre.width as int;
    let h = pre.height as int;
    let cs = pre.cell_size as int;
    let s = pre.cells@;
    &&& post.width == pre.width
    &&& post.height == pre.height
    &&& post.cell_size == pre.cell_size
    &&& post.cells@.len() == s.len()
    &&& forall|r: int, c: int|
        0 <= r < h && 0 <= c < w ==> #[trigger] alive_at(post.cells@, w, r, c) == next_state(
            alive_at(s, w, r, c), nbr_count(s, w, h, r, c))
    &&& post.update_list@ == changed_list(s, w * h)
    &&& post.img_buf@.len() == pre.img_buf@.len()
    &&& forall|r: int, c: int|
        0 <= r < h && 0 <= c < w && cell_changes(s, r * w + c) ==> #[trigger] block_is(
            post.img_buf@, w, cs, r, c, next_state(alive_at(s, w, r, c), nbr_count(s, w, h, r, c)))
    &&& forall|r: int, c: int|
        0 <= r < h && 0 <= c < w && !cell_changes(s, r * w + c) ==> #[trigger] block_eq(
            pre.img_buf@, post.img_buf@, w, cs, r, c)
    &&& post.alt_buf@ == post.cells@
}

/// The state in the middle of a step's pass, after the first `upto` cells
/// (in row-major flat order) have been processed: `oc` is the old
/// generation, still held unchanged in `cells`; `img0` is the image as it
/// stood when the pass began. Processed cells have their next state in the
/// scratch buffer, every scratch count carries the deltas received from the
/// processed prefix, the update list holds the processed changed indices,
/// and exactly the processed changed cells' blocks have been repainted.
pub open spec fn mid_step(g: Grid, oc: Seq<Cell>, img0: Seq<u8>, upto: int) -> bool {
    let w = g.width as int;
    let h = g.height as int;
    let cs = g.cell_size as int;
    &&& g.wf()
    &&& g.cells@ == oc
    &&& counts_ok(oc, w, h)
    &&& g.img_buf@.len() == img0.len()
    &&& g.update_list@ == changed_list(oc, upto)
    &&& g.update_list@.len() <= upto
    &&& g.alt_buf@.len() == oc.len()
    &&& cells_wf(g.alt_buf@)
    &&& forall|pr: int, pc: int|
        0 <= pr < h && 0 <= pc < w ==> (#[trigger] cell_at(g.alt_buf@, w, pr, pc)).spec_alive()
            == (if pr * w + pc < upto {
            next_state(alive_at(oc, w, pr, pc), nbr_count(oc, w, h, pr, pc))
        } else {
            alive_at(oc, w, pr, pc)
        })
    &&& forall|pr: int, pc: int|
        0 <= pr < h && 0 <= pc < w ==> (#[trigger] cell_at(g.alt_buf@, w, pr, pc)).spec_count()
            == cell_at(oc, w, pr, pc).spec_count() + recv_sum(oc, w, h, pr, pc, upto)
    &&& forall|r: int, c: int|
        0 <= r < h && 0 <= c < w && r * w + c < upto && cell_changes(oc, r * w + c)
            ==> #[trigger] block_is(g.img_buf@, w, cs, r, c, next_state(
            alive_at(oc, w, r, c), nbr_count(oc, w, h, r, c)))
    &&& forall|r: int, c: int|
        0 <= r < h && 0 <= c < w && !(r * w + c < upto && cell_changes(oc, r * w + c))
            ==> #[trigger] block_eq(img0, g.img_buf@, w, cs, r, c)
}

// ---------------------------------------------------------------------------
// Rendering layout
// ---------------------------------------------------------------------------

/// Channel `k` (0 = red, 1 = green, 2 = blue, 3 = alpha) of the color a cell
/// is painted with: black for a live cell, white for a dead one, both opaque.
pub open spec fn color_byte(alive: bool, k: int) -> u8 {
    if alive {
        if k == 3 { 0xff } else { 0x00 }
    } else {
        0xff
    }
}

/// Index into the pixel buffer of channel `k` of pixel (i, j) inside the
/// `cs` by `cs` block of cell (r, c), for a grid of width `w`.
pub open spec fn pix(w: int, cs: int, r: int, c: int, i: int, j: int) -> int {
    4 * (r * w * cs * cs + i * w * cs + c * cs + j)
}

/// The byte of the image at channel `k` of block pixel (i, j) of cell (r, c).
pub open spec fn pix_at(img: Seq<u8>, w: int, cs: int, r: int, c: int, i: int, j: int, k: int) -> u8 {
    img[pix(w, cs, r, c, i, j) + k]
}

/// The whole block of cell (r, c) is painted in the color for `alive`.
pub open spec fn block_is(img: Seq<u8>, w: int, cs: int, r: int, c: int, alive: bool) -> bool {
    forall|i: int, j: int, k: int|
        0 <= i < cs && 0 <= j < cs && 0 <= k < 4 ==> #[trigger] pix_at(img, w, cs, r, c, i, j, k)
            == color_byte(alive, k)
}

/// The block of cell (r, c) coincides in the two images.
pub open spec fn block_eq(img1: Seq<u8>, img2: Seq<u8>, w: int, cs: int, r: int, c: int) -> bool {
    forall|i: int, j: int, k: int|
        0 <= i < cs && 0 <= j < cs && 0 <= k < 4 ==> #[trigger] pix_at(img1, w, cs, r, c, i, j, k)
            == pix_at(img2, w, cs, r, c, i, j, k)
}

/// Pixel-buffer indices determine the cell, the pixel within its block, and
/// the channel: two equal indices have equal coordinates throughout.
pub proof fn lemma_pix_unique(
    w: int, cs: int,
    r1: int, c1: int, i1: int, j1: int, k1: int,
    r2: int, c2: int, i2: int, j2: int, k2: int,
)
    requires
        0 < w,
        0 < cs,
        0 <= r1, 0 <= c1 < w, 0 <= i1 < cs, 0 <= j1 < cs, 0 <= k1 < 4,
        0 <= r2, 0 <= c2 < w, 0 <= i2 < cs, 0 <= j2 < cs, 0 <= k2 < 4,
        pix(w, cs, r1, c1, i1, j1) + k1 == pix(w, cs, r2, c2, i2, j2) + k2,
    ensures
        r1 == r2 && c1 == c2 && i1 == i2 && j1 == j2 && k1 == k2,
{
    let a1: int = r1 * cs + i1;
    let b1: int = c1 * cs + j1;
    let a2: int = r2 * cs + i2;
    let b2: int = c2 * cs + j2;
    assert(r1 * w * cs * cs + i1 * w * cs + c1 * cs + j1 == a1 * (w * cs) + b1) by (nonlinear_arith)
        requires a1 == r1 * cs + i1, b1 == c1 * cs + j1;
    assert(r2 * w * cs * cs + i2 * w * cs + c2 * cs + j2 == a2 * (w * cs) + b2) by (nonlinear_arith)
        requires a2 == r2 * cs + i2, b2 == c2 * cs + j2;
    assert(0 <= b1 < w * cs && 0 <= b2 < w * cs) by (nonlinear_arith)
        requires 0 <= c1 < w, 0 <= j1 < cs, 0 <= c2 < w, 0 <= j2 < cs,
            b1 == c1 * cs + j1, b2 == c2 * cs + j2;
    let q1: int = a1 * (w * cs) + b1;
    let q2: int = a2 * (w * cs) + b2;
    lemma_radix(q1, k1, q2, k2, 4);
    lemma_radix(a1, b1, a2, b2, w * cs);
    lemma_radix(r1, i1, r2, i2, cs);
    lemma_radix(c1, j1, c2, j2, cs);
}

/// Uniqueness of the mixed-radix decomposition `a * m + b` with `0 <= b < m`.
pub proof fn lemma_radix(a1: int, b1: int, a2: int, b2: int, m: int)
    requires
        0 <= b1 < m,
        0 <= b2 < m,
        0 <= a1,
        0 <= a2,
        a1 * m + b1 == a2 * m + b2,
    ensures
        a1 == a2,
        b1 == b2,
{
    assert(a1 == a2 && b1 == b2) by (nonlinear_arith)
        requires 0 <= b1 < m, 0 <= b2 < m, 0 <= a1, 0 <= a2, a1 * m + b1 == a2 * m + b2;
}

/// A pixel-buffer index of an in-range cell, block pixel and channel lies
/// within the buffer, as do all the partial products used to compute it.
pub proof fn lemma_pix_bound(w: int, h: int, cs: int, r: int, c: int, i: int, j: int)
    requires
        0 < w, 0 < h, 0 < cs,
        0 <= r < h, 0 <= c < w, 0 <= i < cs, 0 <= j < cs,
    ensures
        0 <= pix(w, cs, r, c, i, j),
        pix(w, cs, r, c, i, j) + 4 <= 4 * (w * h * cs * cs),
        r * w * cs * cs + i * w * cs + c * cs + j < w * h * cs * cs,
        0 <= r * w <= w * h * cs * cs,
        0 <= r * w * cs <= w * h * cs * cs,
        0 <= r * w * cs * cs <= w * h * cs * cs,
        0 <= i * w <= w * h * cs * cs,
        0 <= i * w * cs <= w * h * cs * cs,
        0 <= c * cs <= w * h * cs * cs,
{
    assert(0 <= r * w * cs * cs + i * w * cs + c * cs + j
        && r * w * cs * cs + i * w * cs + c * cs + j < w * h * cs * cs
        && 0 <= r * w <= w * h * cs * cs
        && 0 <= r * w * cs <= w * h * cs * cs
        && 0 <= r * w * cs * cs <= w * h * cs * cs
        && 0 <= i * w <= w * h * cs * cs
        && 0 <= i * w * cs <= w * h * cs * cs
        && 0 <= c * cs <= w * h * cs * cs) by (nonlinear_arith)
        requires 0 < w, 0 < h, 0 < cs, 0 <= r, r + 1 <= h, 0 <= c, c + 1 <= w,
            0 <= i, i + 1 <= cs, 0 <= j, j + 1 <= cs;
}

/// Block equality composes across a chain of image versions.
pub proof fn lemma_block_eq_trans(a: Seq<u8>, b: Seq<u8>, c: Seq<u8>, w: int, cs: int, r: int, cc: int)
    requires
        block_eq(a, b, w, cs, r, cc),
        block_eq(b, c, w, cs, r, cc),
    ensures
        block_eq(a, c, w, cs, r, cc),
{
    assert forall|i: int, j: int, k: int|
        0 <= i < cs && 0 <= j < cs && 0 <= k < 4 implies #[trigger] pix_at(a, w, cs, r, cc, i, j, k)
        == pix_at(c, w, cs, r, cc, i, j, k) by {
        assert(pix_at(a, w, cs, r, cc, i, j, k) == pix_at(b, w, cs, r, cc, i, j, k));
        assert(pix_at(b, w, cs, r, cc, i, j, k) == pix_at(c, w, cs, r, cc, i, j, k));
    }
}

/// A block painted in one image is painted the same in any image whose block
/// coincides with it.
pub proof fn lemma_block_is_eq(a: Seq<u8>, b: Seq<u8>, w: int, cs: int, r: int, cc: int, alive: bool)
    requires
        block_is(a, w, cs, r, cc, alive),
        block_eq(a, b, w, cs, r, cc),
    ensures
        block_is(b, w, cs, r, cc, alive),
{
    assert forall|i: int, j: int, k: int|
        0 <= i < cs && 0 <= j < cs && 0 <= k < 4 implies #[trigger] pix_at(b, w, cs, r, cc, i, j, k)
        == color_byte(alive, k) by {
        assert(pix_at(a, w, cs, r, cc, i, j, k) == color_byte(alive, k));
        assert(pix_at(a, w, cs, r, cc, i, j, k) == pix_at(b, w, cs, r, cc, i, j, k));
    }
}

/// Rewriting the four channel bytes of one block pixel leaves every other
/// cell's block unchanged, and the other pixels of its own block unchanged.
pub proof fn lemma_pixel_write(
    img1: Seq<u8>, img2: Seq<u8>, w: int, h: int, cs: int, row: int, col: int, i: int, j: int,
)
    requires
        0 < w, 0 < h, 0 < cs,
        0 <= row < h, 0 <= col < w, 0 <= i < cs, 0 <= j < cs,
        img1.len() == 4 * (w * h * cs * cs),
        img2.len() == img1.len(),
        forall|p: int|
            0 <= p < img1.len() && !(pix(w, cs, row, col, i, j) <= p < pix(w, cs, row, col, i, j)
                + 4) ==> img2[p] == #[trigger] img1[p],
    ensures
        forall|r: int, c: int|
            0 <= r < h && 0 <= c < w && !(r == row && c == col) ==> #[trigger] block_eq(
                img1, img2, w, cs, r, c),
        forall|i2: int, j2: int, k2: int|
            0 <= i2 < cs && 0 <= j2 < cs && 0 <= k2 < 4 && !(i2 == i && j2 == j)
                ==> #[trigger] pix_at(img2, w, cs, row, col, i2, j2, k2) == pix_at(
                img1, w, cs, row, col, i2, j2, k2),
{
    assert forall|r: int, c: int|
        0 <= r < h && 0 <= c < w && !(r == row && c == col) implies #[trigger] block_eq(
        img1, img2, w, cs, r, c) by {
        assert forall|i2: int, j2: int, k2: int|
            0 <= i2 < cs && 0 <= j2 < cs && 0 <= k2 < 4 implies #[trigger] pix_at(
            img1, w, cs, r, c, i2, j2, k2) == pix_at(img2, w, cs, r, c, i2, j2, k2) by {
            lemma_pix_bound(w, h, cs, r, c, i2, j2);
            let p: int = pix(w, cs, r, c, i2, j2) + k2;
            if pix(w, cs, row, col, i, j) <= p < pix(w, cs, row, col, i, j) + 4 {
                let k: int = p - pix(w, cs, row, col, i, j);
                lemma_pix_unique(w, cs, r, c, i2, j2, k2, row, col, i, j, k);
                assert(false);
            }
        }
    }
    assert forall|i2: int, j2: int, k2: int|
        0 <= i2 < cs && 0 <= j2 < cs && 0 <= k2 < 4 && !(i2 == i && j2 == j)
            implies #[trigger] pix_at(img2, w, cs, row, col, i2, j2, k2) == pix_at(
        img1, w, cs, row, col, i2, j2, k2) by {
        lemma_pix_bound(w, h, cs, row, col, i2, j2);
        let p: int = pix(w, cs, row, col, i2, j2) + k2;
        if pix(w, cs, row, col, i, j) <= p < pix(w, cs, row, col, i, j) + 4 {
            let k: int = p - pix(w, cs, row, col, i, j);
            lemma_pix_unique(w, cs, row, col, i2, j2, k2, row, col, i, j, k);
            assert(false);
        }
    }
}

/// Every flat index below the cell count decomposes into in-range
/// coordinates.
pub proof fn lemma_flat_surjective(w: int, h: int, q: int)
    requires
        0 < w,
        0 < h,
        0 <= q < w * h,
    ensures
        0 <= q / w < h,
        0 <= q % w < w,
        q == (q / w) * w + q % w,
{
    let d: int = q / w;
    let m: int = q % w;
    vstd::arithmetic::div_mod::lemma_fundamental_div_mod(q, w);
    vstd::arithmetic::div_mod::lemma_mod_bound(q, w);
    vstd::arithmetic::div_mod::lemma_div_pos_is_pos(q, w);
    assert(d < h) by (nonlinear_arith)
        requires q == w * d + m, 0 <= m, q < w * h, 0 <= d, 0 < w;
    assert(q == d * w + m) by (nonlinear_arith)
        requires q == w * d + m;
}

/// Every pixel-buffer position lies inside exactly one cell's block: it
/// decomposes into a cell, a block pixel and a channel.
pub proof fn lemma_pix_decompose(w: int, h: int, cs: int, pos: int)
    requires
        0 < w,
        0 < h,
        0 < cs,
        0 <= pos < 4 * (w * h * cs * cs),
    ensures
        exists|r: int, c: int, i: int, j: int|
            0 <= r < h && 0 <= c < w && 0 <= i < cs && 0 <= j < cs && #[trigger] pix(
                w, cs, r, c, i, j) <= pos < pix(w, cs, r, c, i, j) + 4,
{
    let k: int = pos % 4;
    let q: int = pos / 4;
    vstd::arithmetic::div_mod::lemma_fundamental_div_mod(pos, 4);
    vstd::arithmetic::div_mod::lemma_mod_bound(pos, 4);
    vstd::arithmetic::div_mod::lemma_div_pos_is_pos(pos, 4);
    let m1: int = w * cs;
    assert(0 < m1 && w * h * cs * cs == m1 * (h * cs)) by (nonlinear_arith)
        requires 0 < w, 0 < h, 0 < cs, m1 == w * cs;
    let pr: int = q / m1;
    let pc: int = q % m1;
    vstd::arithmetic::div_mod::lemma_fundamental_div_mod(q, m1);
    vstd::arithmetic::div_mod::lemma_mod_bound(q, m1);
    vstd::arithmetic::div_mod::lemma_div_pos_is_pos(q, m1);
    assert(pr < h * cs) by (nonlinear_arith)
        requires q == m1 * pr + pc, 0 <= pc, q < m1 * (h * cs), 0 <= pr, 0 < m1;
    let r: int = pr / cs;
    let i: int = pr % cs;
    vstd::arithmetic::div_mod::lemma_fundamental_div_mod(pr, cs);
    vstd::arithmetic::div_mod::lemma_mod_bound(pr, cs);
    vstd::arithmetic::div_mod::lemma_div_pos_is_pos(pr, cs);
    assert(r < h) by (nonlinear_arith)
        requires pr == cs * r + i, 0 <= i, pr < h * cs, 0 <= r, 0 < cs;
    let c: int = pc / cs;
    let j: int = pc % cs;
    vstd::arithmetic::div_mod::lemma_fundamental_div_mod(pc, cs);
    vstd::arithmetic::div_mod::lemma_mod_bound(pc, cs);
    vstd::arithmetic::div_mod::lemma_div_pos_is_pos(pc, cs);
    assert(c < w) by (nonlinear_arith)
        requires pc == cs * c + j, 0 <= j, pc < m1, m1 == w * cs, 0 <= c, 0 < cs;
    assert(4 * (r * w * cs * cs + i * w * cs + c * cs + j) + k == pos) by (nonlinear_arith)
        requires
            pos == 4 * q + k,
            q == m1 * pr + pc,
            m1 == w * cs,
            pr == cs * r + i,
            pc == cs * c + j;
    assert(0 <= r < h && 0 <= c < w && 0 <= i < cs && 0 <= j < cs && 0 <= k < 4 && pos == pix(
        w, cs, r, c, i, j) + k);
}

/// Everything construction promises for given dimensions: the invariant and
/// a fully rendered image hold, the life states are seeded from the flat
/// index (alive when divisible by 2 or by 7), and the update list holds all
/// indices in order.
pub open spec fn new_post(g: Grid, width: u32, height: u32, cell_size: u32) -> bool {
    &&& g.inv()
    &&& g.img_ok()
    &&& g.width == width
    &&& g.height == height
    &&& g.cell_size == cell_size
    &&& forall|q: int|
        0 <= q < g.cells@.len() ==> ((#[trigger] g.cells@[q]).spec_alive() <==> (q % 2 == 0 || q
            % 7 == 0))
    &&& g.update_list@.len() == width * height
    &&& forall|q: int| 0 <= q < g.update_list@.len() ==> #[trigger] g.update_list@[q] == q
}

// ---------------------------------------------------------------------------
// The grid
// ---------------------------------------------------------------------------

/// The full automaton state.
///
/// `cells` is the authoritative generation; `alt_buf` is the scratch buffer
/// written during a step; `img_buf` is the rendered RGBA raster where each
/// cell owns a `cell_size` by `cell_size` pixel block; `update_list` holds
/// the flat indices of the cells whose state changed in the last step.
pub struct Grid {
    pub width: u32,
    pub height: u32,
    pub cell_size: u32,
    pub cells: Vec<Cell>,
    pub alt_buf: Vec<Cell>,
    pub img_buf: Vec<u8>,
    pub update_list: Vec<u32>,
}

impl Grid {
    /// The number of cells.
    pub open spec fn n(&self) -> int {
        self.width * self.height
    }

    /// Structural well-formedness: positive dimensions, buffers of the right
    /// length, well-formed packed bytes, and sizes within machine range.
    pub open spec fn wf(&self) -> bool {
        &&& 0 < self.width
        &&& 0 < self.height
        &&& 0 < self.cell_size
        &&& self.width * self.height * self.cell_size * self.cell_size * 4 <= u32::MAX
        &&& self.cells@.len() == self.n()
        &&& self.img_buf@.len() == self.width * self.height * self.cell_size * self.cell_size * 4
        &&& self.update_list@.len() <= self.n()
        &&& cells_wf(self.cells@)
    }

    /// The invariant holding between completed steps: the grid is
    /// well-formed, every packed count is the true live-neighbor count, and
    /// the scratch buffer mirrors the cells.
    pub open spec fn inv(&self) -> bool {
        &&& self.wf()
        &&& counts_ok(self.cells@, self.width as int, self.height as int)
        &&& self.alt_buf@ == self.cells@
    }

    /// Every cell's pixel block shows its current life state.
    pub open spec fn img_ok(&self) -> bool {
        forall|r: int, c: int|
            0 <= r < self.height && 0 <= c < self.width ==> #[trigger] block_is(
                self.img_buf@,
                self.width as int,
                self.cell_size as int,
                r,
                c,
                alive_at(self.cells@, self.width as int, r, c),
            )
    }

    /// Flat row-major index of cell (row, col).
    fn get_index(&self, row: u32, col: u32) -> (i: usize)
        requires
            self.wf(),
            row < self.height,
            col < self.width,
        ensures
            i == row * self.width + col,
            i < self.n(),
    {
        proof {
            lemma_flat_bound(self.width as int, self.height as int, row as int, col as int);
            lemma_area_bound(self.width as int, self.height as int, self.cell_size as int);
        }
        (row * self.width + col) as usize
    }

    /// The cell at (row, col) of the authoritative buffer.
    fn get_cell(&self, row: u32, col: u32) -> (c: Cell)
        requires
            self.wf(),
            row < self.height,
            col < self.width,
        ensures
            c == cell_at(self.cells@, self.width as int, row as int, col as int),
    {
        let i = self.get_index(row, col);
        self.cells[i]
    }

    /// Counts the live cells among the 8 toroidal neighbors of (row, col) by
    /// direct inspection.
    pub fn get_neighbor_count(&self, row: u32, col: u32) -> (n: u8)
        requires
            self.wf(),
            row < self.height,
            col < self.width,
        ensures
            n == nbr_count(
                self.cells@,
                self.width as int,
                self.height as int,
                row as int,
                col as int,
            ),
            n <= 8,
    {
        proof {
            reveal(nbr_count);
        }
        let rm = dec_wrap_u(row, self.height);
        let rp = inc_wrap_u(row, self.height);
        let cm = dec_wrap_u(col, self.width);
        let cp = inc_wrap_u(col, self.width);
        let mut n: u8 = 0;
        if self.get_cell(rm, cm).is_alive() { n = n + 1; }
        if self.get_cell(rm, col).is_alive() { n = n + 1; }
        if self.get_cell(rm, cp).is_alive() { n = n + 1; }
        if self.get_cell(row, cm).is_alive() { n = n + 1; }
        if self.get_cell(row, cp).is_alive() { n = n + 1; }
        if self.get_cell(rp, cm).is_alive() { n = n + 1; }
        if self.get_cell(rp, col).is_alive() { n = n + 1; }
        if self.get_cell(rp, cp).is_alive() { n = n + 1; }
        n
    }

    /// Recomputes every cell's packed count by direct inspection of its
    /// neighbors: one full O(cells × 8) pass, the only heavy recomputation
    /// in the grid's lifetime.
    #[verifier::loop_isolation(false)]
    fn init(&mut self)
        requires
            old(self).wf(),
        ensures
            final(self).wf(),
            final(self).width == old(self).width,
            final(self).height == old(self).height,
            final(self).cell_size == old(self).cell_size,
            final(self).alt_buf@ == old(self).alt_buf@,
            final(self).img_buf@ == old(self).img_buf@,
            final(self).update_list@ == old(self).update_list@,
            final(self).cells@.len() == old(self).cells@.len(),
            forall|q: int|
                0 <= q < old(self).cells@.len() ==> (#[trigger] final(self).cells@[q]).spec_alive()
                    == old(self).cells@[q].spec_alive(),
            counts_ok(final(self).cells@, old(self).width as int, old(self).height as int),
    {
        let ghost w: int = self.width as int;
        let ghost h: int = self.height as int;
        let hgt = self.height;
        let wdt = self.width;
        let mut row: u32 = 0;
        while row < hgt
            invariant
                row <= hgt,
                self.wf(),
                self.width == old(self).width,
                self.height == old(self).height,
                self.cell_size == old(self).cell_size,
                self.alt_buf@ == old(self).alt_buf@,
                self.img_buf@ == old(self).img_buf@,
                self.update_list@ == old(self).update_list@,
                self.cells@.len() == old(self).cells@.len(),
                forall|q: int|
                    0 <= q < old(self).cells@.len() ==> (#[trigger] self.cells@[q]).spec_alive()
                        == old(self).cells@[q].spec_alive(),
                forall|r: int, c: int|
                    0 <= r < h && 0 <= c < w && r * w + c < row * w ==> (#[trigger] cell_at(
                        self.cells@, w, r, c)).spec_count() == nbr_count(self.cells@, w, h, r, c),
            decreases hgt - row,
        {
            let mut col: u32 = 0;
            while col < wdt
                invariant
                    col <= wdt,
                    row < hgt,
                    self.wf(),
                    self.width == old(self).width,
                    self.height == old(self).height,
                    self.cell_size == old(self).cell_size,
                    self.alt_buf@ == old(self).alt_buf@,
                    self.img_buf@ == old(self).img_buf@,
                    self.update_list@ == old(self).update_list@,
                    self.cells@.len() == old(self).cells@.len(),
                    forall|q: int|
                        0 <= q < old(self).cells@.len() ==> (#[trigger] self.cells@[q]).spec_alive()
                            == old(self).cells@[q].spec_alive(),
                    forall|r: int, c: int|
                        0 <= r < h && 0 <= c < w && r * w + c < row * w + col ==> (
                        #[trigger] cell_at(self.cells@, w, r, c)).spec_count() == nbr_count(
                            self.cells@, w, h, r, c),
                decreases wdt - col,
            {
                let cnt = self.get_neighbor_count(row, col);
                let ix = self.get_index(row, col);
                let ghost prev = self.cells@;
                let mut cl = self.cells[ix];
                cl.set_count(cnt);
                self.cells.set(ix, cl);
                proof {
                    assert forall|r: int, c: int|
                        0 <= r < h && 0 <= c < w && r * w + c < row * w + col + 1 implies (
                        #[trigger] cell_at(self.cells@, w, r, c)).spec_count() == nbr_count(
                        self.cells@, w, h, r, c) by {
                        lemma_flat_bound(w, h, r, c);
                        lemma_nbr_count_congruent(prev, self.cells@, w, h, r, c);
                        if r * w + c < row * w + col {
                            assert(cell_at(prev, w, r, c).spec_count() == nbr_count(
                                prev, w, h, r, c));
                            assert(cell_at(self.cells@, w, r, c) == prev[r * w + c]);
                        } else {
                            lemma_flat_inj(w, r, c, row as int, col as int);
                            assert(r == row && c == col);
                            assert(cell_at(self.cells@, w, r, c) == cl);
                            assert(cl.spec_count() == nbr_count(prev, w, h, r, c));
                        }
                    }
                }
                col += 1;
            }
            proof {
                assert(row * w + wdt == (row + 1) * w) by (nonlinear_arith)
                    requires w == wdt as int;
            }
            row += 1;
        }
        proof {
            assert forall|r: int, c: int|
                0 <= r < h && 0 <= c < w implies (#[trigger] cell_at(
                self.cells@, w, r, c)).spec_count() == nbr_count(self.cells@, w, h, r, c) by {
                lemma_flat_bound(w, h, r, c);
                assert(r * w + c < h * w);
            }
        }
    }

    /// Copies the authoritative cells into the scratch buffer.
    #[verifier::loop_isolation(false)]
    fn sync_alt(&mut self)
        requires
            old(self).wf(),
        ensures
            final(self).wf(),
            final(self).width == old(self).width,
            final(self).height == old(self).height,
            final(self).cell_size == old(self).cell_size,
            final(self).cells@ == old(self).cells@,
            final(self).img_buf@ == old(self).img_buf@,
            final(self).update_list@ == old(self).update_list@,
            final(self).alt_buf@ == old(self).cells@,
    {
        self.alt_buf = Vec::new();
        let len = self.cells.len();
        let mut k: usize = 0;
        while k < len
            invariant
                k <= len,
                len == self.cells@.len(),
                self.wf(),
                self.width == old(self).width,
                self.height == old(self).height,
                self.cell_size == old(self).cell_size,
                self.cells@ == old(self).cells@,
                self.img_buf@ == old(self).img_buf@,
                self.update_list@ == old(self).update_list@,
                self.alt_buf@ == self.cells@.subrange(0, k as int),
            decreases len - k,
        {
            let cl = self.cells[k];
            self.alt_buf.push(cl);
            proof {
                assert(self.cells@.subrange(0, k + 1) =~= self.cells@.subrange(0, k as int).push(
                    self.cells@[k as int]));
            }
            k += 1;
        }
        proof {
            assert(self.cells@.subrange(0, len as int) =~= self.cells@);
        }
    }

    /// Builds a grid of the given dimensions: cells are seeded from their
    /// flat index (alive when it is divisible by 2 or by 7), every count is
    /// initialized by a full pass, the scratch buffer is brought level, and
    /// the pixel buffer is fully rendered.
    pub fn new(width: u32, height: u32, cell_size: u32) -> (g: Grid)
        requires
            0 < width,
            0 < height,
            0 < cell_size,
            width * height * cell_size * cell_size * 4 <= u32::MAX,
        ensures
            g.inv(),
            g.img_ok(),
            g.width == width,
            g.height == height,
            g.cell_size == cell_size,
            forall|q: int|
                0 <= q < g.cells@.len() ==> ((#[trigger] g.cells@[q]).spec_alive() <==> (q % 2 == 0
                    || q % 7 == 0)),
            g.update_list@.len() == width * height,
            forall|q: int| 0 <= q < g.update_list@.len() ==> #[trigger] g.update_list@[q] == q,
            new_post(g, width, height, cell_size),
    {
        proof {
            lemma_area_bound(width as int, height as int, cell_size as int);
            assert(width * height * cell_size * cell_size == (width * height) * cell_size
                * cell_size) by (nonlinear_arith);
            assert((width * height) * cell_size <= (width * height) * cell_size * cell_size
                && (width * height) * cell_size * cell_size
                    <= width * height * cell_size * cell_size * 4) by (nonlinear_arith)
                requires 0 < width, 0 < height, 0 < cell_size;
        }
        let n: u32 = width * height;
        let mut cells: Vec<Cell> = Vec::new();
        let mut q: u32 = 0;
        while q < n
            invariant
                q <= n,
                cells@.len() == q,
                cells_wf(cells@),
                forall|t: int|
                    0 <= t < q ==> ((#[trigger] cells@[t]).spec_alive() <==> (t % 2 == 0 || t % 7
                        == 0)),
            decreases n - q,
        {
            if q % 2 == 0 || q % 7 == 0 {
                cells.push(Cell::alive());
            } else {
                cells.push(Cell::dead());
            }
            q += 1;
        }
        let mut update_list: Vec<u32> = Vec::new();
        let mut u: u32 = 0;
        while u < n
            invariant
                u <= n,
                update_list@.len() == u,
                forall|t: int| 0 <= t < u ==> #[trigger] update_list@[t] == t,
            decreases n - u,
        {
            update_list.push(u);
            u += 1;
        }
        let npix: u32 = n * cell_size * cell_size;
        let mut img_buf: Vec<u8> = Vec::new();
        let mut p: u32 = 0;
        while p < npix
            invariant
                p <= npix,
                img_buf@.len() == 4 * p,
            decreases npix - p,
        {
            img_buf.push(0x00);
            img_buf.push(0x00);
            img_buf.push(0x00);
            img_buf.push(0xff);
            p += 1;
        }
        let mut g = Grid { width, height, cell_size, cells, alt_buf: Vec::new(), img_buf, update_list };
        g.init();
        g.sync_alt();
        g.draw_all();
        g
    }

    /// Adds `delta` (+1 or -1) to the packed count of each of the eight
    /// toroidal neighbors of (row, col) in the scratch buffer, one bump per
    /// offset; a neighbor reached by several offsets is bumped once per
    /// offset.
    #[verifier::loop_isolation(false)]
    #[verifier::rlimit(80)]
    fn update_neighbors_counts(&mut self, row: u32, col: u32, delta: i8)
        requires
            old(self).wf(),
            row < old(self).height,
            col < old(self).width,
            delta == 1i8 || delta == -1i8,
            old(self).alt_buf@.len() == old(self).n(),
            cells_wf(old(self).alt_buf@),
            forall|pr: int, pc: int|
                0 <= pr < old(self).height && 0 <= pc < old(self).width ==> 0 <= (
                #[trigger] cell_at(old(self).alt_buf@, old(self).width as int, pr, pc)).spec_count()
                    + (if delta == 1i8 {
                    hit_count(old(self).width as int, old(self).height as int, pr, pc, row as int, col as int)
                } else {
                    -hit_count(old(self).width as int, old(self).height as int, pr, pc, row as int, col as int)
                }) <= 15,
        ensures
            final(self).wf(),
            final(self).width == old(self).width,
            final(self).height == old(self).height,
            final(self).cell_size == old(self).cell_size,
            final(self).cells@ == old(self).cells@,
            final(self).img_buf@ == old(self).img_buf@,
            final(self).update_list@ == old(self).update_list@,
            final(self).alt_buf@.len() == old(self).alt_buf@.len(),
            cells_wf(final(self).alt_buf@),
            forall|q: int|
                0 <= q < old(self).alt_buf@.len() ==> (#[trigger] final(
                    self).alt_buf@[q]).spec_alive() == old(self).alt_buf@[q].spec_alive(),
            forall|pr: int, pc: int|
                0 <= pr < old(self).height && 0 <= pc < old(self).width ==> (#[trigger] cell_at(
                    final(self).alt_buf@, old(self).width as int, pr, pc)).spec_count() == cell_at(
                    old(self).alt_buf@, old(self).width as int, pr, pc).spec_count() + (if delta
                    == 1i8 {
                    hit_count(old(self).width as int, old(self).height as int, pr, pc, row as int, col as int)
                } else {
                    -hit_count(old(self).width as int, old(self).height as int, pr, pc, row as int, col as int)
                }),
    {
        let ghost w: int = self.width as int;
        let ghost h: int = self.height as int;
        let ghost alt0: Seq<Cell> = self.alt_buf@;
        let rm: u32 = dec_wrap_u(row, self.height);
        let rp: u32 = inc_wrap_u(row, self.height);
        let cm: u32 = dec_wrap_u(col, self.width);
        let cp: u32 = inc_wrap_u(col, self.width);
        let mut t: u8 = 0;
        while t < 8
            invariant
                t <= 8,
                self.wf(),
                self.width == old(self).width,
                self.height == old(self).height,
                self.cell_size == old(self).cell_size,
                self.cells@ == old(self).cells@,
                self.img_buf@ == old(self).img_buf@,
                self.update_list@ == old(self).update_list@,
                self.alt_buf@.len() == alt0.len(),
                cells_wf(self.alt_buf@),
                forall|q: int|
                    0 <= q < alt0.len() ==> (#[trigger] self.alt_buf@[q]).spec_alive()
                        == alt0[q].spec_alive(),
                forall|pr: int, pc: int|
                    0 <= pr < h && 0 <= pc < w ==> (#[trigger] cell_at(
                        self.alt_buf@, w, pr, pc)).spec_count() == cell_at(
                        alt0, w, pr, pc).spec_count() + (if delta == 1i8 {
                        hit_upto(w, h, pr, pc, row as int, col as int, t as int)
                    } else {
                        -hit_upto(w, h, pr, pc, row as int, col as int, t as int)
                    }),
            decreases 8 - t,
        {
            let (tr, tc): (u32, u32) = if t == 0 { (rp, cp) } else if t == 1 { (rp, col) }
                else if t == 2 { (rp, cm) } else if t == 3 { (row, cp) } else if t == 4 { (row, cm) }
                else if t == 5 { (rm, cp) } else if t == 6 { (rm, col) } else { (rm, cm) };
            proof {
                assert(tr as int == target_r(h, row as int, t as int));
                assert(tc as int == target_c(w, col as int, t as int));
                lemma_hit_target(w, h, tr as int, tc as int, row as int, col as int, t as int);
                assert(hit_term(w, h, tr as int, tc as int, row as int, col as int, t as int) == 1);
                lemma_hit_upto_mono(w, h, tr as int, tc as int, row as int, col as int, t as int, 8);
                lemma_hit_upto_mono(
                    w, h, tr as int, tc as int, row as int, col as int, t as int + 1, 8,
                );
                assert(hit_upto(w, h, tr as int, tc as int, row as int, col as int, t as int + 1)
                    == hit_upto(w, h, tr as int, tc as int, row as int, col as int, t as int) + 1);
            }
            let ix = self.get_index(tr, tc);
            let mut cl = self.alt_buf[ix];
            proof {
                assert(cl == cell_at(self.alt_buf@, w, tr as int, tc as int));
                assert(cl == self.alt_buf@[ix as int]);
                assert(cl.wf());
                assert(cell_at(alt0, w, tr as int, tc as int).spec_count() + (if delta == 1i8 {
                    hit_count(w, h, tr as int, tc as int, row as int, col as int)
                } else {
                    -hit_count(w, h, tr as int, tc as int, row as int, col as int)
                }) <= 15);
            }
            if delta == 1 {
                cl.inc_count();
            } else {
                cl.dec_count();
            }
            let ghost alt_prev: Seq<Cell> = self.alt_buf@;
            self.alt_buf.set(ix, cl);
            proof {
                assert forall|pr: int, pc: int|
                    0 <= pr < h && 0 <= pc < w implies (#[trigger] cell_at(
                    self.alt_buf@, w, pr, pc)).spec_count() == cell_at(
                    alt0, w, pr, pc).spec_count() + (if delta == 1i8 {
                    hit_upto(w, h, pr, pc, row as int, col as int, t as int + 1)
                } else {
                    -hit_upto(w, h, pr, pc, row as int, col as int, t as int + 1)
                }) by {
                    lemma_flat_bound(w, h, pr, pc);
                    lemma_flat_inj(w, pr, pc, tr as int, tc as int);
                    lemma_hit_target(w, h, pr, pc, row as int, col as int, t as int);
                    assert(cell_at(alt_prev, w, pr, pc).spec_count() == cell_at(
                        alt0, w, pr, pc).spec_count() + (if delta == 1i8 {
                        hit_upto(w, h, pr, pc, row as int, col as int, t as int)
                    } else {
                        -hit_upto(w, h, pr, pc, row as int, col as int, t as int)
                    }));
                    if pr == tr as int && pc == tc as int {
                        assert(pr * w + pc == ix as int);
                        assert(cell_at(self.alt_buf@, w, pr, pc) == cl);
                    } else {
                        assert(pr * w + pc != ix as int);
                        assert(cell_at(self.alt_buf@, w, pr, pc) == cell_at(alt_prev, w, pr, pc));
                    }
                }
                assert forall|q: int|
                    0 <= q < alt0.len() implies (#[trigger] self.alt_buf@[q]).spec_alive()
                    == alt0[q].spec_alive() by {
                    assert(alt_prev[q].spec_alive() == alt0[q].spec_alive());
                }
                assert forall|q: int|
                    0 <= q < self.alt_buf@.len() implies (#[trigger] self.alt_buf@[q]).wf() by {
                    assert(alt_prev[q].wf());
                }
            }
            t += 1;
        }
    }

    /// Records, propagates and repaints one state change during a step's
    /// pass: the flat index of (row, col) is appended to the update list,
    /// the count delta (-1 when dying, +1 when being born) is added to the
    /// eight neighbors' scratch counts, and the cell's block is repainted in
    /// the new state's color.
    #[verifier::loop_isolation(false)]
    #[verifier::rlimit(100)]
    fn apply_change(
        &mut self,
        row: u32,
        col: u32,
        new_state: bool,
        was_alive: bool,
        Ghost(oc): Ghost<Seq<Cell>>,
        Ghost(img0): Ghost<Seq<u8>>,
    )
        requires
            row < old(self).height,
            col < old(self).width,
            mid_step(*old(self), oc, img0, row as int * old(self).width as int + col as int),
            cell_changes(oc, row as int * old(self).width as int + col as int),
            was_alive == alive_at(oc, old(self).width as int, row as int, col as int),
            new_state == next_state(
                alive_at(oc, old(self).width as int, row as int, col as int),
                nbr_count(oc, old(self).width as int, old(self).height as int, row as int, col as int),
            ),
        ensures
            final(self).width == old(self).width,
            final(self).height == old(self).height,
            final(self).cell_size == old(self).cell_size,
            final(self).wf(),
            final(self).cells@ == oc,
            final(self).img_buf@.len() == old(self).img_buf@.len(),
            final(self).update_list@ == changed_list(
                oc, row as int * old(self).width as int + col as int + 1),
            final(self).update_list@.len() <= row as int * old(self).width as int + col as int + 1,
            final(self).alt_buf@.len() == oc.len(),
            cells_wf(final(self).alt_buf@),
            forall|q: int|
                0 <= q < oc.len() ==> (#[trigger] final(self).alt_buf@[q]).spec_alive() == old(
                    self).alt_buf@[q].spec_alive(),
            forall|pr: int, pc: int|
                0 <= pr < old(self).height && 0 <= pc < old(self).width ==> (#[trigger] cell_at(
                    final(self).alt_buf@, old(self).width as int, pr, pc)).spec_count() == cell_at(
                    oc, old(self).width as int, pr, pc).spec_count() + recv_sum(
                    oc, old(self).width as int, old(self).height as int, pr, pc,
                    row as int * old(self).width as int + col as int + 1),
            forall|r: int, c: int|
                0 <= r < old(self).height && 0 <= c < old(self).width && r * old(
                    self).width as int + c < row as int * old(self).width as int + col as int + 1
                    && cell_changes(oc, r * old(self).width as int + c) ==> #[trigger] block_is(
                    final(self).img_buf@, old(self).width as int, old(self).cell_size as int, r, c,
                    next_state(
                        alive_at(oc, old(self).width as int, r, c),
                        nbr_count(oc, old(self).width as int, old(self).height as int, r, c),
                    )),
            forall|r: int, c: int|
                0 <= r < old(self).height && 0 <= c < old(self).width && !(r * old(
                    self).width as int + c < row as int * old(self).width as int + col as int + 1
                    && cell_changes(oc, r * old(self).width as int + c)) ==> #[trigger] block_eq(
                    img0, final(self).img_buf@, old(self).width as int, old(self).cell_size as int,
                    r, c),
    {
        let ghost w: int = self.width as int;
        let ghost h: int = self.height as int;
        let ghost cs: int = self.cell_size as int;
        proof {
            lemma_flat_bound(w, h, row as int, col as int);
            lemma_area_bound(w, h, cs);
        }
        let i = self.get_index(row, col);
        self.update_list.push(i as u32);
        let delta: i8 = if was_alive { -1 } else { 1 };
        proof {
            assert forall|pr: int, pc: int|
                0 <= pr < h && 0 <= pc < w implies 0 <= (#[trigger] cell_at(
                self.alt_buf@, w, pr, pc)).spec_count() + (if delta == 1i8 {
                hit_count(w, h, pr, pc, row as int, col as int)
            } else {
                -hit_count(w, h, pr, pc, row as int, col as int)
            }) <= 15 by {
                lemma_recv_sum_step(oc, w, h, pr, pc, row as int, col as int);
                lemma_recv_sum_bounds(oc, w, h, pr, pc, row * w + col + 1);
                assert(cell_at(oc, w, pr, pc).spec_count() == nbr_count(oc, w, h, pr, pc));
            }
        }
        let ghost alt_a: Seq<Cell> = self.alt_buf@;
        self.update_neighbors_counts(row, col, delta);
        proof {
            assert forall|pr: int, pc: int|
                0 <= pr < h && 0 <= pc < w implies (#[trigger] cell_at(
                self.alt_buf@, w, pr, pc)).spec_count() == cell_at(
                oc, w, pr, pc).spec_count() + recv_sum(oc, w, h, pr, pc, row * w + col + 1) by {
                lemma_recv_sum_step(oc, w, h, pr, pc, row as int, col as int);
                assert(cell_at(alt_a, w, pr, pc).spec_count() == cell_at(
                    oc, w, pr, pc).spec_count() + recv_sum(oc, w, h, pr, pc, row * w + col));
            }
        }
        let ghost img_a: Seq<u8> = self.img_buf@;
        self.draw_cell(row, col, new_state);
        proof {
            assert forall|r: int, c: int|
                0 <= r < h && 0 <= c < w && r * w + c < row * w + col + 1 && cell_changes(
                oc, r * w + c) implies #[trigger] block_is(self.img_buf@, w, cs, r, c, next_state(
                alive_at(oc, w, r, c), nbr_count(oc, w, h, r, c))) by {
                lemma_flat_inj(w, r, c, row as int, col as int);
                if r == row as int && c == col as int {
                    assert(block_is(self.img_buf@, w, cs, r, c, new_state));
                } else {
                    assert(r * w + c < row * w + col);
                    assert(block_is(img_a, w, cs, r, c, next_state(
                        alive_at(oc, w, r, c), nbr_count(oc, w, h, r, c))));
                    lemma_block_is_eq(img_a, self.img_buf@, w, cs, r, c, next_state(
                        alive_at(oc, w, r, c), nbr_count(oc, w, h, r, c)));
                }
            }
            assert forall|r: int, c: int|
                0 <= r < h && 0 <= c < w && !(r * w + c < row * w + col + 1 && cell_changes(
                oc, r * w + c)) implies #[trigger] block_eq(img0, self.img_buf@, w, cs, r, c) by {
                assert(!(r == row as int && c == col as int));
                assert(block_eq(img0, img_a, w, cs, r, c));
                lemma_block_eq_trans(img0, img_a, self.img_buf@, w, cs, r, c);
            }
        }
    }

    /// Processes one cell of a step's pass: applies Conway's rule to cell
    /// (row, col) judged on the old generation, and if the state changes,
    /// records the index, propagates the count delta to the eight neighbors'
    /// scratch counts and repaints the cell's block; the next state is
    /// written to the scratch buffer. Cells whose packed byte is zero (dead,
    /// no live neighbors) are skipped outright.
    #[verifier::loop_isolation(false)]
    #[verifier::rlimit(100)]
    fn step_cell(
        &mut self,
        row: u32,
        col: u32,
        Ghost(oc): Ghost<Seq<Cell>>,
        Ghost(img0): Ghost<Seq<u8>>,
    )
        requires
            row < old(self).height,
            col < old(self).width,
            mid_step(*old(self), oc, img0, row as int * old(self).width as int + col as int),
        ensures
            final(self).width == old(self).width,
            final(self).height == old(self).height,
            final(self).cell_size == old(self).cell_size,
            mid_step(*final(self), oc, img0, row as int * old(self).width as int + col as int + 1),
    {
        let ghost w: int = self.width as int;
        let ghost h: int = self.height as int;
        let ghost cs: int = self.cell_size as int;
        proof {
            lemma_flat_bound(w, h, row as int, col as int);
            lemma_area_bound(w, h, cs);
        }
        let i = self.get_index(row, col);
        let cell = self.cells[i];
        proof {
            assert(cell == cell_at(oc, w, row as int, col as int));
            assert(cell.wf());
            assert(cell.spec_count() == nbr_count(oc, w, h, row as int, col as int));
        }
        if cell.to_u8() == 0 {
            proof {
                cell.lemma_byte_zero();
                assert(!cell.spec_alive() && cell.spec_count() == 0);
                assert(nbr_count(oc, w, h, row as int, col as int) == 0);
                assert(!next_state(false, 0));
                assert(!cell_changes(oc, row * w + col));
                assert forall|pr: int, pc: int|
                    0 <= pr < h && 0 <= pc < w implies #[trigger] recv_sum(
                    oc, w, h, pr, pc, row * w + col + 1) == recv_sum(
                    oc, w, h, pr, pc, row * w + col) by {
                    lemma_recv_sum_step(oc, w, h, pr, pc, row as int, col as int);
                }
            }
        } else {
            let n_nbrs = cell.get_count();
            let alv = cell.is_alive();
            let new_state = if alv { n_nbrs == 2 || n_nbrs == 3 } else { n_nbrs == 3 };
            proof {
                assert(new_state == next_state(
                    alive_at(oc, w, row as int, col as int),
                    nbr_count(oc, w, h, row as int, col as int),
                ));
            }
            let changed = new_state != alv;
            if changed {
                proof {
                    assert(cell_changes(oc, row * w + col));
                }
                self.apply_change(row, col, new_state, alv, Ghost(oc), Ghost(img0));
            } else {
                proof {
                    assert(!cell_changes(oc, row * w + col));
                    assert forall|pr: int, pc: int|
                        0 <= pr < h && 0 <= pc < w implies #[trigger] recv_sum(
                        oc, w, h, pr, pc, row * w + col + 1) == recv_sum(
                        oc, w, h, pr, pc, row * w + col) by {
                        lemma_recv_sum_step(oc, w, h, pr, pc, row as int, col as int);
                    }
                }
            }
            let ghost alt_b: Seq<Cell> = self.alt_buf@;
            let mut ac = self.alt_buf[i];
            ac.set_state(new_state);
            self.alt_buf.set(i, ac);
            proof {
                assert forall|pr: int, pc: int|
                    0 <= pr < h && 0 <= pc < w implies ((#[trigger] cell_at(
                    self.alt_buf@, w, pr, pc)).spec_alive() == (if pr * w + pc < row * w + col
                    + 1 {
                    next_state(alive_at(oc, w, pr, pc), nbr_count(oc, w, h, pr, pc))
                } else {
                    alive_at(oc, w, pr, pc)
                }) && cell_at(self.alt_buf@, w, pr, pc).spec_count() == cell_at(
                    alt_b, w, pr, pc).spec_count()) by {
                    lemma_flat_bound(w, h, pr, pc);
                    lemma_flat_inj(w, pr, pc, row as int, col as int);
                    assert(cell_at(old(self).alt_buf@, w, pr, pc).spec_alive() == (
                        if pr * w + pc < row * w + col {
                        next_state(alive_at(oc, w, pr, pc), nbr_count(oc, w, h, pr, pc))
                    } else {
                        alive_at(oc, w, pr, pc)
                    }));
                    assert(cell_at(alt_b, w, pr, pc).spec_alive() == cell_at(
                        old(self).alt_buf@, w, pr, pc).spec_alive());
                    if pr == row as int && pc == col as int {
                        assert(cell_at(self.alt_buf@, w, pr, pc) == ac);
                    } else {
                        assert(cell_at(self.alt_buf@, w, pr, pc) == cell_at(alt_b, w, pr, pc));
                    }
                }
                assert forall|q: int|
                    0 <= q < self.alt_buf@.len() implies (#[trigger] self.alt_buf@[q]).wf() by {
                    assert(alt_b[q].wf());
                }
            }
        }
    }

    /// Advances the automaton by exactly one generation.
    ///
    /// The pass reads generation N from `cells` while writing generation
    /// N + 1 into the scratch buffer; every state change is recorded in
    /// `update_list`, propagated as a count delta to the eight neighbors'
    /// scratch counts, and repainted; finally the scratch buffer is copied
    /// over `cells`. The neighbor-count invariant holds again on return
    /// without any full recount.
    #[verifier::loop_isolation(false)]
    #[verifier::rlimit(100)]
    pub fn step(&mut self)
        requires
            old(self).inv(),
        ensures
            final(self).inv(),
            step_post(*old(self), *final(self)),
            old(self).img_ok() ==> final(self).img_ok(),
    {
        let ghost oc: Seq<Cell> = self.cells@;
        let ghost w: int = self.width as int;
        let ghost h: int = self.height as int;
        let ghost cs: int = self.cell_size as int;
        let ghost img0: Seq<u8> = self.img_buf@;
        let hgt = self.height;
        let wdt = self.width;
        proof {
            lemma_area_bound(w, h, cs);
        }
        self.update_list.clear();
        proof {
            assert(self.update_list@ =~= changed_list(oc, 0));
            assert forall|pr: int, pc: int|
                0 <= pr < h && 0 <= pc < w implies #[trigger] recv_sum(oc, w, h, pr, pc, 0)
                == 0 by {
                lemma_recv_sum_zero(oc, w, h, pr, pc);
            }
            assert(mid_step(*self, oc, img0, 0));
        }
        let mut row: u32 = 0;
        while row < hgt
            invariant
                row <= hgt,
                self.width == old(self).width,
                self.height == old(self).height,
                self.cell_size == old(self).cell_size,
                row * w <= w * h,
                mid_step(*self, oc, img0, row * w),
            decreases hgt - row,
        {
            let mut col: u32 = 0;
            while col < wdt
                invariant
                    col <= wdt,
                    row < hgt,
                    self.width == old(self).width,
                    self.height == old(self).height,
                    self.cell_size == old(self).cell_size,
                    row * w + col <= w * h,
                    mid_step(*self, oc, img0, row * w + col),
                decreases wdt - col,
            {
                proof {
                    lemma_flat_bound(w, h, row as int, col as int);
                }
                self.step_cell(row, col, Ghost(oc), Ghost(img0));
                col += 1;
            }
            proof {
                assert(row * w + wdt == (row + 1) * w && (row + 1) * w <= w * h)
                    by (nonlinear_arith)
                    requires w == wdt as int, 0 <= row as int, row as int + 1 <= h, h == hgt as int;
            }
            row += 1;
        }
        proof {
            assert(hgt * w == w * h) by (nonlinear_arith)
                requires h == hgt as int;
        }
        let len = self.cells.len();
        let ghost alt_fin: Seq<Cell> = self.alt_buf@;
        let ghost img_fin: Seq<u8> = self.img_buf@;
        let ghost ul_fin: Seq<u32> = self.update_list@;
        let mut k: usize = 0;
        while k < len
            invariant
                k <= len,
                len == oc.len(),
                self.width == old(self).width,
                self.height == old(self).height,
                self.cell_size == old(self).cell_size,
                self.wf(),
                self.cells@.len() == oc.len(),
                self.alt_buf@ == alt_fin,
                self.img_buf@ == img_fin,
                self.update_list@ == ul_fin,
                cells_wf(alt_fin),
                forall|q: int| 0 <= q < k ==> #[trigger] self.cells@[q] == alt_fin[q],
                forall|q: int| k <= q < len ==> #[trigger] self.cells@[q] == oc[q],
            decreases len - k,
        {
            let cl = self.alt_buf[k];
            self.cells.set(k, cl);
            k += 1;
        }
        proof {
            assert(self.cells@ =~= alt_fin);
            assert forall|r: int, c: int|
                0 <= r < h && 0 <= c < w implies #[trigger] alive_at(self.cells@, w, r, c)
                == next_state(alive_at(oc, w, r, c), nbr_count(oc, w, h, r, c)) by {
                lemma_flat_bound(w, h, r, c);
                assert(cell_at(alt_fin, w, r, c).spec_alive() == next_state(
                    alive_at(oc, w, r, c), nbr_count(oc, w, h, r, c)));
            }
            assert forall|r: int, c: int|
                0 <= r < h && 0 <= c < w implies (#[trigger] cell_at(
                self.cells@, w, r, c)).spec_count() == nbr_count(self.cells@, w, h, r, c) by {
                lemma_flat_bound(w, h, r, c);
                lemma_counts_restored(oc, self.cells@, w, h, r, c);
                assert(cell_at(oc, w, r, c).spec_count() == nbr_count(oc, w, h, r, c));
                assert(cell_at(alt_fin, w, r, c).spec_count() == cell_at(
                    oc, w, r, c).spec_count() + recv_sum(oc, w, h, r, c, w * h));
            }
            assert forall|r: int, c: int|
                0 <= r < h && 0 <= c < w && cell_changes(oc, r * w + c)
                    implies #[trigger] block_is(self.img_buf@, w, cs, r, c, next_state(
                alive_at(oc, w, r, c), nbr_count(oc, w, h, r, c))) by {
                lemma_flat_bound(w, h, r, c);
                assert(block_is(img_fin, w, cs, r, c, next_state(
                    alive_at(oc, w, r, c), nbr_count(oc, w, h, r, c))));
            }
            assert forall|r: int, c: int|
                0 <= r < h && 0 <= c < w && !cell_changes(oc, r * w + c)
                    implies #[trigger] block_eq(img0, self.img_buf@, w, cs, r, c) by {
                lemma_flat_bound(w, h, r, c);
                assert(block_eq(img0, img_fin, w, cs, r, c));
            }
            if old(self).img_ok() {
                assert forall|r: int, c: int|
                    0 <= r < h && 0 <= c < w implies #[trigger] block_is(
                    self.img_buf@, w, cs, r, c, alive_at(self.cells@, w, r, c)) by {
                    lemma_flat_bound(w, h, r, c);
                    if cell_changes(oc, r * w + c) {
                        assert(block_is(self.img_buf@, w, cs, r, c, next_state(
                            alive_at(oc, w, r, c), nbr_count(oc, w, h, r, c))));
                    } else {
                        assert(block_is(img0, w, cs, r, c, alive_at(oc, w, r, c)));
                        assert(block_eq(img0, self.img_buf@, w, cs, r, c));
                        lemma_block_is_eq(img0, self.img_buf@, w, cs, r, c, alive_at(oc, w, r, c));
                        assert(cell_at(oc, w, r, c).spec_count() == nbr_count(oc, w, h, r, c));
                        assert(alive_at(self.cells@, w, r, c) == alive_at(oc, w, r, c));
                    }
                }
            }
        }
    }


    /// Paints the four RGBA bytes of block pixel (i, j) of cell (row, col).
    fn put_px(&mut self, row: u32, col: u32, i: u32, j: u32, is_alive: bool)
        requires
            old(self).wf(),
            row < old(self).height,
            col < old(self).width,
            i < old(self).cell_size,
            j < old(self).cell_size,
        ensures
            final(self).wf(),
            final(self).width == old(self).width,
            final(self).height == old(self).height,
            final(self).cell_size == old(self).cell_size,
            final(self).cells@ == old(self).cells@,
            final(self).alt_buf@ == old(self).alt_buf@,
            final(self).update_list@ == old(self).update_list@,
            final(self).img_buf@.len() == old(self).img_buf@.len(),
            forall|p: int|
                0 <= p < old(self).img_buf@.len() && !(pix(
                    old(self).width as int,
                    old(self).cell_size as int,
                    row as int,
                    col as int,
                    i as int,
                    j as int,
                ) <= p < pix(
                    old(self).width as int,
                    old(self).cell_size as int,
                    row as int,
                    col as int,
                    i as int,
                    j as int,
                ) + 4) ==> final(self).img_buf@[p] == #[trigger] old(self).img_buf@[p],
            forall|k: int|
                0 <= k < 4 ==> #[trigger] pix_at(
                    final(self).img_buf@,
                    old(self).width as int,
                    old(self).cell_size as int,
                    row as int,
                    col as int,
                    i as int,
                    j as int,
                    k,
                ) == color_byte(is_alive, k),
    {
        proof {
            lemma_pix_bound(
                self.width as int,
                self.height as int,
                self.cell_size as int,
                row as int,
                col as int,
                i as int,
                j as int,
            );
        }
        let w = self.width;
        let cs = self.cell_size;
        let idx: u32 = 4 * (row * w * cs * cs + i * w * cs + col * cs + j);
        let base = idx as usize;
        if is_alive {
            self.img_buf.set(base, 0x00);
            self.img_buf.set(base + 1, 0x00);
            self.img_buf.set(base + 2, 0x00);
        } else {
            self.img_buf.set(base, 0xff);
            self.img_buf.set(base + 1, 0xff);
            self.img_buf.set(base + 2, 0xff);
        }
        self.img_buf.set(base + 3, 0xff);
    }

    /// Overwrites the `cell_size` by `cell_size` pixel block of cell
    /// (row, col) with the color for `is_alive`: black when alive, white when
    /// dead. Does not consult the cells themselves.
    #[verifier::loop_isolation(false)]
    pub fn draw_cell(&mut self, row: u32, col: u32, is_alive: bool)
        requires
            old(self).wf(),
            row < old(self).height,
            col < old(self).width,
        ensures
            final(self).wf(),
            final(self).width == old(self).width,
            final(self).height == old(self).height,
            final(self).cell_size == old(self).cell_size,
            final(self).cells@ == old(self).cells@,
            final(self).alt_buf@ == old(self).alt_buf@,
            final(self).update_list@ == old(self).update_list@,
            final(self).img_buf@.len() == old(self).img_buf@.len(),
            block_is(
                final(self).img_buf@,
                old(self).width as int,
                old(self).cell_size as int,
                row as int,
                col as int,
                is_alive,
            ),
            forall|r: int, c: int|
                0 <= r < old(self).height && 0 <= c < old(self).width && !(r == row && c == col)
                    ==> #[trigger] block_eq(
                    old(self).img_buf@,
                    final(self).img_buf@,
                    old(self).width as int,
                    old(self).cell_size as int,
                    r,
                    c,
                ),
    {
        let ghost w: int = self.width as int;
        let ghost h: int = self.height as int;
        let ghost cs: int = self.cell_size as int;
        let ghost img0 = self.img_buf@;
        let csz = self.cell_size;
        let mut i: u32 = 0;
        while i < csz
            invariant
                i <= csz,
                self.wf(),
                self.width == old(self).width,
                self.height == old(self).height,
                self.cell_size == old(self).cell_size,
                self.cells@ == old(self).cells@,
                self.alt_buf@ == old(self).alt_buf@,
                self.update_list@ == old(self).update_list@,
                self.img_buf@.len() == img0.len(),
                forall|r: int, c: int|
                    0 <= r < h && 0 <= c < w && !(r == row && c == col) ==> #[trigger] block_eq(
                        img0, self.img_buf@, w, cs, r, c),
                forall|i2: int, j2: int, k: int|
                    0 <= i2 < i && 0 <= j2 < cs && 0 <= k < 4 ==> #[trigger] pix_at(
                        self.img_buf@, w, cs, row as int, col as int, i2, j2, k)
                        == color_byte(is_alive, k),
            decreases csz - i,
        {
            let mut j: u32 = 0;
            while j < csz
                invariant
                    j <= csz,
                    i < csz,
                    self.wf(),
                    self.width == old(self).width,
                    self.height == old(self).height,
                    self.cell_size == old(self).cell_size,
                    self.cells@ == old(self).cells@,
                    self.alt_buf@ == old(self).alt_buf@,
                    self.update_list@ == old(self).update_list@,
                    self.img_buf@.len() == img0.len(),
                    forall|r: int, c: int|
                        0 <= r < h && 0 <= c < w && !(r == row && c == col) ==> #[trigger] block_eq(
                            img0, self.img_buf@, w, cs, r, c),
                    forall|i2: int, j2: int, k: int|
                        0 <= i2 < i && 0 <= j2 < cs && 0 <= k < 4 ==> #[trigger] pix_at(
                            self.img_buf@, w, cs, row as int, col as int, i2, j2, k)
                            == color_byte(is_alive, k),
                    forall|j2: int, k: int|
                        0 <= j2 < j && 0 <= k < 4 ==> #[trigger] pix_at(
                            self.img_buf@, w, cs, row as int, col as int, i as int, j2, k)
                            == color_byte(is_alive, k),
                decreases csz - j,
            {
                let ghost prev = self.img_buf@;
                self.put_px(row, col, i, j, is_alive);
                proof {
                    lemma_pixel_write(
                        prev, self.img_buf@, w, h, cs, row as int, col as int, i as int, j as int,
                    );
                    assert forall|r: int, c: int|
                        0 <= r < h && 0 <= c < w && !(r == row && c == col)
                            implies #[trigger] block_eq(img0, self.img_buf@, w, cs, r, c) by {
                        lemma_block_eq_trans(img0, prev, self.img_buf@, w, cs, r, c);
                    }
                }
                j += 1;
            }
            i += 1;
        }
    }

    /// Redraws every cell's block from its current life state.
    #[verifier::loop_isolation(false)]
    pub fn draw_all(&mut self)
        requires
            old(self).wf(),
        ensures
            final(self).wf(),
            final(self).width == old(self).width,
            final(self).height == old(self).height,
            final(self).cell_size == old(self).cell_size,
            final(self).cells@ == old(self).cells@,
            final(self).alt_buf@ == old(self).alt_buf@,
            final(self).update_list@ == old(self).update_list@,
            final(self).img_buf@.len() == old(self).img_buf@.len(),
            final(self).img_ok(),
    {
        let ghost w: int = self.width as int;
        let ghost h: int = self.height as int;
        let ghost cs: int = self.cell_size as int;
        let hgt = self.height;
        let wdt = self.width;
        let mut row: u32 = 0;
        while row < hgt
            invariant
                row <= hgt,
                self.wf(),
                self.width == old(self).width,
                self.height == old(self).height,
                self.cell_size == old(self).cell_size,
                self.cells@ == old(self).cells@,
                self.alt_buf@ == old(self).alt_buf@,
                self.update_list@ == old(self).update_list@,
                self.img_buf@.len() == old(self).img_buf@.len(),
                forall|r: int, c: int|
                    0 <= r < row && 0 <= c < w ==> #[trigger] block_is(
                        self.img_buf@, w, cs, r, c, alive_at(self.cells@, w, r, c)),
            decreases hgt - row,
        {
            let mut col: u32 = 0;
            while col < wdt
                invariant
                    col <= wdt,
                    row < hgt,
                    self.wf(),
                    self.width == old(self).width,
                    self.height == old(self).height,
                    self.cell_size == old(self).cell_size,
                    self.cells@ == old(self).cells@,
                    self.alt_buf@ == old(self).alt_buf@,
                    self.update_list@ == old(self).update_list@,
                    self.img_buf@.len() == old(self).img_buf@.len(),
                    forall|r: int, c: int|
                        0 <= r < row && 0 <= c < w ==> #[trigger] block_is(
                            self.img_buf@, w, cs, r, c, alive_at(self.cells@, w, r, c)),
                    forall|c: int|
                        0 <= c < col ==> #[trigger] block_is(
                            self.img_buf@, w, cs, row as int, c,
                            alive_at(self.cells@, w, row as int, c)),
                decreases wdt - col,
            {
                let alive = self.get_cell(row, col).is_alive();
                let ghost prev = self.img_buf@;
                self.draw_cell(row, col, alive);
                proof {
                    assert forall|r: int, c: int|
                        0 <= r < row && 0 <= c < w implies #[trigger] block_is(
                        self.img_buf@, w, cs, r, c, alive_at(self.cells@, w, r, c)) by {
                        lemma_block_is_eq(
                            prev, self.img_buf@, w, cs, r, c, alive_at(self.cells@, w, r, c),
                        );
                    }
                    assert forall|c: int|
                        0 <= c < col implies #[trigger] block_is(
                        self.img_buf@, w, cs, row as int, c,
                        alive_at(self.cells@, w, row as int, c)) by {
                        lemma_block_is_eq(
                            prev, self.img_buf@, w, cs, row as int, c,
                            alive_at(self.cells@, w, row as int, c),
                        );
                    }
                }
                col += 1;
            }
            row += 1;
        }
    }

    /// Borrowed view of the packed cells, valid until the next mutating call.
    pub fn cells(&self) -> (r: &[Cell])
        ensures
            r@ == self.cells@,
    {
        self.cells.as_slice()
    }

    /// Number of entries in the current update list.
    pub fn n_updated(&self) -> (n: u32)
        requires
            self.wf(),
        ensures
            n == self.update_list@.len(),
    {
        proof {
            lemma_area_bound(self.width as int, self.height as int, self.cell_size as int);
        }
        self.update_list.len() as u32
    }

    /// Borrowed view of the update list, valid until the next mutating call.
    pub fn updated_list(&self) -> (r: &[u32])
        ensures
            r@ == self.update_list@,
    {
        self.update_list.as_slice()
    }

    /// Borrowed view of the RGBA pixel buffer, valid until the next mutating
    /// call.
    pub fn img_buf(&self) -> (r: &[u8])
        ensures
            r@ == self.img_buf@,
    {
        self.img_buf.as_slice()
    }
}

} // verus!
