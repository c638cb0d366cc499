//! Global properties of the automaton: the update list is exact, identical
//! grids evolve identically, and wraparound reaches all eight neighbors.

use vstd::prelude::*;
use crate::cell::Cell;
use crate::grid::Grid;
use crate::grid::{alive_at, cell_at, nbr_count, next_state, cell_changes, changed_list};
use crate::grid::{block_eq, block_is, color_byte, pix, pix_at, dec_wrap, inc_wrap};
use crate::grid::{new_post, step_post};
use crate::grid::{lemma_flat_bound, lemma_flat_surjective, lemma_nbr_count_congruent,
    lemma_pix_decompose};

verus! {

/// The list of changed indices below `upto` is strictly increasing, lists
/// only indices of cells that change, and lists every one of them.
proof fn lemma_changed_list_props(s: Seq<Cell>, upto: int)
    requires
        upto <= u32::MAX,
    ensures
        changed_list(s, upto).len() <= (if 0 <= upto { upto } else { 0 }),
        forall|a: int|
            0 <= a < changed_list(s, upto).len() ==> 0 <= (#[trigger] changed_list(s, upto)[a])
                < upto && cell_changes(s, changed_list(s, upto)[a] as int),
        forall|a: int, b: int|
            0 <= a < b < changed_list(s, upto).len() ==> changed_list(s, upto)[a] < changed_list(
                s, upto)[b],
        forall|i: int| 0 <= i < upto && cell_changes(s, i) ==> changed_list(s, upto).contains(
            i as u32),
    decreases (if 0 <= upto { upto } else { 0 }),
{
    if upto <= 0 {
    } else {
        lemma_changed_list_props(s, upto - 1);
        let prev = changed_list(s, upto - 1);
        let l = changed_list(s, upto);
        if cell_changes(s, upto - 1) {
            assert(l == prev.push((upto - 1) as u32));
            assert forall|i: int|
                0 <= i < upto && cell_changes(s, i) implies l.contains(i as u32) by {
                if i < upto - 1 {
                    assert(prev.contains(i as u32));
                    let a = choose|a: int| 0 <= a < prev.len() && prev[a] == i as u32;
                    assert(l[a] == i as u32);
                } else {
                    assert(l[l.len() - 1] == (upto - 1) as u32);
                }
            }
        } else {
            assert forall|i: int|
                0 <= i < upto && cell_changes(s, i) implies l.contains(i as u32) by {
                assert(i != upto - 1);
                assert(prev.contains(i as u32));
            }
        }
    }
}

/// The update list of a completed step is exact: a cell's life state
/// differs from the previous generation exactly when its flat index is
/// listed; the list is strictly increasing, so no index appears twice.
pub proof fn lemma_update_list_exact(pre: Grid, post: Grid)
    requires
        pre.inv(),
        step_post(pre, post),
    ensures
        forall|a: int|
            0 <= a < post.update_list@.len() ==> 0 <= (#[trigger] post.update_list@[a])
                < pre.n() && cell_changes(pre.cells@, post.update_list@[a] as int),
        forall|a: int, b: int|
            0 <= a < b < post.update_list@.len() ==> post.update_list@[a] < post.update_list@[b],
        forall|r: int, c: int|
            0 <= r < pre.height && 0 <= c < pre.width ==> ((#[trigger] alive_at(
                post.cells@, pre.width as int, r, c)) != alive_at(pre.cells@, pre.width as int, r,
                c) <==> post.update_list@.contains((r * pre.width as int + c) as u32)),
{
    let w: int = pre.width as int;
    let h: int = pre.height as int;
    let s = pre.cells@;
    crate::grid::lemma_area_bound(w, h, pre.cell_size as int);
    lemma_changed_list_props(s, w * h);
    assert forall|r: int, c: int|
        0 <= r < h && 0 <= c < w implies ((#[trigger] alive_at(post.cells@, w, r, c)) != alive_at(
        s, w, r, c) <==> post.update_list@.contains((r * w + c) as u32)) by {
        lemma_flat_bound(w, h, r, c);
        assert(cell_at(s, w, r, c).spec_count() == nbr_count(s, w, h, r, c));
        assert(alive_at(post.cells@, w, r, c) == next_state(alive_at(s, w, r, c), nbr_count(
            s, w, h, r, c)));
        if alive_at(post.cells@, w, r, c) != alive_at(s, w, r, c) {
            assert(cell_changes(s, r * w + c));
            assert(changed_list(s, w * h).contains((r * w + c) as u32));
        }
        if post.update_list@.contains((r * w + c) as u32) {
            let a = choose|a: int|
                0 <= a < post.update_list@.len() && post.update_list@[a] == (r * w + c) as u32;
            assert(cell_changes(s, post.update_list@[a] as int));
            assert(post.update_list@[a] as int == r * w + c);
        }
    }
}

/// Two grids with identical observable state.
pub open spec fn grids_match(a: Grid, b: Grid) -> bool {
    &&& a.width == b.width
    &&& a.height == b.height
    &&& a.cell_size == b.cell_size
    &&& a.cells@ == b.cells@
    &&& a.alt_buf@ == b.alt_buf@
    &&& a.img_buf@ == b.img_buf@
    &&& a.update_list@ == b.update_list@
}

/// Determinism of construction: two grids built with the same dimensions
/// hold the same cells, scratch buffer, image and update list.
pub proof fn lemma_new_deterministic(a: Grid, b: Grid, width: u32, height: u32, cell_size: u32)
    requires
        new_post(a, width, height, cell_size),
        new_post(b, width, height, cell_size),
    ensures
        grids_match(a, b),
{
    let w: int = width as int;
    let h: int = height as int;
    let cs: int = cell_size as int;
    assert forall|q: int|
        0 <= q < a.cells@.len() implies #[trigger] a.cells@[q] == b.cells@[q] by {
        lemma_flat_surjective(w, h, q);
        let r: int = q / w;
        let c: int = q % w;
        lemma_nbr_count_congruent(a.cells@, b.cells@, w, h, r, c);
        assert(cell_at(a.cells@, w, r, c).spec_count() == nbr_count(a.cells@, w, h, r, c));
        assert(cell_at(b.cells@, w, r, c).spec_count() == nbr_count(b.cells@, w, h, r, c));
        assert(cell_at(a.cells@, w, r, c) == a.cells@[q]);
        a.cells@[q].lemma_ext(b.cells@[q]);
    }
    assert(a.cells@ =~= b.cells@);
    assert(a.alt_buf@ =~= b.alt_buf@);
    assert forall|q: int|
        0 <= q < a.update_list@.len() implies #[trigger] a.update_list@[q]
        == b.update_list@[q] by {}
    assert(a.update_list@ =~= b.update_list@);
    assert forall|p: int|
        0 <= p < a.img_buf@.len() implies #[trigger] a.img_buf@[p] == b.img_buf@[p] by {
        lemma_pix_decompose(w, h, cs, p);
        let (r, c, i, j) = choose|r: int, c: int, i: int, j: int|
            0 <= r < h && 0 <= c < w && 0 <= i < cs && 0 <= j < cs && #[trigger] pix(
                w, cs, r, c, i, j) <= p < pix(w, cs, r, c, i, j) + 4;
        let k: int = p - pix(w, cs, r, c, i, j);
        assert(block_is(a.img_buf@, w, cs, r, c, alive_at(a.cells@, w, r, c)));
        assert(block_is(b.img_buf@, w, cs, r, c, alive_at(b.cells@, w, r, c)));
        assert(pix_at(a.img_buf@, w, cs, r, c, i, j, k) == color_byte(
            alive_at(a.cells@, w, r, c), k));
        assert(pix_at(b.img_buf@, w, cs, r, c, i, j, k) == color_byte(
            alive_at(b.cells@, w, r, c), k));
        assert(alive_at(a.cells@, w, r, c) == alive_at(b.cells@, w, r, c));
    }
    assert(a.img_buf@ =~= b.img_buf@);
}

/// Determinism of the step: matching grids still match after one step each,
/// so runs from equal starting points stay equal forever.
pub proof fn lemma_step_deterministic(a0: Grid, a1: Grid, b0: Grid, b1: Grid)
    requires
        a0.inv(),
        b0.inv(),
        a1.inv(),
        b1.inv(),
        grids_match(a0, b0),
        step_post(a0, a1),
        step_post(b0, b1),
    ensures
        grids_match(a1, b1),
{
    let w: int = a0.width as int;
    let h: int = a0.height as int;
    let cs: int = a0.cell_size as int;
    assert forall|q: int|
        0 <= q < a1.cells@.len() implies (#[trigger] a1.cells@[q]).spec_alive()
        == b1.cells@[q].spec_alive() by {
        lemma_flat_surjective(w, h, q);
        let r: int = q / w;
        let c: int = q % w;
        assert(alive_at(a1.cells@, w, r, c) == next_state(alive_at(a0.cells@, w, r, c), nbr_count(
            a0.cells@, w, h, r, c)));
        assert(alive_at(b1.cells@, w, r, c) == next_state(alive_at(b0.cells@, w, r, c), nbr_count(
            b0.cells@, w, h, r, c)));
        assert(cell_at(a1.cells@, w, r, c) == a1.cells@[q]);
        assert(cell_at(b1.cells@, w, r, c) == b1.cells@[q]);
    }
    assert forall|q: int|
        0 <= q < a1.cells@.len() implies #[trigger] a1.cells@[q] == b1.cells@[q] by {
        lemma_flat_surjective(w, h, q);
        let r: int = q / w;
        let c: int = q % w;
        lemma_nbr_count_congruent(a1.cells@, b1.cells@, w, h, r, c);
        assert(cell_at(a1.cells@, w, r, c).spec_count() == nbr_count(a1.cells@, w, h, r, c));
        assert(cell_at(b1.cells@, w, r, c).spec_count() == nbr_count(b1.cells@, w, h, r, c));
        assert(cell_at(a1.cells@, w, r, c) == a1.cells@[q]);
        a1.cells@[q].lemma_ext(b1.cells@[q]);
    }
    assert(a1.cells@ =~= b1.cells@);
    assert(a1.alt_buf@ =~= b1.alt_buf@);
    assert forall|p: int|
        0 <= p < a1.img_buf@.len() implies #[trigger] a1.img_buf@[p] == b1.img_buf@[p] by {
        lemma_pix_decompose(w, h, cs, p);
        let (r, c, i, j) = choose|r: int, c: int, i: int, j: int|
            0 <= r < h && 0 <= c < w && 0 <= i < cs && 0 <= j < cs && #[trigger] pix(
                w, cs, r, c, i, j) <= p < pix(w, cs, r, c, i, j) + 4;
        let k: int = p - pix(w, cs, r, c, i, j);
        lemma_flat_bound(w, h, r, c);
        if cell_changes(a0.cells@, r * w + c) {
            assert(block_is(a1.img_buf@, w, cs, r, c, next_state(alive_at(a0.cells@, w, r, c),
                nbr_count(a0.cells@, w, h, r, c))));
            assert(block_is(b1.img_buf@, w, cs, r, c, next_state(alive_at(b0.cells@, w, r, c),
                nbr_count(b0.cells@, w, h, r, c))));
            assert(pix_at(a1.img_buf@, w, cs, r, c, i, j, k) == color_byte(next_state(
                alive_at(a0.cells@, w, r, c), nbr_count(a0.cells@, w, h, r, c)), k));
            assert(pix_at(b1.img_buf@, w, cs, r, c, i, j, k) == color_byte(next_state(
                alive_at(b0.cells@, w, r, c), nbr_count(b0.cells@, w, h, r, c)), k));
        } else {
            assert(block_eq(a0.img_buf@, a1.img_buf@, w, cs, r, c));
            assert(block_eq(b0.img_buf@, b1.img_buf@, w, cs, r, c));
            assert(pix_at(a0.img_buf@, w, cs, r, c, i, j, k) == pix_at(
                a1.img_buf@, w, cs, r, c, i, j, k));
            assert(pix_at(b0.img_buf@, w, cs, r, c, i, j, k) == pix_at(
                b1.img_buf@, w, cs, r, c, i, j, k));
        }
    }
    assert(a1.img_buf@ =~= b1.img_buf@);
}

/// Toroidal wraparound: on an n-by-n grid (n at least 3) whose only live
/// cell sits at the origin, exactly the eight cells that surround (0, 0)
/// under wraparound — (n-1, n-1), (n-1, 0), (n-1, 1), (0, n-1), (0, 1),
/// (1, n-1), (1, 0) and (1, 1) — count one live neighbor; all others count
/// none.
#[verifier::rlimit(60)]
pub proof fn lemma_toroidal_wraparound(s: Seq<Cell>, n: int, r: int, c: int)
    requires
        3 <= n,
        s.len() == n * n,
        forall|rr: int, cc: int|
            0 <= rr < n && 0 <= cc < n ==> ((#[trigger] alive_at(s, n, rr, cc)) <==> (rr == 0
                && cc == 0)),
        0 <= r < n,
        0 <= c < n,
    ensures
        nbr_count(s, n, n, r, c) == (if (r == n - 1 || r == 0 || r == 1) && (c == n - 1 || c == 0
            || c == 1) && !(r == 0 && c == 0) {
            1int
        } else {
            0int
        }),
{
    reveal(nbr_count);
    let rm: int = dec_wrap(r, n);
    let rp: int = inc_wrap(r, n);
    let cm: int = dec_wrap(c, n);
    let cp: int = inc_wrap(c, n);
    assert(alive_at(s, n, rm, cm) <==> (rm == 0 && cm == 0));
    assert(alive_at(s, n, rm, c) <==> (rm == 0 && c == 0));
    assert(alive_at(s, n, rm, cp) <==> (rm == 0 && cp == 0));
    assert(alive_at(s, n, r, cm) <==> (r == 0 && cm == 0));
    assert(alive_at(s, n, r, cp) <==> (r == 0 && cp == 0));
    assert(alive_at(s, n, rp, cm) <==> (rp == 0 && cm == 0));
    assert(alive_at(s, n, rp, c) <==> (rp == 0 && c == 0));
    assert(alive_at(s, n, rp, cp) <==> (rp == 0 && cp == 0));
}

} // verus!
