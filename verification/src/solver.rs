//! Tapa solver: constraint propagation plus backtracking search.
//!
//! Propagation rules (run to a fixpoint before every branch):
//!   1. a clue cell is always empty;
//!   2. arc consistency on every clue: keep the neighbour masks that still fit
//!      the partially filled surroundings, then assign every neighbour that is
//!      black (or white) in *all* surviving masks;
//!   3. no 2x2 block may become black: three black cells force the fourth white;
//!   4. connectivity: the cells that could still become black are split into
//!      orthogonal components; the black cells must all end up in one of them,
//!      so as soon as one component holds a black cell every other component is
//!      forced white;
//!   5. a black cell that can never reach another black cell is a contradiction.
//!
//! The set of neighbour masks that survive for a clue is kept as a 256-bit
//! bitset, so "which masks still fit" is a handful of AND instructions instead
//! of a loop over up to 32 patterns. Buffers used by the component analysis are
//! allocated once per solve instead of once per propagation.

use vstd::prelude::*;

use crate::clock::Deadline;
use crate::grid::Grid;
use crate::maskset::{member_count, MaskSet};
use crate::model::{
    agrees, bit, cell_mask, clue_masks, feasible, fits_marks, is_filled, lemma_bit_test,
    lemma_cell_mask_bits, lemma_nb_in_range, mask_alive, mask_on_board, black_nb, Clue, BLACK,
    UNKNOWN, WHITE,
};
use crate::region::{
    adjacent, connected, count_pred, is_path, lemma_connected_ends, lemma_connected_symmetric,
    lemma_connected_trans, lemma_count_pred_ext, region_size,
};
use crate::model::{is_rotation_of, mask_runs};
use crate::rules::{
    black_block, block_messages, block_text, clue_cell_text, clue_messages, connectivity_messages,
    disconnected_text, empty_messages, first_wall_from, mismatch_text, validation_messages,
    wall_count, walls,
};

verus! {

/// `s` fills every cell and meets every rule: clue cells are empty and see
/// a mask their numbers allow, no 2x2 block is all walls, and all walls are
/// orthogonally connected.
pub open spec fn is_solution(g: &Grid, s: Seq<u8>, clues: Seq<(usize, Clue)>) -> bool {
    &&& s.len() == g.size()
    &&& is_filled(s)
    &&& forall|t: int|
        0 <= t < clues.len() ==> s[(#[trigger] clues[t]).0 as int] == WHITE && feasible(
            g,
            clues[t].0 as int,
            clues[t].1@,
            cell_mask(g, s, clues[t].0 as int),
        )
    &&& forall|t: int| !#[trigger] black_block(g, s, t)
    &&& forall|a: int, b: int|
        0 <= a < s.len() && 0 <= b < s.len() && #[trigger] s[a] == BLACK && #[trigger] s[b] == BLACK
            ==> connected(g, walls(s), a, b)
}

/// At most one grid meets the rules with these clues.
pub open spec fn at_most_one(g: &Grid, clues: Seq<(usize, Clue)>) -> bool {
    forall|s1: Seq<u8>, s2: Seq<u8>|
        #[trigger] is_solution(g, s1, clues) && #[trigger] is_solution(g, s2, clues) ==> s1 == s2
}

/// The clues as plain values: cell and numbers.
pub open spec fn clue_views(clues: Seq<(usize, Clue)>) -> Seq<(usize, Seq<u8>)> {
    clues.map_values(|c: (usize, Clue)| (c.0, c.1@))
}

/// Keeping some entries of an increasing list keeps it increasing.
proof fn lemma_filter_increasing(s: Seq<u8>, p: spec_fn(u8) -> bool)
    requires
        forall|a: int, b: int| 0 <= a < b < s.len() ==> s[a] < s[b],
    ensures
        forall|a: int, b: int| 0 <= a < b < s.filter(p).len() ==> s.filter(p)[a] < s.filter(p)[b],
        forall|x: u8| s.filter(p).contains(x) <==> s.contains(x) && p(x),
    decreases s.len(),
{
    reveal(Seq::filter);
    if s.len() == 0 {
        assert(s.filter(p).len() == 0);
    } else {
        let n = s.len() - 1;
        let d = s.drop_last();
        let last = s[n];
        assert(forall|a: int, b: int| 0 <= a < b < d.len() ==> d[a] < d[b]) by {
            assert forall|a: int, b: int| 0 <= a < b < d.len() implies d[a] < d[b] by {
                assert(d[a] == s[a] && d[b] == s[b]);
            }
        }
        lemma_filter_increasing(d, p);
        let f = d.filter(p);
        let sf = s.filter(p);
        assert(sf == if p(last) { f.push(last) } else { f });
        // every entry of the kept part of `d` is below `last`
        assert forall|k: int| 0 <= k < f.len() implies f[k] < last by {
            assert(f.contains(f[k]));
            assert(d.contains(f[k]));
            let u = choose|u: int| 0 <= u < d.len() && d[u] == f[k];
            assert(s[u] == f[k]);
            assert(s[u] < s[n]);
        }
        assert forall|x: u8| sf.contains(x) <==> s.contains(x) && p(x) by {
            if sf.contains(x) {
                let k = choose|k: int| 0 <= k < sf.len() && sf[k] == x;
                if p(last) && k == f.len() {
                    assert(s[n] == x);
                    assert(s.contains(x));
                } else {
                    assert(f[k] == x);
                    assert(f.contains(x));
                    assert(d.contains(x) && p(x));
                    let u = choose|u: int| 0 <= u < d.len() && d[u] == x;
                    assert(s[u] == x);
                    assert(s.contains(x));
                }
            }
            if s.contains(x) && p(x) {
                let u = choose|u: int| 0 <= u < s.len() && s[u] == x;
                if u < n {
                    assert(d[u] == x);
                    assert(d.contains(x));
                    let k = choose|k: int| 0 <= k < f.len() && f[k] == x;
                    assert(sf[k] == x);
                } else {
                    assert(sf[f.len() as int] == x);
                }
            }
        }
        assert forall|a: int, b: int| 0 <= a < b < sf.len() implies sf[a] < sf[b] by {
            if p(last) && b == f.len() {
                assert(sf[a] == f[a]);
            } else {
                assert(sf[a] == f[a] && sf[b] == f[b]);
            }
        }
    }
}

/// Two increasing lists with the same entries are the same list.
proof fn lemma_increasing_unique(a: Seq<u8>, b: Seq<u8>)
    requires
        forall|i: int, j: int| 0 <= i < j < a.len() ==> a[i] < a[j],
        forall|i: int, j: int| 0 <= i < j < b.len() ==> b[i] < b[j],
        forall|x: u8| a.contains(x) <==> b.contains(x),
    ensures
        a == b,
    decreases a.len() + b.len(),
{
    if a.len() > 0 && b.len() > 0 {
        let na = a.len() - 1;
        let nb = b.len() - 1;
        let x = a[na];
        let y = b[nb];
        assert(a.contains(x) && b.contains(y));
        let i = choose|i: int| 0 <= i < b.len() && b[i] == x;
        let j = choose|j: int| 0 <= j < a.len() && a[j] == y;
        if j < na {
            assert(a[j] < a[na]);
        }
        if i < nb {
            assert(b[i] < b[nb]);
        }
        assert(x == y);
        let da = a.drop_last();
        let db = b.drop_last();
        assert forall|z: u8| da.contains(z) <==> db.contains(z) by {
            if da.contains(z) {
                let u = choose|u: int| 0 <= u < da.len() && da[u] == z;
                assert(a[u] == z && a[u] < a[na]);
                assert(a.contains(z));
                assert(b.contains(z));
                let v = choose|v: int| 0 <= v < b.len() && b[v] == z;
                assert(v != nb);
                assert(db[v] == z);
            }
            if db.contains(z) {
                let u = choose|u: int| 0 <= u < db.len() && db[u] == z;
                assert(b[u] == z && b[u] < b[nb]);
                assert(b.contains(z));
                assert(a.contains(z));
                let v = choose|v: int| 0 <= v < a.len() && a[v] == z;
                assert(v != na);
                assert(da[v] == z);
            }
        }
        assert forall|p: int, q: int| 0 <= p < q < da.len() implies da[p] < da[q] by {
            assert(da[p] == a[p] && da[q] == a[q]);
        }
        assert forall|p: int, q: int| 0 <= p < q < db.len() implies db[p] < db[q] by {
            assert(db[p] == b[p] && db[q] == b[q]);
        }
        lemma_increasing_unique(da, db);
        assert(a =~= da.push(x));
        assert(b =~= db.push(y));
    } else if a.len() > 0 {
        assert(a.contains(a[0]));
        assert(b.contains(a[0]));
    } else if b.len() > 0 {
        assert(b.contains(b[0]));
        assert(a.contains(b[0]));
    } else {
        assert(a =~= b);
    }
}

/// The surviving masks of a clue, listed in increasing order, are its
/// feasible masks, in their order, that fit the marks: the fast filter on
/// mask sets and the plain filter agree.
pub proof fn law_alive_list_is_the_fitting_feasible_list(
    g: &Grid,
    marks: Seq<u8>,
    i: int,
    clue: Seq<u8>,
    alive: Seq<u8>,
    feasible_list: Seq<u8>,
)
    requires
        forall|a: int, b: int| 0 <= a < b < alive.len() ==> alive[a] < alive[b],
        forall|m: u8| alive.contains(m) <==> mask_alive(g, marks, i, clue, m),
        forall|a: int, b: int| 0 <= a < b < feasible_list.len() ==> feasible_list[a] < feasible_list[b],
        forall|m: u8| feasible_list.contains(m) <==> feasible(g, i, clue, m),
    ensures
        alive == feasible_list.filter(|m: u8| fits_marks(g, i, m, marks)),
{
    let p = |m: u8| fits_marks(g, i, m, marks);
    lemma_filter_increasing(feasible_list, p);
    assert forall|m: u8| alive.contains(m) <==> feasible_list.filter(p).contains(m) by {
        assert(mask_alive(g, marks, i, clue, m) == (feasible(g, i, clue, m) && fits_marks(g, i, m, marks)));
        assert(p(m) == fits_marks(g, i, m, marks));
        assert(feasible_list.contains(m) == feasible(g, i, clue, m));
        assert(alive.contains(m) == mask_alive(g, marks, i, clue, m));
        assert(feasible_list.filter(p).contains(m) == (feasible_list.contains(m) && p(m)));
    }
    lemma_increasing_unique(alive, feasible_list.filter(p));
}

/// Reachability depends on the board only through its size.
pub proof fn lemma_connected_grid(g1: &Grid, g2: &Grid, keep: Seq<bool>, a: int, b: int)
    requires
        g1.w == g2.w,
        g1.h == g2.h,
        connected(g1, keep, a, b),
    ensures
        connected(g2, keep, a, b),
{
    let p = choose|p: Seq<int>| is_path(g1, keep, p) && p[0] == a && p.last() == b;
    assert forall|i: int| 0 <= i < p.len() - 1 implies adjacent(g2, #[trigger] p[i], p[i + 1]) by {
        assert(adjacent(g1, p[i], p[i + 1]));
    }
    assert(is_path(g2, keep, p));
}

/// Whether a grid is a solution depends on the board only through its size.
pub proof fn lemma_solution_grid(g1: &Grid, g2: &Grid, s: Seq<u8>, clues: Seq<(usize, Clue)>)
    requires
        g1.w == g2.w,
        g1.h == g2.h,
    ensures
        is_solution(g1, s, clues) == is_solution(g2, s, clues),
{
    lemma_solution_grid_dir(g1, g2, s, clues);
    lemma_solution_grid_dir(g2, g1, s, clues);
}

proof fn lemma_solution_grid_dir(g1: &Grid, g2: &Grid, s: Seq<u8>, clues: Seq<(usize, Clue)>)
    requires
        g1.w == g2.w,
        g1.h == g2.h,
    ensures
        is_solution(g1, s, clues) ==> is_solution(g2, s, clues),
{
    if is_solution(g1, s, clues) {
        assert forall|t: int| 0 <= t < clues.len() implies s[(#[trigger] clues[t]).0 as int] == WHITE
            && feasible(g2, clues[t].0 as int, clues[t].1@, cell_mask(g2, s, clues[t].0 as int)) by {
            let i = clues[t].0 as int;
            lemma_mask_upto_grid(g1, g2, s, i, 8);
            let m = cell_mask(g1, s, i);
            assert(feasible(g1, i, clues[t].1@, m));
            assert forall|k: int| 0 <= k < 8 implies g2.nb(i, k) is Some || !#[trigger] bit(m, k as u8) by {
                assert(g1.nb(i, k) == g2.nb(i, k));
            }
        }
        assert forall|t: int| !#[trigger] black_block(g2, s, t) by {
            assert(!black_block(g1, s, t));
        }
        assert forall|a: int, b: int|
            0 <= a < s.len() && 0 <= b < s.len() && #[trigger] s[a] == BLACK && #[trigger] s[b] == BLACK
                implies connected(g2, walls(s), a, b) by {
            lemma_connected_grid(g1, g2, walls(s), a, b);
        }
    }
}

/// A cell's neighbour mask depends on the board only through its size.
pub proof fn lemma_mask_upto_grid(g1: &Grid, g2: &Grid, s: Seq<u8>, i: int, k: int)
    requires
        g1.w == g2.w,
        g1.h == g2.h,
    ensures
        crate::model::mask_upto(g1, s, i, k) == crate::model::mask_upto(g2, s, i, k),
    decreases k,
{
    if k > 0 {
        lemma_mask_upto_grid(g1, g2, s, i, k - 1);
    }
}

/// Whether a grid is a solution does not depend on the order of the clues.
pub proof fn lemma_solution_multiset(g: &Grid, s: Seq<u8>, a: Seq<(usize, Clue)>, b: Seq<(usize, Clue)>)
    requires
        a.to_multiset() == b.to_multiset(),
    ensures
        is_solution(g, s, a) == is_solution(g, s, b),
{
    if is_solution(g, s, a) {
        lemma_solution_sub(g, s, a, b);
    }
    if is_solution(g, s, b) {
        lemma_solution_sub(g, s, b, a);
    }
}

proof fn lemma_solution_sub(g: &Grid, s: Seq<u8>, a: Seq<(usize, Clue)>, b: Seq<(usize, Clue)>)
    requires
        a.to_multiset() == b.to_multiset(),
        is_solution(g, s, a),
    ensures
        is_solution(g, s, b),
{
    assert forall|t: int| 0 <= t < b.len() implies s[(#[trigger] b[t]).0 as int] == WHITE && feasible(
        g,
        b[t].0 as int,
        b[t].1@,
        cell_mask(g, s, b[t].0 as int),
    ) by {
        let x = b[t];
        assert(b.contains(x));
        vstd::seq_lib::to_multiset_contains(b, x);
        vstd::seq_lib::to_multiset_contains(a, x);
        let u = choose|u: int| 0 <= u < a.len() && a[u] == x;
        assert(a[u] == x);
    }
}

/// Fewer clues never rule out a solution.
pub proof fn lemma_solution_subset(g: &Grid, s: Seq<u8>, a: Seq<(usize, Clue)>, b: Seq<(usize, Clue)>)
    requires
        is_solution(g, s, a),
        forall|t: int| 0 <= t < b.len() ==> clue_views(a).contains(((#[trigger] b[t]).0, b[t].1@)),
    ensures
        is_solution(g, s, b),
{
    assert forall|t: int| 0 <= t < b.len() implies s[(#[trigger] b[t]).0 as int] == WHITE && feasible(
        g,
        b[t].0 as int,
        b[t].1@,
        cell_mask(g, s, b[t].0 as int),
    ) by {
        assert(clue_views(a).contains((b[t].0, b[t].1@)));
        let u = choose|u: int| 0 <= u < clue_views(a).len() && clue_views(a)[u] == (b[t].0, b[t].1@);
        assert(clue_views(a)[u] == (a[u].0, a[u].1@));
        assert(s[a[u].0 as int] == WHITE);
    }
}

/// Counting a predicate that implies another counts no more, and strictly
/// less when the other holds somewhere the first does not.
proof fn lemma_count_pred_le(n: int, f: spec_fn(int) -> bool, f2: spec_fn(int) -> bool)
    requires
        forall|j: int| 0 <= j < n && #[trigger] f(j) ==> f2(j),
    ensures
        count_pred(n, f) <= count_pred(n, f2),
        (exists|j: int| 0 <= j < n && #[trigger] f2(j) && !f(j)) ==> count_pred(n, f) < count_pred(n, f2),
    decreases n,
{
    if n > 0 {
        lemma_count_pred_le(n - 1, f, f2);
        if exists|j: int| 0 <= j < n && #[trigger] f2(j) && !f(j) {
            let j = choose|j: int| 0 <= j < n && #[trigger] f2(j) && !f(j);
            if j < n - 1 {
                assert(exists|j2: int| 0 <= j2 < n - 1 && #[trigger] f2(j2) && !f(j2));
            }
        }
    }
}

proof fn lemma_empty_messages(g: &Grid, cells: Seq<u8>, k: int)
    requires
        0 <= k <= cells.len(),
    ensures
        (empty_messages(g, cells, k).len() == 0) == (forall|i: int| 0 <= i < k ==> #[trigger] cells[i] != UNKNOWN),
    decreases k,
{
    if k > 0 {
        lemma_empty_messages(g, cells, k - 1);
    }
}

proof fn lemma_block_messages(g: &Grid, cells: Seq<u8>, k: int)
    requires
        k >= 0,
    ensures
        (block_messages(g, cells, k).len() == 0) == (forall|t: int| 0 <= t < k ==> !#[trigger] black_block(g, cells, t)),
    decreases k,
{
    if k > 0 {
        lemma_block_messages(g, cells, k - 1);
    }
}

proof fn lemma_clue_messages(g: &Grid, cells: Seq<u8>, clues: Seq<(usize, Clue)>, t: int)
    requires
        0 <= t <= clues.len(),
    ensures
        (clue_messages(g, cells, clues, t).len() == 0) == (forall|u: int|
            0 <= u < t ==> cells[(#[trigger] clues[u]).0 as int] == WHITE && is_rotation_of(
                mask_runs(cell_mask(g, cells, clues[u].0 as int)),
                clues[u].1@,
            )),
    decreases t,
{
    if t > 0 {
        lemma_clue_messages(g, cells, clues, t - 1);
    }
}

proof fn lemma_first_wall(cells: Seq<u8>, k: int)
    requires
        0 <= k <= cells.len(),
    ensures
        k <= first_wall_from(cells, k) <= cells.len(),
        first_wall_from(cells, k) < cells.len() ==> cells[first_wall_from(cells, k)] == BLACK,
        forall|i: int| k <= i < first_wall_from(cells, k) ==> #[trigger] cells[i] != BLACK,
    decreases cells.len() - k,
{
    if k < cells.len() && cells[k] != BLACK {
        lemma_first_wall(cells, k + 1);
    }
}

/// The connectivity check reports nothing exactly when all walls reach each
/// other.
proof fn lemma_connectivity_messages(g: &Grid, cells: Seq<u8>)
    requires
        g.wf(),
        cells.len() == g.size(),
    ensures
        (connectivity_messages(g, cells).len() == 0) == (forall|a: int, b: int|
            0 <= a < cells.len() && 0 <= b < cells.len() && #[trigger] cells[a] == BLACK
                && #[trigger] cells[b] == BLACK ==> connected(g, walls(cells), a, b)),
{
    let n = cells.len() as int;
    let keep = walls(cells);
    lemma_first_wall(cells, 0);
    let first = first_wall_from(cells, 0);
    if first < n {
        let f = |j: int| connected(g, keep, first, j);
        let f2 = |i: int| cells[i] == BLACK;
        assert forall|j: int| 0 <= j < n && #[trigger] f(j) implies f2(j) by {
            lemma_connected_ends(g, keep, first, j);
        }
        lemma_count_pred_le(n, f, f2);
        if region_size(g, keep, first) == wall_count(cells) {
            assert forall|a: int, b: int|
                0 <= a < n && 0 <= b < n && #[trigger] cells[a] == BLACK && #[trigger] cells[b] == BLACK
                    implies connected(g, keep, a, b) by {
                assert(f2(a) && f2(b));
                assert(f(a)) by {
                    if !f(a) {
                        assert(exists|j: int| 0 <= j < n && #[trigger] f2(j) && !f(j));
                    }
                }
                assert(f(b)) by {
                    if !f(b) {
                        assert(exists|j: int| 0 <= j < n && #[trigger] f2(j) && !f(j));
                    }
                }
                lemma_connected_symmetric(g, keep, first, a);
                lemma_connected_trans(g, keep, a, first, b);
            }
        }
        if forall|a: int, b: int|
            0 <= a < n && 0 <= b < n && #[trigger] cells[a] == BLACK && #[trigger] cells[b] == BLACK
                ==> connected(g, keep, a, b) {
            assert forall|j: int| 0 <= j < n implies #[trigger] f(j) == f2(j) by {
                if f2(j) {
                    assert(cells[first] == BLACK && cells[j] == BLACK);
                } else if f(j) {
                    lemma_connected_ends(g, keep, first, j);
                }
            }
            lemma_count_pred_ext(n, f, f2);
        }
    }
}

/// The rules check reports nothing exactly for a solution: every cell is
/// decided, clue cells are empty and see their numbers, no 2x2 block is
/// black and the walls are connected.
pub proof fn lemma_validate_iff_solution(g: &Grid, cells: Seq<u8>, clues: Seq<(usize, Clue)>)
    requires
        g.wf(),
        cells.len() == g.size(),
        forall|i: int|
            0 <= i < cells.len() ==> #[trigger] cells[i] == UNKNOWN || cells[i] == BLACK || cells[i]
                == WHITE,
        forall|t: int| 0 <= t < clues.len() ==> (#[trigger] clues[t]).0 < g.size(),
    ensures
        (validation_messages(g, cells, clues).len() == 0) == is_solution(g, cells, clues),
{
    let n = cells.len() as int;
    lemma_empty_messages(g, cells, n);
    lemma_clue_messages(g, cells, clues, clues.len() as int);
    lemma_block_messages(g, cells, n);
    lemma_connectivity_messages(g, cells);
    assert forall|t: int| #[trigger] black_block(g, cells, t) implies 0 <= t < n by {
    }
    assert forall|t: int| 0 <= t < clues.len() implies #[trigger] mask_on_board(
        g,
        clues[t].0 as int,
        cell_mask(g, cells, clues[t].0 as int),
    ) by {
        lemma_cell_mask_bits(g, cells, clues[t].0 as int);
    }
    if validation_messages(g, cells, clues).len() == 0 {
        assert(empty_messages(g, cells, n).len() == 0);
        assert forall|t: int| 0 <= t < clues.len() implies cells[(#[trigger] clues[t]).0 as int] == WHITE
            && feasible(g, clues[t].0 as int, clues[t].1@, cell_mask(g, cells, clues[t].0 as int)) by {
        }
    }
    if is_solution(g, cells, clues) {
        assert(empty_messages(g, cells, n).len() == 0);
    }
}

/// Every clue message begins with the word `clue`.
proof fn lemma_clue_messages_start(g: &Grid, cells: Seq<u8>, clues: Seq<(usize, Clue)>, t: int)
    ensures
        forall|k: int|
            0 <= k < clue_messages(g, cells, clues, t).len() ==> (#[trigger] clue_messages(
                g,
                cells,
                clues,
                t,
            )[k]).len() > 0 && clue_messages(g, cells, clues, t)[k][0] == 'c',
    decreases t,
{
    if t > 0 {
        lemma_clue_messages_start(g, cells, clues, t - 1);
        reveal_strlit("clue cell ");
        reveal_strlit("clue at ");
        let i = clues[t - 1].0 as int;
        let w = g.w as int;
        let clue = clues[t - 1].1@;
        let actual = mask_runs(cell_mask(g, cells, i));
        let ct = clue_cell_text(w, i);
        let mt = mismatch_text(w, i, clue, actual);
        assert(ct.len() > 0 && ct[0] == 'c');
        assert(mt.len() > 0 && mt[0] == 'c');
        let prev = clue_messages(g, cells, clues, t - 1);
        let with_white = if cells[i] != WHITE {
            prev.push(ct)
        } else {
            prev
        };
        let r = clue_messages(g, cells, clues, t);
        assert forall|k: int| 0 <= k < r.len() implies (#[trigger] r[k]).len() > 0 && r[k][0] == 'c' by {
            if k < with_white.len() {
                assert(r[k] == with_white[k]);
                if k < prev.len() {
                    assert(with_white[k] == prev[k]);
                } else {
                    assert(with_white[k] == ct);
                }
            } else {
                assert(r[k] == mt);
            }
        }
    }
}

/// The clue messages name every clue entry among the first `t` whose cell is
/// not empty, and every one whose walls around it do not match it.
proof fn lemma_clue_messages_name(g: &Grid, cells: Seq<u8>, clues: Seq<(usize, Clue)>, t: int, u: int)
    requires
        0 <= u < t <= clues.len(),
    ensures
        ({
            let i = clues[u].0 as int;
            let clue = clues[u].1@;
            let actual = mask_runs(cell_mask(g, cells, i));
            let msgs = clue_messages(g, cells, clues, t);
            &&& cells[i] != WHITE ==> msgs.contains(clue_cell_text(g.w as int, i))
            &&& !is_rotation_of(actual, clue) ==> msgs.contains(
                mismatch_text(g.w as int, i, clue, actual),
            )
        }),
    decreases t,
{
    let i = clues[u].0 as int;
    let clue = clues[u].1@;
    let w = g.w as int;
    let actual = mask_runs(cell_mask(g, cells, i));
    let prev = clue_messages(g, cells, clues, t - 1);
    let ti = clues[t - 1].0 as int;
    let tclue = clues[t - 1].1@;
    let tactual = mask_runs(cell_mask(g, cells, ti));
    let with_white = if cells[ti] != WHITE {
        prev.push(clue_cell_text(w, ti))
    } else {
        prev
    };
    let msgs = clue_messages(g, cells, clues, t);
    assert(msgs == if !is_rotation_of(tactual, tclue) {
        with_white.push(mismatch_text(w, ti, tclue, tactual))
    } else {
        with_white
    });
    assert forall|k: int| 0 <= k < prev.len() implies msgs[k] == #[trigger] prev[k] by {
        assert(with_white[k] == prev[k]);
    }
    if u < t - 1 {
        lemma_clue_messages_name(g, cells, clues, t - 1, u);
        if cells[i] != WHITE {
            let k = choose|k: int| 0 <= k < prev.len() && prev[k] == clue_cell_text(w, i);
            assert(msgs[k] == prev[k]);
        }
        if !is_rotation_of(actual, clue) {
            let k = choose|k: int|
                0 <= k < prev.len() && prev[k] == mismatch_text(w, i, clue, actual);
            assert(msgs[k] == prev[k]);
        }
    } else {
        if cells[i] != WHITE {
            assert(with_white[prev.len() as int] == clue_cell_text(w, i));
            assert(msgs[prev.len() as int] == with_white[prev.len() as int]);
        }
        if !is_rotation_of(actual, clue) {
            assert(msgs[with_white.len() as int] == mismatch_text(w, i, clue, actual));
        }
    }
}

/// Every block message begins with `2x2`.
proof fn lemma_block_messages_start(g: &Grid, cells: Seq<u8>, k: int)
    ensures
        forall|m: int|
            0 <= m < block_messages(g, cells, k).len() ==> (#[trigger] block_messages(g, cells, k)[m]).len()
                > 0 && block_messages(g, cells, k)[m][0] == '2',
    decreases k,
{
    if k > 0 {
        lemma_block_messages_start(g, cells, k - 1);
        reveal_strlit("2x2 black block at ");
        let bt = block_text(g.w as int, k - 1);
        assert(bt.len() > 0 && bt[0] == '2');
        let prev = block_messages(g, cells, k - 1);
        let r = block_messages(g, cells, k);
        assert forall|m: int| 0 <= m < r.len() implies (#[trigger] r[m]).len() > 0 && r[m][0] == '2' by {
            if m < prev.len() {
                assert(r[m] == prev[m]);
            } else {
                assert(r[m] == bt);
            }
        }
    }
}

/// The block messages name every all-wall 2x2 block among the first `k`
/// top-left cells.
proof fn lemma_block_messages_name(g: &Grid, cells: Seq<u8>, k: int, t: int)
    requires
        0 <= t < k,
        black_block(g, cells, t),
    ensures
        block_messages(g, cells, k).contains(block_text(g.w as int, t)),
    decreases k,
{
    if t < k - 1 {
        lemma_block_messages_name(g, cells, k - 1, t);
        let prev = block_messages(g, cells, k - 1);
        let m = choose|m: int| 0 <= m < prev.len() && prev[m] == block_text(g.w as int, t);
        if black_block(g, cells, k - 1) {
            assert(block_messages(g, cells, k)[m] == prev[m]);
        }
    } else {
        let cur = block_messages(g, cells, k);
        assert(cur[cur.len() - 1] == block_text(g.w as int, t));
    }
}

/// On a board with every cell decided, the rules check reports the walls as
/// not connected exactly when two walls do not reach each other through
/// walls, whatever else is wrong with the board; and, whatever else is
/// wrong, it names every 2x2 block of walls, every clue cell that is not
/// empty and every clue that the walls around it do not match.
pub proof fn law_validate_reports_split_walls(g: &Grid, cells: Seq<u8>, clues: Seq<(usize, Clue)>)
    requires
        g.wf(),
        cells.len() == g.size(),
        forall|i: int| 0 <= i < cells.len() ==> #[trigger] cells[i] == BLACK || cells[i] == WHITE,
        forall|t: int| 0 <= t < clues.len() ==> (#[trigger] clues[t]).0 < g.size(),
    ensures
        (exists|k: int, reached: nat, total: nat|
            0 <= k < validation_messages(g, cells, clues).len() && #[trigger] validation_messages(
                g,
                cells,
                clues,
            )[k] == #[trigger] disconnected_text(reached, total)) <==> (exists|a: int, b: int|
            0 <= a < cells.len() && 0 <= b < cells.len() && #[trigger] cells[a] == BLACK
                && #[trigger] cells[b] == BLACK && !connected(g, walls(cells), a, b)),
        forall|t: int|
            0 <= t < cells.len() && #[trigger] black_block(g, cells, t) ==> validation_messages(
                g,
                cells,
                clues,
            ).contains(block_text(g.w as int, t)),
        forall|u: int|
            0 <= u < clues.len() && cells[(#[trigger] clues[u]).0 as int] != WHITE
                ==> validation_messages(g, cells, clues).contains(
                clue_cell_text(g.w as int, clues[u].0 as int),
            ),
        forall|u: int|
            0 <= u < clues.len() && !is_rotation_of(
                mask_runs(cell_mask(g, cells, (#[trigger] clues[u]).0 as int)),
                clues[u].1@,
            ) ==> validation_messages(g, cells, clues).contains(
                mismatch_text(
                    g.w as int,
                    clues[u].0 as int,
                    clues[u].1@,
                    mask_runs(cell_mask(g, cells, clues[u].0 as int)),
                ),
            ),
{
    let n = cells.len() as int;
    lemma_empty_messages(g, cells, n);
    let msgs = validation_messages(g, cells, clues);
    let c = clue_messages(g, cells, clues, clues.len() as int);
    let b = block_messages(g, cells, n);
    let k = connectivity_messages(g, cells);
    assert(msgs == c + b + k);
    lemma_connectivity_messages(g, cells);
    lemma_clue_messages_start(g, cells, clues, clues.len() as int);
    lemma_block_messages_start(g, cells, n);
    reveal_strlit("black cells are not connected (");
    let split = exists|a: int, b: int|
        0 <= a < cells.len() && 0 <= b < cells.len() && #[trigger] cells[a] == BLACK
            && #[trigger] cells[b] == BLACK && !connected(g, walls(cells), a, b);
    if split {
        assert(k.len() > 0);
        lemma_first_wall(cells, 0);
        let first = first_wall_from(cells, 0);
        let reached = region_size(g, walls(cells), first);
        let total = wall_count(cells);
        assert(k[0] == disconnected_text(reached, total));
        let at = (c.len() + b.len()) as int;
        assert(msgs[at] == disconnected_text(reached, total));
    } else {
        assert(k.len() == 0);
        assert forall|m: int, reached: nat, total: nat|
            0 <= m < msgs.len() implies #[trigger] msgs[m] != #[trigger] disconnected_text(reached, total) by {
            let dt = disconnected_text(reached, total);
            assert(dt[0] == 'b');
            assert(msgs[m] == (c + b)[m]);
            if m < c.len() {
                assert((c + b)[m] == c[m]);
                assert(c[m][0] == 'c');
            } else {
                assert((c + b)[m] == b[m - c.len()]);
                assert(b[m - c.len()][0] == '2');
            }
        }
    }
    assert forall|t: int| 0 <= t < cells.len() && #[trigger] black_block(g, cells, t) implies msgs.contains(
        block_text(g.w as int, t),
    ) by {
        lemma_block_messages_name(g, cells, n, t);
        let m = choose|m: int| 0 <= m < b.len() && b[m] == block_text(g.w as int, t);
        assert((c + b)[c.len() + m] == b[m]);
        assert(msgs[c.len() + m] == b[m]);
    }
    assert forall|u: int| 0 <= u < clues.len() implies {
        let i = (#[trigger] clues[u]).0 as int;
        let actual = mask_runs(cell_mask(g, cells, i));
        &&& cells[i] != WHITE ==> msgs.contains(clue_cell_text(g.w as int, i))
        &&& !is_rotation_of(actual, clues[u].1@) ==> msgs.contains(
            mismatch_text(g.w as int, i, clues[u].1@, actual),
        )
    } by {
        let i = clues[u].0 as int;
        let actual = mask_runs(cell_mask(g, cells, i));
        lemma_clue_messages_name(g, cells, clues, clues.len() as int, u);
        if cells[i] != WHITE {
            let m = choose|m: int| 0 <= m < c.len() && c[m] == clue_cell_text(g.w as int, i);
            assert((c + b)[m] == c[m]);
            assert(msgs[m] == c[m]);
        }
        if !is_rotation_of(actual, clues[u].1@) {
            let m = choose|m: int|
                0 <= m < c.len() && c[m] == mismatch_text(g.w as int, i, clues[u].1@, actual);
            assert((c + b)[m] == c[m]);
            assert(msgs[m] == c[m]);
        }
    }
}

/// The mask sets of one clue cell: all feasible masks, and the subsets that
/// have a given neighbour black / white.
pub struct ClueSets {
    pub all: MaskSet,
    pub with_black: [MaskSet; 8],
    pub with_white: [MaskSet; 8],
}

impl ClueSets {
    /// The sets of the clue `clue` at cell `i`.
    pub open spec fn describes(&self, g: &Grid, i: int, clue: Seq<u8>) -> bool {
        &&& forall|m: u8| #[trigger] self.all.has(m) == feasible(g, i, clue, m)
        &&& forall|b: int, m: u8|
            0 <= b < 8 ==> #[trigger] self.with_black[b].has(m) == (feasible(g, i, clue, m) && bit(
                m,
                b as u8,
            ))
        &&& forall|b: int, m: u8|
            0 <= b < 8 ==> #[trigger] self.with_white[b].has(m) == (feasible(g, i, clue, m) && !bit(
                m,
                b as u8,
            ))
    }
}

/// How far a search may go.
pub struct SolveLimits {
    pub max_solutions: usize,
    /// Hard wall clock budget; `None` means "no limit".
    pub deadline: Option<Deadline>,
    /// Hard node budget; `u64::MAX` means "no limit".
    pub max_nodes: u64,
}

impl SolveLimits {
    /// Limits that decide uniqueness: stop at the second solution.
    pub fn unique_check(deadline: Option<Deadline>) -> (l: SolveLimits)
        ensures
            l.max_solutions == 2,
            l.deadline == deadline,
            l.max_nodes == u64::MAX,
    {
        SolveLimits { max_solutions: 2, deadline, max_nodes: u64::MAX }
    }

    /// The same limits with another node budget.
    pub fn with_node_budget(self, max_nodes: u64) -> (l: SolveLimits)
        ensures
            l.max_solutions == self.max_solutions,
            l.deadline == self.deadline,
            l.max_nodes == max_nodes,
    {
        SolveLimits { max_solutions: self.max_solutions, deadline: self.deadline, max_nodes }
    }
}

/// Result of a search.
pub struct SolveOutcome {
    pub solutions: Vec<Vec<u8>>,
    pub nodes: u64,
    pub aborted: bool,
}

impl SolveOutcome {
    /// True only when exactly one solution exists and the search proved it.
    pub fn is_unique(&self) -> (r: bool)
        ensures
            r == (!self.aborted && self.solutions@.len() == 1),
    {
        !self.aborted && self.solutions.len() == 1
    }
}

/// What clue `c` adds to the branching weight of cell `i`: enough for its own
/// cell never to be picked, and one for each cell around it.
pub open spec fn weight_part(g: &Grid, c: (usize, Clue), i: int) -> int {
    (if c.0 == i {
        255int
    } else {
        0int
    }) + (if exists|b: int| 0 <= b < 8 && #[trigger] g.nb(c.0 as int, b) == Some(i as usize) {
        1int
    } else {
        0int
    })
}

/// The branching weight of cell `i` from the first `t` clues, before the cap.
pub open spec fn weight_sum(g: &Grid, clues: Seq<(usize, Clue)>, t: int, i: int) -> int
    decreases t,
{
    if t <= 0 {
        0
    } else {
        weight_sum(g, clues, t - 1, i) + weight_part(g, clues[t - 1], i)
    }
}

/// `v` capped at `u16::MAX`.
pub open spec fn capped16(v: int) -> int {
    if v > u16::MAX {
        u16::MAX as int
    } else {
        v
    }
}

pub struct Solver {
    pub grid: Grid,
    pub clue_cells: Vec<usize>,
    pub sets: Vec<ClueSets>,
    /// How many clues constrain each cell (used to pick branch cells).
    pub weight: Vec<u16>,
    /// The clues the solver was built for.
    pub clues: Ghost<Seq<(usize, Clue)>>,
}

impl Solver {
    pub open spec fn wf(&self) -> bool {
        &&& self.grid.wf()
        &&& self.grid.size() < u32::MAX
        &&& self.clue_cells@.len() == self.clues@.len()
        &&& self.sets@.len() == self.clues@.len()
        &&& self.weight@.len() == self.grid.size()
        &&& forall|k: int|
            0 <= k < self.clues@.len() ==> #[trigger] self.clue_cells@[k] == self.clues@[k].0
                && self.clue_cells@[k] < self.grid.size()
        &&& forall|k: int|
            0 <= k < self.clues@.len() ==> (#[trigger] self.sets@[k]).describes(
                &self.grid,
                self.clues@[k].0 as int,
                self.clues@[k].1@,
            )
    }

    pub fn new(grid: Grid, clues: &[(usize, Clue)]) -> (s: Solver)
        requires
            grid.wf(),
            grid.size() < u32::MAX,
            forall|t: int| 0 <= t < clues@.len() ==> (#[trigger] clues@[t]).0 < grid.size(),
        ensures
            s.wf(),
            s.grid.w == grid.w,
            s.grid.h == grid.h,
            s.clues@ == clues@,
            forall|i: int|
                0 <= i < grid.size() ==> #[trigger] s.weight@[i] == capped16(
                    weight_sum(&grid, clues@, clues@.len() as int, i),
                ),
    {
        let n = grid.len();
        let mut clue_cells: Vec<usize> = Vec::new();
        let mut sets: Vec<ClueSets> = Vec::new();
        let mut weight: Vec<u16> = vec![0u16; n];
        let mut t: usize = 0;
        while t < clues.len()
            invariant
                grid.wf(),
                n == grid.size(),
                forall|t: int| 0 <= t < clues@.len() ==> (#[trigger] clues@[t]).0 < grid.size(),
                t <= clues@.len(),
                clue_cells@.len() == t,
                sets@.len() == t,
                weight@.len() == n,
                forall|i: int| 0 <= i < n ==> #[trigger] weight@[i] == capped16(weight_sum(&grid, clues@, t as int, i)),
                forall|k: int|
                    0 <= k < t ==> #[trigger] clue_cells@[k] == clues@[k].0 && clue_cells@[k] < n,
                forall|k: int|
                    0 <= k < t ==> (#[trigger] sets@[k]).describes(
                        &grid,
                        clues@[k].0 as int,
                        clues@[k].1@,
                    ),
            decreases clues@.len() - t,
        {
            let idx = clues[t].0;
            let clue = &clues[t].1;
            clue_cells.push(idx);
            let neighbors = grid.neighbors(idx);
            // A cell outside the grid is never black, so drop every mask that
            // would require one.
            let feasible_list = crate::model::feasible_masks(&grid, idx, clue);
            let mut all = MaskSet::empty();
            let mut with_black = [MaskSet::empty();8];
            let mut with_white = [MaskSet::empty();8];
            let mut f: usize = 0;
            while f < feasible_list.len()
                invariant
                    forall|m: u8| feasible_list@.contains(m) <==> feasible(&grid, idx as int, clue@, m),
                    f <= feasible_list@.len(),
                    forall|m: u8|
                        #[trigger] all.has(m) == exists|e: int|
                            0 <= e < f && feasible_list@[e] == m,
                    forall|b: int, m: u8|
                        0 <= b < 8 ==> #[trigger] with_black[b].has(m) == ((exists|e: int|
                            0 <= e < f && feasible_list@[e] == m) && bit(m, b as u8)),
                    forall|b: int, m: u8|
                        0 <= b < 8 ==> #[trigger] with_white[b].has(m) == ((exists|e: int|
                            0 <= e < f && feasible_list@[e] == m) && !bit(m, b as u8)),
                decreases feasible_list@.len() - f,
            {
                let m = feasible_list[f];
                all.insert(m);
                let mut k: usize = 0;
                while k < 8
                    invariant
                        k <= 8,
                        forall|b: int, x: u8|
                            0 <= b < k ==> #[trigger] with_black[b].has(x) == ((exists|e: int|
                                0 <= e < f + 1 && feasible_list@[e] == x) && bit(x, b as u8)),
                        forall|b: int, x: u8|
                            0 <= b < k ==> #[trigger] with_white[b].has(x) == ((exists|e: int|
                                0 <= e < f + 1 && feasible_list@[e] == x) && !bit(x, b as u8)),
                        forall|b: int, x: u8|
                            k <= b < 8 ==> #[trigger] with_black[b].has(x) == ((exists|e: int|
                                0 <= e < f && feasible_list@[e] == x) && bit(x, b as u8)),
                        forall|b: int, x: u8|
                            k <= b < 8 ==> #[trigger] with_white[b].has(x) == ((exists|e: int|
                                0 <= e < f && feasible_list@[e] == x) && !bit(x, b as u8)),
                        m == feasible_list@[f as int],
                        f < feasible_list@.len(),
                    decreases 8 - k,
                {
                    proof {
                        lemma_bit_test(m, k as u8);
                    }
                    let ghost wb = with_black;
                    let ghost ww = with_white;
                    if m & (1u8 << (k as u8)) != 0 {
                        let mut set = with_black[k];
                        set.insert(m);
                        with_black[k] = set;
                    } else {
                        let mut set = with_white[k];
                        set.insert(m);
                        with_white[k] = set;
                    }
                    proof {
                        assert forall|b: int, x: u8|
                            0 <= b < k + 1 implies #[trigger] with_black[b].has(x) == ((exists|e: int|
                                0 <= e < f + 1 && feasible_list@[e] == x) && bit(x, b as u8)) by {
                            if b < k {
                                assert(with_black[b] == wb[b]);
                            }
                            if exists|e: int| 0 <= e < f + 1 && feasible_list@[e] == x {
                                let e = choose|e: int| 0 <= e < f + 1 && feasible_list@[e] == x;
                                if e < f {
                                }
                            }
                        }
                        assert forall|b: int, x: u8|
                            0 <= b < k + 1 implies #[trigger] with_white[b].has(x) == ((exists|e: int|
                                0 <= e < f + 1 && feasible_list@[e] == x) && !bit(x, b as u8)) by {
                            if b < k {
                                assert(with_white[b] == ww[b]);
                            }
                            if exists|e: int| 0 <= e < f + 1 && feasible_list@[e] == x {
                                let e = choose|e: int| 0 <= e < f + 1 && feasible_list@[e] == x;
                                if e < f {
                                }
                            }
                        }
                        assert forall|b: int, x: u8|
                            k + 1 <= b < 8 implies #[trigger] with_black[b].has(x) == ((exists|e: int|
                                0 <= e < f && feasible_list@[e] == x) && bit(x, b as u8)) by {
                            assert(with_black[b] == wb[b]);
                        }
                        assert forall|b: int, x: u8|
                            k + 1 <= b < 8 implies #[trigger] with_white[b].has(x) == ((exists|e: int|
                                0 <= e < f && feasible_list@[e] == x) && !bit(x, b as u8)) by {
                            assert(with_white[b] == ww[b]);
                        }
                    }
                    k = k + 1;
                }
                proof {
                    assert forall|x: u8| #[trigger] all.has(x) == exists|e: int|
                        0 <= e < f + 1 && feasible_list@[e] == x by {
                        if exists|e: int| 0 <= e < f + 1 && feasible_list@[e] == x {
                            let e = choose|e: int| 0 <= e < f + 1 && feasible_list@[e] == x;
                            if e < f {
                            }
                        }
                    }
                }
                f = f + 1;
            }
            let cs = ClueSets { all, with_black, with_white };
            proof {
                assert forall|m: u8|
                    (exists|e: int| 0 <= e < feasible_list@.len() && feasible_list@[e] == m) == feasible(
                        &grid,
                        idx as int,
                        clue@,
                        m,
                    ) by {
                    if feasible(&grid, idx as int, clue@, m) {
                        assert(feasible_list@.contains(m));
                    }
                    if exists|e: int| 0 <= e < feasible_list@.len() && feasible_list@[e] == m {
                        let e = choose|e: int| 0 <= e < feasible_list@.len() && feasible_list@[e] == m;
                        assert(feasible_list@.contains(m));
                    }
                }
            }
            sets.push(cs);
            // never branch on a clue cell; count the clues around the others
            let ghost before = weight@;
            weight.set(idx, weight[idx].saturating_add(255));
            let mut b: usize = 0;
            while b < 8
                invariant
                    grid.wf(),
                    n == grid.size(),
                    idx < n,
                    idx == clues@[t as int].0,
                    t < clues@.len(),
                    weight@.len() == n,
                    b <= 8,
                    forall|j: int| 0 <= j < 8 ==> #[trigger] neighbors@[j] == grid.nb(idx as int, j),
                    forall|i: int|
                        0 <= i < n ==> #[trigger] weight@[i] == capped16(
                            weight_sum(&grid, clues@, t as int, i) + (if i == idx {
                                255int
                            } else {
                                0int
                            }) + (if exists|j: int| 0 <= j < b && #[trigger] grid.nb(idx as int, j) == Some(i as usize) {
                                1int
                            } else {
                                0int
                            }),
                        ),
                decreases 8 - b,
            {
                let ghost prev = weight@;
                if let Some(nb) = neighbors[b] {
                    proof {
                        lemma_nb_in_range(&grid, idx as int, b as int);
                    }
                    weight.set(nb, weight[nb].saturating_add(1));
                    proof {
                        assert forall|j: int|
                            0 <= j < b && #[trigger] grid.nb(idx as int, j) == Some(nb) implies false by {
                            crate::grid::lemma_nb_injective(&grid, idx as int, j, b as int);
                        }
                    }
                }
                proof {
                    assert forall|i: int| 0 <= i < n implies #[trigger] weight@[i] == capped16(
                        weight_sum(&grid, clues@, t as int, i) + (if i == idx {
                            255int
                        } else {
                            0int
                        }) + (if exists|j: int| 0 <= j < b + 1 && #[trigger] grid.nb(idx as int, j) == Some(i as usize) {
                            1int
                        } else {
                            0int
                        }),
                    ) by {
                        if exists|j: int| 0 <= j < b && #[trigger] grid.nb(idx as int, j) == Some(i as usize) {
                            let j = choose|j: int| 0 <= j < b && #[trigger] grid.nb(idx as int, j) == Some(i as usize);
                            assert(0 <= j < b + 1 && grid.nb(idx as int, j) == Some(i as usize));
                        }
                        if grid.nb(idx as int, b as int) == Some(i as usize) {
                            assert(0 <= b < b + 1 && grid.nb(idx as int, b as int) == Some(i as usize));
                        } else if exists|j: int| 0 <= j < b + 1 && #[trigger] grid.nb(idx as int, j) == Some(i as usize) {
                            let j = choose|j: int| 0 <= j < b + 1 && #[trigger] grid.nb(idx as int, j) == Some(i as usize);
                            assert(j != b);
                            assert(0 <= j < b && grid.nb(idx as int, j) == Some(i as usize));
                        }
                        assert(weight@[i] == prev[i] || (neighbors@[b as int] == Some(i as usize)));
                    }
                }
                b = b + 1;
            }
            proof {
                assert forall|i: int| 0 <= i < n implies #[trigger] weight@[i] == capped16(
                    weight_sum(&grid, clues@, t + 1, i),
                ) by {
                    assert(weight_sum(&grid, clues@, t + 1, i) == weight_sum(&grid, clues@, t as int, i) + weight_part(
                        &grid,
                        clues@[t as int],
                        i,
                    ));
                    if exists|j: int| 0 <= j < 8 && #[trigger] grid.nb(idx as int, j) == Some(i as usize) {
                        let j = choose|j: int| 0 <= j < 8 && #[trigger] grid.nb(idx as int, j) == Some(i as usize);
                        assert(0 <= j < b && grid.nb(idx as int, j) == Some(i as usize));
                    }
                }
            }
            t = t + 1;
        }
        Solver { grid, clue_cells, sets, weight, clues: Ghost(clues@) }
    }

    /// Initial state: everything unknown.
    pub fn fresh_state(&self) -> (s: Vec<u8>)
        requires
            self.wf(),
        ensures
            s@.len() == self.grid.size(),
            forall|i: int| 0 <= i < s@.len() ==> #[trigger] s@[i] == UNKNOWN,
    {
        vec![UNKNOWN; self.grid.len()]
    }

    /// The surviving neighbour masks of clue `k` for the given state.
    pub fn alive_for(&self, k: usize, state: &[u8]) -> (alive: MaskSet)
        requires
            self.wf(),
            k < self.clues@.len(),
            state@.len() == self.grid.size(),
        ensures
            forall|m: u8| #[trigger] alive.has(m) == mask_alive(
                &self.grid,
                state@,
                self.clues@[k as int].0 as int,
                self.clues@[k as int].1@,
                m,
            ),
    {
        let sets = &self.sets[k];
        let cell = self.clue_cells[k];
        let neighbors = self.grid.neighbors(cell);
        let ghost g = &self.grid;
        let ghost clue = self.clues@[k as int].1@;
        let mut alive = sets.all;
        let mut b: usize = 0;
        while b < 8
            invariant
                self.wf(),
                k < self.clues@.len(),
                state@.len() == self.grid.size(),
                cell == self.clues@[k as int].0,
                cell < self.grid.size(),
                *sets == self.sets@[k as int],
                sets.describes(g, cell as int, clue),
                g == &self.grid,
                clue == self.clues@[k as int].1@,
                forall|j: int| 0 <= j < 8 ==> #[trigger] neighbors@[j] == g.nb(cell as int, j),
                b <= 8,
                forall|m: u8| #[trigger] alive.has(m) == (feasible(g, cell as int, clue, m) && forall|j: int|
                    0 <= j < b ==> match #[trigger] g.nb(cell as int, j) {
                        None => true,
                        Some(c) => (state@[c as int] == BLACK ==> bit(m, j as u8)) && (state@[c as int]
                            == WHITE ==> !bit(m, j as u8)),
                    }),
            decreases 8 - b,
        {
            let ghost before = alive;
            if let Some(nb) = neighbors[b] {
                proof {
                    lemma_nb_in_range(g, cell as int, b as int);
                }
                let v = state[nb];
                if v == BLACK {
                    alive = alive.and(sets.with_black[b]);
                } else if v == WHITE {
                    alive = alive.and(sets.with_white[b]);
                }
            }
            proof {
                assert forall|m: u8| #[trigger] alive.has(m) == (feasible(g, cell as int, clue, m) && forall|j: int|
                    0 <= j < b + 1 ==> match #[trigger] g.nb(cell as int, j) {
                        None => true,
                        Some(c) => (state@[c as int] == BLACK ==> bit(m, j as u8)) && (state@[c as int]
                            == WHITE ==> !bit(m, j as u8)),
                    }) by {
                    assert(neighbors@[b as int] == g.nb(cell as int, b as int));
                    assert(before.has(m) == (feasible(g, cell as int, clue, m) && forall|j: int|
                        0 <= j < b ==> match #[trigger] g.nb(cell as int, j) {
                            None => true,
                            Some(c) => (state@[c as int] == BLACK ==> bit(m, j as u8)) && (state@[c as int]
                                == WHITE ==> !bit(m, j as u8)),
                        }));
                }
            }
            b = b + 1;
        }
        alive
    }
}

} // verus!
