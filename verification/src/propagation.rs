//! Propagation: the rules that fill in cells without guessing, run to a
//! fixpoint before every branch of the search.
//!
//!   1. a clue cell is always empty;
//!   2. arc consistency on every clue: keep the neighbour masks that still fit
//!      the partially filled surroundings, then assign every neighbour that is
//!      black (or white) in *all* surviving masks;
//!   3. no 2x2 block may become black: three black cells force the fourth white;
//!   4. connectivity: the cells that could still become black are split into
//!      orthogonal components; the black cells must all end up in one of them,
//!      so as soon as one component holds a black cell every other component is
//!      forced white;
//!   5. a black cell that can never reach another black cell is a contradiction.
//!
//! Every rule only removes assignments that cannot be part of a solution, and
//! a contradiction is only reported when no solution is left.

use vstd::prelude::*;

use crate::grid::{col, lemma_cell_coords, lemma_idx_coords, row, Grid};
use crate::maskset::{member_count, MaskSet};
use crate::model::{
    agrees, bit, black_nb, cell_mask, count_unknown, feasible, fits_marks, forced, is_filled,
    lemma_cell_mask_bits, lemma_count_unknown_update, lemma_nb_in_range, mask_alive, satisfiable,
    BLACK, UNKNOWN, WHITE,
};
use crate::region::{
    connected, lemma_connected_mono, lemma_connected_symmetric, lemma_connected_trans,
    lemma_connected_within,
};
use crate::rules::{black_block, block_at, components, is_labelling, potential, potential_mask, walls};
use crate::solver::{is_solution, ClueSets, Solver};

verus! {

/// Reusable buffers of the propagation: the queue of the 2x2 rule and the
/// component analysis of the connectivity rule.
pub struct Scratch {
    /// Component of every cell that could still be black; `usize::MAX` for
    /// empty cells.
    pub comp: Vec<usize>,
    /// Whether each component holds a black cell.
    pub has_black: Vec<bool>,
    /// Cells that just turned black and still need their 2x2 windows checked.
    pub new_blacks: Vec<usize>,
    /// Cells that turned black since the component analysis last ran.
    pub pending_blacks: Vec<usize>,
    /// Number of components that hold a black cell.
    pub comp_black_groups: usize,
    /// A component that holds a black cell, when there is one.
    pub main_comp: usize,
    /// Set when a cell turned white, which can split components.
    pub comp_dirty: bool,
    /// Most constrained clue found by the last propagation pass: its index,
    /// its surviving masks and their number.
    pub best: Option<(usize, MaskSet, u32)>,
    /// First cell of each component.
    pub starts: Ghost<Seq<int>>,
}

/// Number of `true` entries.
pub open spec fn count_true(s: Seq<bool>) -> nat
    decreases s.len(),
{
    if s.len() == 0 {
        0
    } else {
        count_true(s.drop_last()) + if s.last() {
            1nat
        } else {
            0nat
        }
    }
}

impl Scratch {
    /// The buffers fit a board of `n` cells.
    pub open spec fn sized(&self, n: int) -> bool {
        &&& self.comp@.len() == n
        &&& forall|j: int| 0 <= j < self.new_blacks@.len() ==> #[trigger] self.new_blacks@[j] < n
        &&& forall|j: int|
            0 <= j < self.pending_blacks@.len() ==> #[trigger] self.pending_blacks@[j] < n
    }

    /// The component analysis describes `state`: the labels are the
    /// components of the cells that are not empty, a component is marked
    /// exactly when it holds a black cell (black cells still in the pending
    /// list may not be counted yet), and the counter and main component agree
    /// with the marks.
    #[verifier::opaque]
    pub open spec fn analysis_ok(&self, g: &Grid, state: Seq<u8>) -> bool {
        let k = self.has_black@.len();
        &&& is_labelling(g, potential(state), self.comp@, k as int, self.starts@)
        &&& forall|c: int|
            0 <= c < k && #[trigger] self.has_black@[c] ==> exists|i: int|
                0 <= i < g.size() && state[i] == BLACK && #[trigger] self.comp@[i] == c
        &&& forall|i: int|
            0 <= i < g.size() && #[trigger] state[i] == BLACK ==> self.has_black@[self.comp@[i] as int]
                || self.pending_blacks@.contains(i as usize)
        &&& forall|j: int|
            0 <= j < self.pending_blacks@.len() ==> state[#[trigger] self.pending_blacks@[j] as int]
                == BLACK
        &&& self.comp_black_groups == count_true(self.has_black@)
        &&& self.comp_black_groups >= 1 ==> self.main_comp < k && self.has_black@[self.main_comp as int]
    }

    /// The buffers fit the board and, unless marked stale, the component
    /// analysis describes `state`.
    #[verifier::opaque]
    pub open spec fn ready(&self, g: &Grid, state: Seq<u8>) -> bool {
        &&& self.sized(g.size())
        &&& !self.comp_dirty ==> self.analysis_ok(g, state)
    }

    pub fn new(n: usize) -> (s: Scratch)
        ensures
            s.sized(n as int),
            s.comp_dirty,
            s.new_blacks@.len() == 0,
            s.pending_blacks@.len() == 0,
            s.best is None,
    {
        proof {
            reveal(Scratch::ready);
            reveal(Scratch::analysis_ok);
            reveal(queue_covers);
            reveal(Solver::best_ok);
            reveal(Solver::clue_settled);
            reveal(Solver::keeps_solutions);
            reveal(Solver::no_solution);
        }
        Scratch {
            comp: vec![usize::MAX; n],
            has_black: Vec::new(),
            new_blacks: Vec::new(),
            pending_blacks: Vec::new(),
            comp_black_groups: 0,
            main_comp: usize::MAX,
            comp_dirty: true,
            best: None,
            starts: Ghost(Seq::empty()),
        }
    }
}

proof fn lemma_count_true_set(s: Seq<bool>, i: int)
    requires
        0 <= i < s.len(),
        !s[i],
    ensures
        count_true(s.update(i, true)) == count_true(s) + 1,
    decreases s.len(),
{
    reveal(Scratch::ready);
    reveal(Scratch::analysis_ok);
    reveal(queue_covers);
    reveal(Solver::best_ok);
    reveal(Solver::clue_settled);
    reveal(Solver::keeps_solutions);
    reveal(Solver::no_solution);
    let t = s.update(i, true);
    if i < s.len() - 1 {
        assert(t.drop_last() =~= s.drop_last().update(i, true));
        lemma_count_true_set(s.drop_last(), i);
    } else {
        assert(t.drop_last() =~= s.drop_last());
    }
}

proof fn lemma_count_true_bound(s: Seq<bool>)
    ensures
        count_true(s) <= s.len(),
    decreases s.len(),
{
    reveal(Scratch::ready);
    reveal(Scratch::analysis_ok);
    reveal(queue_covers);
    reveal(Solver::best_ok);
    reveal(Solver::clue_settled);
    reveal(Solver::keeps_solutions);
    reveal(Solver::no_solution);
    if s.len() > 0 {
        lemma_count_true_bound(s.drop_last());
    }
}

proof fn lemma_count_true_zero(n: nat)
    ensures
        count_true(Seq::new(n, |i: int| false)) == 0,
    decreases n,
{
    reveal(Scratch::ready);
    reveal(Scratch::analysis_ok);
    reveal(queue_covers);
    reveal(Solver::best_ok);
    reveal(Solver::clue_settled);
    reveal(Solver::keeps_solutions);
    reveal(Solver::no_solution);
    if n > 0 {
        assert(Seq::new(n, |i: int| false).drop_last() =~= Seq::new((n - 1) as nat, |i: int| false));
        lemma_count_true_zero((n - 1) as nat);
    }
}

/// Two different marked entries make at least two.
proof fn lemma_count_true_two(s: Seq<bool>, a: int, b: int)
    requires
        0 <= a < s.len(),
        0 <= b < s.len(),
        a != b,
        s[a],
        s[b],
    ensures
        count_true(s) >= 2,
    decreases s.len(),
{
    reveal(Scratch::ready);
    reveal(Scratch::analysis_ok);
    reveal(queue_covers);
    reveal(Solver::best_ok);
    reveal(Solver::clue_settled);
    reveal(Solver::keeps_solutions);
    reveal(Solver::no_solution);
    let last = s.len() - 1;
    if a == last {
        lemma_count_true_one(s.drop_last(), b);
    } else if b == last {
        lemma_count_true_one(s.drop_last(), a);
    } else {
        lemma_count_true_two(s.drop_last(), a, b);
    }
}

proof fn lemma_count_true_one(s: Seq<bool>, a: int)
    requires
        0 <= a < s.len(),
        s[a],
    ensures
        count_true(s) >= 1,
    decreases s.len(),
{
    reveal(Scratch::ready);
    reveal(Scratch::analysis_ok);
    reveal(queue_covers);
    reveal(Solver::best_ok);
    reveal(Solver::clue_settled);
    reveal(Solver::keeps_solutions);
    reveal(Solver::no_solution);
    if a < s.len() - 1 {
        lemma_count_true_one(s.drop_last(), a);
    }
}

/// With two or more marked entries there are two different ones.
proof fn lemma_count_true_witness(s: Seq<bool>) -> (r: (int, int))
    requires
        count_true(s) >= 2,
    ensures
        0 <= r.0 < s.len(),
        0 <= r.1 < s.len(),
        r.0 != r.1,
        s[r.0],
        s[r.1],
    decreases s.len(),
{
    reveal(Scratch::ready);
    reveal(Scratch::analysis_ok);
    reveal(queue_covers);
    reveal(Solver::best_ok);
    reveal(Solver::clue_settled);
    reveal(Solver::keeps_solutions);
    reveal(Solver::no_solution);
    let d = s.drop_last();
    if s.last() && count_true(d) >= 1 {
        let a = lemma_count_true_some(d);
        (a, s.len() - 1)
    } else {
        lemma_count_true_bound(d);
        let r = lemma_count_true_witness(d);
        r
    }
}

proof fn lemma_count_true_some(s: Seq<bool>) -> (a: int)
    requires
        count_true(s) >= 1,
    ensures
        0 <= a < s.len(),
        s[a],
    decreases s.len(),
{
    reveal(Scratch::ready);
    reveal(Scratch::analysis_ok);
    reveal(queue_covers);
    reveal(Solver::best_ok);
    reveal(Solver::clue_settled);
    reveal(Solver::keeps_solutions);
    reveal(Solver::no_solution);
    if s.last() {
        s.len() - 1
    } else {
        lemma_count_true_some(s.drop_last())
    }
}

/// `after` only turns open cells of `before` into empty ones.
pub open spec fn whitens(before: Seq<u8>, after: Seq<u8>) -> bool {
    &&& after.len() == before.len()
    &&& forall|i: int|
        0 <= i < before.len() ==> #[trigger] after[i] == before[i] || (before[i] == UNKNOWN
            && after[i] == WHITE)
}

/// `after` keeps every decided cell of `before` and only decides open ones.
pub open spec fn refines(before: Seq<u8>, after: Seq<u8>) -> bool {
    &&& after.len() == before.len()
    &&& forall|i: int|
        0 <= i < before.len() ==> #[trigger] after[i] == before[i] || (before[i] == UNKNOWN && (
        after[i] == BLACK || after[i] == WHITE))
}

/// Cell `c` is one of the four cells of the block with top-left cell `t`.
pub open spec fn covers(g: &Grid, t: int, c: int) -> bool {
    c == t || c == t + 1 || c == t + g.w || c == t + g.w + 1
}

/// Every all-black block of `s` has a cell waiting in `queue`.
#[verifier::opaque]
pub open spec fn queue_covers(g: &Grid, s: Seq<u8>, queue: Seq<usize>) -> bool {
    forall|t: int|
        #[trigger] black_block(g, s, t) ==> exists|j: int|
            0 <= j < queue.len() && covers(g, t, #[trigger] queue[j] as int)
}

/// The 2x2 block with top-left cell `t` holds three walls and an open cell,
/// which the rules force empty.
pub open spec fn three_open(g: &Grid, s: Seq<u8>, t: int) -> bool {
    let w = g.w as int;
    &&& block_at(g, t)
    &&& block_count(g, s, t) == 3
    &&& (s[t] == UNKNOWN || s[t + 1] == UNKNOWN || s[t + w] == UNKNOWN || s[t + w + 1] == UNKNOWN)
}

/// The 2x2 rule on the block with top-left cell `t` turns cell `i` empty: the
/// block has three walls and `i` is its open cell.
pub open spec fn window_whitens(g: &Grid, s: Seq<u8>, t: int, i: int) -> bool {
    &&& block_at(g, t)
    &&& block_count(g, s, t) == 3
    &&& covers(g, t, i)
    &&& s[i] == UNKNOWN
}

/// The 2x2 rule on the blocks that hold cell `c` turns cell `i` empty.
pub open spec fn around_whitens(g: &Grid, s: Seq<u8>, c: int, i: int) -> bool {
    exists|t: int| covers(g, t, c) && #[trigger] window_whitens(g, s, t, i)
}

/// Whitening keeps the walls of a block, so a later look at a block turns a
/// cell empty exactly when the first look would and the cell is still open.
proof fn lemma_window_whitens_later(g: &Grid, s0: Seq<u8>, a: Seq<u8>, t: int, i: int)
    requires
        whitens(s0, a),
        s0.len() == g.size(),
        0 <= i < s0.len(),
    ensures
        window_whitens(g, a, t, i) == (window_whitens(g, s0, t, i) && a[i] == UNKNOWN),
{
    if block_at(g, t) {
        lemma_block_in_range(g, t);
        let w = g.w as int;
        assert(a[t] == s0[t] || (s0[t] == UNKNOWN && a[t] == WHITE));
        assert(a[t + 1] == s0[t + 1] || (s0[t + 1] == UNKNOWN && a[t + 1] == WHITE));
        assert(a[t + w] == s0[t + w] || (s0[t + w] == UNKNOWN && a[t + w] == WHITE));
        assert(a[t + w + 1] == s0[t + w + 1] || (s0[t + w + 1] == UNKNOWN && a[t + w + 1] == WHITE));
        assert(block_count(g, a, t) == block_count(g, s0, t));
    }
    assert(a[i] == s0[i] || (s0[i] == UNKNOWN && a[i] == WHITE));
}

/// A block at `(tx, ty)` that holds the cell at `(x, y)` is one of the four
/// blocks whose top-left corner is the cell or its neighbour up, left or
/// up-left.
proof fn lemma_block_holding(w: int, x: int, y: int, tx: int, ty: int)
    requires
        0 <= x < w,
        0 <= y,
        0 <= tx,
        tx + 1 < w,
        0 <= ty,
        covers_at(w, ty * w + tx, y * w + x),
    ensures
        (tx == x || tx + 1 == x) && (ty == y || ty + 1 == y),
{
    let t = ty * w + tx;
    let c = y * w + x;
    if c == t {
        assert(ty == y && tx == x) by (nonlinear_arith)
            requires
                y * w + x == ty * w + tx,
                0 <= x < w,
                0 <= tx < w,
        ;
    } else if c == t + 1 {
        assert(ty == y && tx + 1 == x) by (nonlinear_arith)
            requires
                y * w + x == ty * w + tx + 1,
                0 <= x < w,
                0 <= tx,
                tx + 1 < w,
        ;
    } else if c == t + w {
        assert(ty + 1 == y && tx == x) by (nonlinear_arith)
            requires
                y * w + x == ty * w + tx + w,
                0 <= x < w,
                0 <= tx < w,
        ;
    } else {
        assert(ty + 1 == y && tx + 1 == x) by (nonlinear_arith)
            requires
                y * w + x == ty * w + tx + w + 1,
                0 <= x < w,
                0 <= tx,
                tx + 1 < w,
        ;
    }
}

/// Cell `c` lies in the block with top-left cell `t` on a board `w` wide.
pub open spec fn covers_at(w: int, t: int, c: int) -> bool {
    c == t || c == t + 1 || c == t + w || c == t + w + 1
}

/// `i` is one of the first `q` entries of the four cells `quad`.
pub open spec fn in_quad(quad: Seq<usize>, q: int, i: int) -> bool {
    ||| (q > 0 && quad[0] == i)
    ||| (q > 1 && quad[1] == i)
    ||| (q > 2 && quad[2] == i)
    ||| (q > 3 && quad[3] == i)
}

/// Every block of `s` with three walls and an open cell has a cell waiting
/// in `queue`.
#[verifier::opaque]
pub open spec fn queue_covers3(g: &Grid, s: Seq<u8>, queue: Seq<usize>) -> bool {
    forall|t: int|
        #[trigger] three_open(g, s, t) ==> exists|j: int|
            0 <= j < queue.len() && covers(g, t, #[trigger] queue[j] as int)
}

/// All black cells of `s` can reach each other over cells that are not empty.
pub open spec fn blacks_linked(g: &Grid, s: Seq<u8>) -> bool {
    forall|a: int, b: int|
        0 <= a < s.len() && 0 <= b < s.len() && #[trigger] s[a] == BLACK && #[trigger] s[b] == BLACK
            ==> connected(g, potential(s), a, b)
}

/// Some black cell of `s` cannot reach cell `i` over cells that are not
/// empty.
pub open spec fn cut_off(g: &Grid, s: Seq<u8>, i: int) -> bool {
    exists|b: int| 0 <= b < s.len() && s[b] == BLACK && !#[trigger] connected(g, potential(s), b, i)
}


/// No open cell is cut off from a black cell.
pub open spec fn none_cut_off(g: &Grid, s: Seq<u8>) -> bool {
    forall|i: int| 0 <= i < s.len() && s[i] == UNKNOWN ==> !#[trigger] cut_off(g, s, i)
}

/// Emptying the open cells that are cut off from linked walls cuts off no
/// other cell: a walk from a wall to an open cell only passes cells the wall
/// reaches, and none of those was emptied.
proof fn lemma_emptying_cut_off_cells(g: &Grid, old: Seq<u8>, new: Seq<u8>)
    requires
        old.len() == g.size(),
        new.len() == old.len(),
        blacks_linked(g, old),
        forall|i: int|
            0 <= i < old.len() ==> #[trigger] new[i] == if old[i] == UNKNOWN && cut_off(g, old, i) {
                WHITE
            } else {
                old[i]
            },
    ensures
        none_cut_off(g, new),
{
    assert forall|i: int| 0 <= i < new.len() && new[i] == UNKNOWN implies !#[trigger] cut_off(g, new, i) by {
        assert(old[i] == UNKNOWN && !cut_off(g, old, i));
        assert forall|b: int| 0 <= b < new.len() && new[b] == BLACK implies connected(g, potential(new), b, i) by {
            assert(old[b] == BLACK);
            assert(connected(g, potential(old), b, i));
            assert forall|j: int|
                0 <= j < potential(old).len() && potential(old)[j] && #[trigger] connected(
                    g,
                    potential(old),
                    b,
                    j,
                ) implies potential(new)[j] by {
                if old[j] == UNKNOWN && cut_off(g, old, j) {
                    let b2 = choose|b2: int|
                        0 <= b2 < old.len() && old[b2] == BLACK && !#[trigger] connected(g, potential(old), b2, j);
                    assert(connected(g, potential(old), b2, b));
                    lemma_connected_trans(g, potential(old), b2, b, j);
                }
            }
            lemma_connected_within(g, potential(old), potential(new), b, i);
        }
    }
}

/// Number of masks below `k` that satisfy `f`.
pub open spec fn mask_count(f: spec_fn(u8) -> bool, k: int) -> nat
    decreases k,
{
    if k <= 0 {
        0
    } else {
        mask_count(f, k - 1) + if f((k - 1) as u8) {
            1nat
        } else {
            0nat
        }
    }
}

/// A set and a predicate with the same members have the same count.
pub proof fn lemma_member_count(s: MaskSet, f: spec_fn(u8) -> bool, k: int)
    requires
        0 <= k <= 256,
        forall|m: u8| #[trigger] s.has(m) == f(m),
    ensures
        member_count(s, k) == mask_count(f, k),
    decreases k,
{
    reveal(Scratch::ready);
    reveal(Scratch::analysis_ok);
    reveal(queue_covers);
    reveal(Solver::best_ok);
    reveal(Solver::clue_settled);
    reveal(Solver::keeps_solutions);
    reveal(Solver::no_solution);
    if k > 0 {
        lemma_member_count(s, f, k - 1);
        assert(s.has((k - 1) as u8) == f((k - 1) as u8));
    }
}

impl Solver {
    /// Number of masks the clue `k` still allows on `state`.
    pub open spec fn alive_count(&self, state: Seq<u8>, k: int) -> nat {
        mask_count(
            |m: u8| mask_alive(&self.grid, state, self.clues@[k].0 as int, self.clues@[k].1@, m),
            256,
        )
    }

    /// Clue `k` can still be met and forces nothing more on `state`.
    #[verifier::opaque]
    pub open spec fn clue_settled(&self, state: Seq<u8>, k: int) -> bool {
        let i = self.clues@[k].0 as int;
        let clue = self.clues@[k].1@;
        &&& satisfiable(&self.grid, state, i, clue)
        &&& forall|b: int| 0 <= b < 8 ==> #[trigger] forced(&self.grid, state, i, clue, b) is None
    }

    /// `best` is the first of the clues `0..upto` with the fewest surviving
    /// masks among those that still leave a choice, with those masks and
    /// their number; `None` when no clue leaves a choice.
    #[verifier::opaque]
    pub open spec fn best_ok(&self, state: Seq<u8>, best: Option<(usize, MaskSet, u32)>, upto: int) -> bool {
        match best {
            None => forall|j: int| 0 <= j < upto ==> #[trigger] self.alive_count(state, j) < 2,
            Some(b) => {
                let k = b.0 as int;
                &&& 0 <= k < upto
                &&& forall|m: u8| #[trigger] b.1.has(m) == mask_alive(
                    &self.grid,
                    state,
                    self.clues@[k].0 as int,
                    self.clues@[k].1@,
                    m,
                )
                &&& b.2 == self.alive_count(state, k)
                &&& b.2 >= 2
                &&& forall|j: int|
                    0 <= j < upto ==> #[trigger] self.alive_count(state, j) < 2 || self.alive_count(
                        state,
                        j,
                    ) >= b.2
                &&& forall|j: int|
                    0 <= j < k ==> #[trigger] self.alive_count(state, j) < 2 || self.alive_count(
                        state,
                        j,
                    ) > b.2
            },
        }
    }

    /// No rule of the propagation changes `state` any more: clue cells are
    /// decided and not black, every clue can be met and forces nothing, no
    /// block is all black, and the black cells can still reach each other.
    pub open spec fn settled(&self, state: Seq<u8>) -> bool {
        &&& forall|k: int|
            0 <= k < self.clues@.len() ==> state[(#[trigger] self.clues@[k]).0 as int] != UNKNOWN
                && state[self.clues@[k].0 as int] != BLACK
        &&& forall|k: int| 0 <= k < self.clues@.len() ==> #[trigger] self.clue_settled(state, k)
        &&& blacks_linked(&self.grid, state)
    }

    /// Every solution that keeps the marks of `before` keeps those of `after`.
    #[verifier::opaque]
    pub open spec fn keeps_solutions(&self, before: Seq<u8>, after: Seq<u8>) -> bool {
        forall|s: Seq<u8>|
            #[trigger] is_solution(&self.grid, s, self.clues@) && agrees(s, before) ==> agrees(
                s,
                after,
            )
    }

    /// No solution keeps the marks of `marks`.
    #[verifier::opaque]
    pub open spec fn no_solution(&self, marks: Seq<u8>) -> bool {
        forall|s: Seq<u8>| #[trigger] is_solution(&self.grid, s, self.clues@) ==> !agrees(s, marks)
    }
}

/// Refining never adds open cells.
pub proof fn lemma_refines_count(before: Seq<u8>, after: Seq<u8>)
    requires
        refines(before, after),
    ensures
        count_unknown(after) <= count_unknown(before),
    decreases before.len(),
{
    reveal(Scratch::ready);
    reveal(Scratch::analysis_ok);
    reveal(queue_covers);
    reveal(Solver::best_ok);
    reveal(Solver::clue_settled);
    reveal(Solver::keeps_solutions);
    reveal(Solver::no_solution);
    if before.len() > 0 {
        let b = before.drop_last();
        let a = after.drop_last();
        assert(refines(b, a)) by {
            assert forall|i: int| 0 <= i < b.len() implies #[trigger] a[i] == b[i] || (b[i] == UNKNOWN
                && (a[i] == BLACK || a[i] == WHITE)) by {
                assert(after[i] == before[i] || (before[i] == UNKNOWN && (after[i] == BLACK
                    || after[i] == WHITE)));
            }
        }
        lemma_refines_count(b, a);
        assert(after[after.len() - 1] == before[before.len() - 1] || (before[before.len() - 1]
            == UNKNOWN && (after[after.len() - 1] == BLACK || after[after.len() - 1] == WHITE)));
    }
}

/// Deciding one open cell keeps a refinement.
proof fn lemma_refines_set(orig: Seq<u8>, before: Seq<u8>, i: int, v: u8)
    requires
        refines(orig, before),
        0 <= i < before.len(),
        before[i] == UNKNOWN,
        v == BLACK || v == WHITE,
    ensures
        refines(orig, before.update(i, v)),
        count_unknown(before.update(i, v)) < count_unknown(before),
{
    reveal(Scratch::ready);
    reveal(Scratch::analysis_ok);
    reveal(queue_covers);
    reveal(Solver::best_ok);
    reveal(Solver::clue_settled);
    reveal(Solver::keeps_solutions);
    reveal(Solver::no_solution);
    lemma_count_unknown_update(before, i, v);
    let after = before.update(i, v);
    assert forall|j: int| 0 <= j < orig.len() implies #[trigger] after[j] == orig[j] || (orig[j]
        == UNKNOWN && (after[j] == BLACK || after[j] == WHITE)) by {
        assert(before[j] == orig[j] || (orig[j] == UNKNOWN && (before[j] == BLACK || before[j]
            == WHITE)));
    }
}

impl Solver {
    /// A solution is filled and meets every clue and the block rule.
    proof fn lemma_solution_facts(&self, s: Seq<u8>)
        requires
            is_solution(&self.grid, s, self.clues@),
        ensures
            is_filled(s),
            s.len() == self.grid.size(),
            forall|t: int| !#[trigger] black_block(&self.grid, s, t),
    {
        reveal(Scratch::ready);
        reveal(Scratch::analysis_ok);
        reveal(queue_covers);
        reveal(Solver::best_ok);
        reveal(Solver::clue_settled);
        reveal(Solver::keeps_solutions);
        reveal(Solver::no_solution);
    }

    /// A block with three black cells leaves its fourth cell empty in every
    /// solution.
    proof fn lemma_window_white(&self, before: Seq<u8>, prev: Seq<u8>, t: int, i: int)
        requires
            self.wf(),
            before.len() == self.grid.size(),
            block_at(&self.grid, t),
            covers(&self.grid, t, i),
            block_count(&self.grid, before, t) == 3,
            before[i] == UNKNOWN,
            prev.len() == before.len(),
            self.keeps_solutions(before, prev),
        ensures
            self.keeps_solutions(before, prev.update(i, WHITE)),
    {
        reveal(Scratch::ready);
        reveal(Scratch::analysis_ok);
        reveal(queue_covers);
        reveal(Solver::best_ok);
        reveal(Solver::clue_settled);
        reveal(Solver::keeps_solutions);
        reveal(Solver::no_solution);
        let g = &self.grid;
        lemma_block_in_range(g, t);
        let w = g.w as int;
        assert forall|s: Seq<u8>| #[trigger] is_solution(g, s, self.clues@) && agrees(s, before)
            implies agrees(s, prev.update(i, WHITE)) by {
            assert(agrees(s, prev));
            self.lemma_solution_facts(s);
            assert(before[t] == BLACK ==> s[t] == BLACK);
            assert(before[t + 1] == BLACK ==> s[t + 1] == BLACK);
            assert(before[t + w] == BLACK ==> s[t + w] == BLACK);
            assert(before[t + w + 1] == BLACK ==> s[t + w + 1] == BLACK);
            assert(s[i] == BLACK || s[i] == WHITE);
            if s[i] == BLACK {
                assert(black_block(g, s, t));
            }
        }
    }

    /// The 2x2 rule on the block with top-left corner `(x0, y0)`, if the board
    /// has that block: a full black block is a contradiction, three black
    /// cells force the fourth white.
    fn check_window(
        &self,
        state: &mut Vec<u8>,
        x0: usize,
        y0: usize,
        changed: &mut bool,
        dirty: &mut bool,
    ) -> (ok: bool)
        requires
            self.wf(),
            old(state)@.len() == self.grid.size(),
            x0 < self.grid.w,
            y0 < self.grid.h,
        ensures
            whitens(old(state)@, final(state)@),
            self.keeps_solutions(old(state)@, final(state)@),
            !ok ==> self.no_solution(old(state)@),
            ok && x0 + 1 < self.grid.w && y0 + 1 < self.grid.h ==> !black_block(
                &self.grid,
                final(state)@,
                y0 * self.grid.w + x0,
            ),
            ok && x0 + 1 < self.grid.w && y0 + 1 < self.grid.h ==> !three_open(
                &self.grid,
                final(state)@,
                y0 * self.grid.w + x0,
            ),
            !ok <==> x0 + 1 < self.grid.w && y0 + 1 < self.grid.h && black_block(
                &self.grid,
                old(state)@,
                y0 * self.grid.w + x0,
            ),
            !ok ==> final(state)@ == old(state)@,
            ok ==> forall|i: int|
                0 <= i < old(state)@.len() ==> #[trigger] final(state)@[i] == if window_whitens(
                    &self.grid,
                    old(state)@,
                    y0 * self.grid.w + x0,
                    i,
                ) {
                    WHITE
                } else {
                    old(state)@[i]
                },
            *old(changed) ==> *final(changed),
            *final(changed) ==> *old(changed) || count_unknown(final(state)@) < count_unknown(old(state)@),
            *old(dirty) ==> *final(dirty),
            count_unknown(final(state)@) <= count_unknown(old(state)@),
            final(state)@ == old(state)@ || (*final(changed) && *final(dirty) && count_unknown(
                final(state)@,
            ) < count_unknown(old(state)@)),
    {
        proof {
            reveal(Scratch::ready);
            reveal(Scratch::analysis_ok);
            reveal(queue_covers);
            reveal(Solver::best_ok);
            reveal(Solver::clue_settled);
            reveal(Solver::keeps_solutions);
            reveal(Solver::no_solution);
        }
        let w = self.grid.w;
        let h = self.grid.h;
        if x0 + 1 >= w || y0 + 1 >= h {
            proof {
                lemma_idx_coords(w as int, h as int, x0 as int, y0 as int);
                assert(!block_at(&self.grid, y0 * w + x0));
            }
            return true;
        }
        let ghost g = &self.grid;
        let ghost before = state@;
        proof {
            lemma_idx_coords(w as int, h as int, x0 as int, y0 as int);
            lemma_idx_coords(w as int, h as int, x0 as int + 1, y0 as int + 1);
            assert((y0 + 1) * w + x0 + 1 == y0 * w + x0 + w + 1) by (nonlinear_arith);
        }
        let t = self.grid.idx(x0, y0);
        let quad: [usize; 4] = [t, t + 1, t + w, t + w + 1];
        let mut blacks: usize = 0;
        let mut q: usize = 0;
        while q < 4
            invariant
                q <= 4,
                blacks <= q,
                state@ == before,
                before.len() == g.size(),
                t + w + 1 < g.size(),
                quad@ == seq![t, (t + 1) as usize, (t + w) as usize, (t + w + 1) as usize],
                blacks == quad_count(before, quad@, q as int),
            decreases 4 - q,
        {
            proof {
                reveal(Scratch::ready);
                reveal(Scratch::analysis_ok);
                reveal(queue_covers);
                reveal(Solver::best_ok);
                reveal(Solver::clue_settled);
                reveal(Solver::keeps_solutions);
                reveal(Solver::no_solution);
            }
            if state[quad[q]] == BLACK {
                blacks = blacks + 1;
            }
            q = q + 1;
        }
        proof {
            reveal_with_fuel(quad_count, 5);
            assert(blacks == block_count(g, before, t as int));
            assert(block_at(g, t as int));
        }
        if blacks == 4 {
            proof {
                assert(black_block(g, before, t as int));
                assert forall|s: Seq<u8>| #[trigger] is_solution(g, s, self.clues@) implies !agrees(
                    s,
                    before,
                ) by {
                    if agrees(s, before) {
                        assert(black_block(g, s, t as int));
                    }
                }
            }
            return false;
        }
        if blacks == 3 {
            let mut q: usize = 0;
            while q < 4
                invariant
                    q <= 4,
                    quad@ == seq![t, (t + 1) as usize, (t + w) as usize, (t + w + 1) as usize],
                    t + w + 1 < g.size(),
                    self.wf(),
                    block_at(g, t as int),
                    g == &self.grid,
                    w == g.w,
                    before.len() == g.size(),
                    block_count(g, before, t as int) == 3,
                    whitens(before, state@),
                    self.keeps_solutions(before, state@),
                    forall|j: int| 0 <= j < q ==> #[trigger] state@[quad@[j] as int] != UNKNOWN,
                    forall|i: int|
                        0 <= i < before.len() ==> #[trigger] state@[i] == if before[i] == UNKNOWN && in_quad(
                            quad@,
                            q as int,
                            i,
                        ) {
                            WHITE
                        } else {
                            before[i]
                        },
                    *old(changed) ==> *changed,
                    *changed ==> *old(changed) || count_unknown(state@) < count_unknown(before),
                    *old(dirty) ==> *dirty,
                    count_unknown(state@) <= count_unknown(before),
                    state@ == before || (*changed && *dirty && count_unknown(state@) < count_unknown(
                        before,
                    )),
                decreases 4 - q,
            {
                proof {
                    reveal(Scratch::ready);
                    reveal(Scratch::analysis_ok);
                    reveal(queue_covers);
                    reveal(Solver::best_ok);
                    reveal(Solver::clue_settled);
                    reveal(Solver::keeps_solutions);
                    reveal(Solver::no_solution);
                }
                let i = quad[q];
                if state[i] == UNKNOWN {
                    let ghost prev = state@;
                    proof {
                        assert(before[i as int] == UNKNOWN);
                        assert(covers(g, t as int, i as int));
                        self.lemma_window_white(before, prev, t as int, i as int);
                        lemma_count_unknown_update(prev, i as int, WHITE);
                    }
                    state.set(i, WHITE);
                    *changed = true;
                    *dirty = true;
                }
                q = q + 1;
            }
            proof {
                assert(state@[quad@[0] as int] != UNKNOWN);
                assert(state@[quad@[1] as int] != UNKNOWN);
                assert(state@[quad@[2] as int] != UNKNOWN);
                assert(state@[quad@[3] as int] != UNKNOWN);
                assert(!three_open(g, state@, t as int));
                assert(!black_block(g, before, t as int));
                assert forall|i: int| 0 <= i < before.len() implies #[trigger] state@[i] == if window_whitens(
                    g,
                    before,
                    t as int,
                    i,
                ) {
                    WHITE
                } else {
                    before[i]
                } by {
                    assert(in_quad(quad@, 4, i) == covers(g, t as int, i));
                }
            }
        } else {
            proof {
                assert(!three_open(g, state@, t as int));
                assert(!black_block(g, before, t as int));
            }
        }
        true
    }
}

impl Solver {
    /// Check the four 2x2 windows containing `cell`: a full black block is a
    /// contradiction, three black cells force the fourth white.
    pub(crate) fn check_2x2(
        &self,
        state: &mut Vec<u8>,
        cell: usize,
        changed: &mut bool,
        dirty: &mut bool,
    ) -> (ok: bool)
        requires
            self.wf(),
            old(state)@.len() == self.grid.size(),
            cell < self.grid.size(),
        ensures
            whitens(old(state)@, final(state)@),
            self.keeps_solutions(old(state)@, final(state)@),
            !ok ==> self.no_solution(old(state)@),
            !ok <==> exists|t: int|
                #[trigger] black_block(&self.grid, old(state)@, t) && covers(&self.grid, t, cell as int),
            ok ==> forall|i: int|
                0 <= i < old(state)@.len() ==> #[trigger] final(state)@[i] == if around_whitens(
                    &self.grid,
                    old(state)@,
                    cell as int,
                    i,
                ) {
                    WHITE
                } else {
                    old(state)@[i]
                },
            ok ==> forall|t: int|
                #[trigger] black_block(&self.grid, final(state)@, t) ==> !covers(
                    &self.grid,
                    t,
                    cell as int,
                ),
            ok ==> forall|t: int|
                #[trigger] three_open(&self.grid, final(state)@, t) ==> !covers(
                    &self.grid,
                    t,
                    cell as int,
                ),
            *old(changed) ==> *final(changed),
            *final(changed) ==> *old(changed) || count_unknown(final(state)@) < count_unknown(old(state)@),
            *old(dirty) ==> *final(dirty),
            count_unknown(final(state)@) <= count_unknown(old(state)@),
            final(state)@ == old(state)@ || (*final(changed) && *final(dirty) && count_unknown(
                final(state)@,
            ) < count_unknown(old(state)@)),
    {
        proof {
            reveal(Scratch::ready);
            reveal(Scratch::analysis_ok);
            reveal(queue_covers);
            reveal(Solver::best_ok);
            reveal(Solver::clue_settled);
            reveal(Solver::keeps_solutions);
            reveal(Solver::no_solution);
        }
        let ghost g = &self.grid;
        let ghost s0 = state@;
        if self.grid.w < 2 || self.grid.h < 2 {
            proof {
                assert forall|t: int| #[trigger] black_block(g, state@, t) implies !covers(
                    g,
                    t,
                    cell as int,
                ) by {
                    lemma_cell_coords(g.w as int, g.h as int, t);
                }
                assert forall|t: int| #[trigger] three_open(g, state@, t) implies !covers(
                    g,
                    t,
                    cell as int,
                ) by {
                    lemma_cell_coords(g.w as int, g.h as int, t);
                }
            }
            return true;
        }
        let (x, y) = self.grid.xy(cell);
        proof {
            lemma_cell_coords(g.w as int, g.h as int, cell as int);
            assert(cell == y * g.w + x);
        }
        if y >= 1 && x >= 1 {
            if !self.check_window(state, x - 1, y - 1, changed, dirty) {
                proof {
                    let t = (y - 1) * g.w + (x - 1);
                    assert(t + g.w + 1 == cell) by (nonlinear_arith)
                        requires
                            t == (y - 1) * g.w + (x - 1),
                            cell == y * g.w + x,
                            y >= 1,
                    ;
                    assert(black_block(g, s0, t) && covers(g, t, cell as int));
                }
                return false;
            }
        }
        let ghost s1 = state@;
        let ghost t1 = (y - 1) * g.w + (x - 1);
        let ghost t2 = (y - 1) * g.w + x;
        let ghost t3 = y * g.w + (x - 1);
        let ghost t4 = y * g.w + x;
        proof {
            assert(forall|i: int|
                0 <= i < s0.len() ==> #[trigger] s1[i] == if y >= 1 && x >= 1 && window_whitens(g, s0, t1, i) {
                    WHITE
                } else {
                    s0[i]
                });
        }
        if y >= 1 {
            if !self.check_window(state, x, y - 1, changed, dirty) {
                proof {
                    let t = (y - 1) * g.w + x;
                    assert(t + g.w == cell) by (nonlinear_arith)
                        requires
                            t == (y - 1) * g.w + x,
                            cell == y * g.w + x,
                            y >= 1,
                    ;
                    lemma_whitens_block(g, s0, s1, t);
                    assert(black_block(g, s0, t) && covers(g, t, cell as int));
                }
                return false;
            }
        }
        let ghost s2 = state@;
        proof {
            assert(forall|i: int|
                0 <= i < s0.len() ==> #[trigger] s2[i] == if y >= 1 && window_whitens(g, s1, t2, i) {
                    WHITE
                } else {
                    s1[i]
                });
        }
        if x >= 1 {
            if !self.check_window(state, x - 1, y, changed, dirty) {
                proof {
                    let t = y * g.w + (x - 1);
                    lemma_whitens_trans(s0, s1, s2);
                    lemma_whitens_block(g, s0, s2, t);
                    assert(black_block(g, s0, t) && covers(g, t, cell as int));
                }
                return false;
            }
        }
        let ghost s3 = state@;
        proof {
            assert(forall|i: int|
                0 <= i < s0.len() ==> #[trigger] s3[i] == if x >= 1 && window_whitens(g, s2, t3, i) {
                    WHITE
                } else {
                    s2[i]
                });
        }
        if !self.check_window(state, x, y, changed, dirty) {
            proof {
                let t = y * g.w + x;
                lemma_whitens_trans(s0, s1, s2);
                lemma_whitens_trans(s0, s2, s3);
                lemma_whitens_block(g, s0, s3, t);
                assert(black_block(g, s0, t) && covers(g, t, cell as int));
            }
            return false;
        }
        proof {
            let w = g.w as int;
            let h = g.h as int;
            lemma_whitens_trans(s0, s1, s2);
            lemma_whitens_trans(s0, s2, s3);
            lemma_whitens_trans(s0, s3, state@);
            lemma_whitens_trans(s1, s2, s3);
            lemma_whitens_trans(s1, s3, state@);
            lemma_whitens_trans(s2, s3, state@);
            assert forall|t: int| #[trigger] black_block(g, state@, t) implies !covers(g, t, cell as int)
                by {
                if covers(g, t, cell as int) {
                    lemma_block_in_range(g, t);
                    lemma_cell_coords(w, h, t);
                    let tx = col(w, t);
                    let ty = row(w, t);
                    assert(t == ty * w + tx);
                    if cell == t {
                    } else if cell == t + 1 {
                        lemma_whitens_block(g, s3, state@, t);
                    } else if cell == t + w {
                        lemma_whitens_block(g, s2, state@, t);
                    } else {
                        lemma_whitens_block(g, s1, state@, t);
                    }
                }
            }
            assert forall|t: int| #[trigger] three_open(g, state@, t) implies !covers(g, t, cell as int)
                by {
                if covers(g, t, cell as int) {
                    lemma_block_in_range(g, t);
                    lemma_cell_coords(w, h, t);
                    let tx = col(w, t);
                    let ty = row(w, t);
                    assert(t == ty * w + tx);
                    if cell == t {
                    } else if cell == t + 1 {
                        lemma_whitens_three(g, s3, state@, t);
                    } else if cell == t + w {
                        lemma_whitens_three(g, s2, state@, t);
                    } else {
                        lemma_whitens_three(g, s1, state@, t);
                    }
                }
            }
        }
        proof {
            lemma_whitens_trans(s0, s3, state@);
            assert forall|t: int| #[trigger] black_block(g, s0, t) implies !covers(g, t, cell as int) by {
                lemma_whitens_keeps_block(g, s0, state@, t);
            }
            let w = g.w as int;
            if y >= 1 {
                assert(t1 + w + 1 == cell && t2 + w == cell) by (nonlinear_arith)
                    requires
                        t1 == (y - 1) * w + (x - 1),
                        t2 == (y - 1) * w + x,
                        cell == y * w + x,
                        y >= 1,
                ;
            }
            assert forall|i: int| 0 <= i < s0.len() implies #[trigger] state@[i] == if around_whitens(
                g,
                s0,
                cell as int,
                i,
            ) {
                WHITE
            } else {
                s0[i]
            } by {
                lemma_whitens_trans(s0, s1, s2);
                lemma_whitens_trans(s0, s2, s3);
                lemma_window_whitens_later(g, s0, s1, t2, i);
                lemma_window_whitens_later(g, s0, s2, t3, i);
                lemma_window_whitens_later(g, s0, s3, t4, i);
                assert(s1[i] == s1[i] && s2[i] == s2[i] && s3[i] == s3[i]);
                let direct = (y >= 1 && x >= 1 && window_whitens(g, s0, t1, i)) || (y >= 1
                    && window_whitens(g, s0, t2, i)) || (x >= 1 && window_whitens(g, s0, t3, i))
                    || window_whitens(g, s0, t4, i);
                if direct {
                    if y >= 1 && x >= 1 && window_whitens(g, s0, t1, i) {
                        assert(covers(g, t1, cell as int));
                    } else if y >= 1 && window_whitens(g, s0, t2, i) {
                        assert(covers(g, t2, cell as int));
                    } else if x >= 1 && window_whitens(g, s0, t3, i) {
                        assert(covers(g, t3, cell as int));
                    } else {
                        assert(covers(g, t4, cell as int));
                    }
                    assert(around_whitens(g, s0, cell as int, i));
                }
                if around_whitens(g, s0, cell as int, i) {
                    let t = choose|t: int| covers(g, t, cell as int) && #[trigger] window_whitens(g, s0, t, i);
                    lemma_block_in_range(g, t);
                    lemma_cell_coords(w, g.h as int, t);
                    let tx = col(w, t);
                    let ty = row(w, t);
                    assert(t == ty * w + tx);
                    lemma_block_holding(w, x as int, y as int, tx, ty);
                    assert(direct);
                }
            }
        }
        true
    }
}

impl Solver {
    /// Two black cells of different components of the cells that are not
    /// empty can never be joined.
    proof fn lemma_split_blacks(&self, st: Seq<u8>, sc: &Scratch, a: int, b: int)
        requires
            self.wf(),
            st.len() == self.grid.size(),
            sc.analysis_ok(&self.grid, st),
            0 <= a < st.len(),
            0 <= b < st.len(),
            st[a] == BLACK,
            st[b] == BLACK,
            sc.comp@[a] != sc.comp@[b],
        ensures
            self.no_solution(st),
    {
        reveal(Scratch::ready);
        reveal(Scratch::analysis_ok);
        reveal(queue_covers);
        reveal(Solver::best_ok);
        reveal(Solver::clue_settled);
        reveal(Solver::keeps_solutions);
        reveal(Solver::no_solution);
        let g = &self.grid;
        assert forall|s: Seq<u8>| #[trigger] is_solution(g, s, self.clues@) implies !agrees(s, st) by {
            if agrees(s, st) {
                assert(s[a] == BLACK && s[b] == BLACK);
                assert(connected(g, walls(s), a, b));
                lemma_walls_within(g, s, st);
                lemma_connected_mono(g, walls(s), potential(st), a, b);
                assert(potential(st)[a] && potential(st)[b]);
            }
        }
    }

    /// When the black cells all lie in the main component, a cell outside it
    /// is empty in every solution.
    proof fn lemma_outside_main(&self, orig: Seq<u8>, st: Seq<u8>, sc: &Scratch, prev: Seq<u8>, i: int)
        requires
            self.wf(),
            st.len() == self.grid.size(),
            prev.len() == st.len(),
            sc.analysis_ok(&self.grid, st),
            sc.comp_black_groups >= 1,
            self.keeps_solutions(orig, st),
            self.keeps_solutions(orig, prev),
            0 <= i < st.len(),
            st[i] != WHITE,
            sc.comp@[i] != sc.main_comp,
        ensures
            self.keeps_solutions(orig, prev.update(i, WHITE)),
    {
        reveal(Scratch::ready);
        reveal(Scratch::analysis_ok);
        reveal(queue_covers);
        reveal(Solver::best_ok);
        reveal(Solver::clue_settled);
        reveal(Solver::keeps_solutions);
        reveal(Solver::no_solution);
        let g = &self.grid;
        let c = sc.main_comp as int;
        assert(sc.has_black@[c]);
        let b = choose|j: int| 0 <= j < g.size() && st[j] == BLACK && #[trigger] sc.comp@[j] == c;
        assert forall|s: Seq<u8>| #[trigger] is_solution(g, s, self.clues@) && agrees(s, orig)
            implies agrees(s, prev.update(i, WHITE)) by {
            assert(agrees(s, st));
            assert(agrees(s, prev));
            assert(s[b] == BLACK);
            assert(is_filled(s));
            assert(s[i] == BLACK || s[i] == WHITE);
            if s[i] == BLACK {
                assert(connected(g, walls(s), b, i));
                lemma_walls_within(g, s, st);
                lemma_connected_mono(g, walls(s), potential(st), b, i);
                assert(potential(st)[b] && potential(st)[i]);
            }
        }
    }

    /// Rebuild the component analysis from scratch.
    fn recount(&self, state: &Vec<u8>, scratch: &mut Scratch)
        requires
            self.wf(),
            state@.len() == self.grid.size(),
            old(scratch).sized(self.grid.size()),
        ensures
            final(scratch).sized(self.grid.size()),
            final(scratch).analysis_ok(&self.grid, state@),
            !final(scratch).comp_dirty,
            final(scratch).pending_blacks@.len() == 0,
            final(scratch).new_blacks == old(scratch).new_blacks,
            final(scratch).best == old(scratch).best,
    {
        proof {
            reveal(Scratch::ready);
            reveal(Scratch::analysis_ok);
            reveal(queue_covers);
            reveal(Solver::best_ok);
            reveal(Solver::clue_settled);
            reveal(Solver::keeps_solutions);
            reveal(Solver::no_solution);
        }
        let ghost g = &self.grid;
        let ghost st = state@;
        let n = state.len();
        let keep = potential_mask(state.as_slice());
        let (count, starts) = components(&self.grid, &keep, &mut scratch.comp);
        scratch.starts = starts;
        let mut has_black: Vec<bool> = vec![false; count];
        let mut groups: usize = 0;
        let mut main: usize = usize::MAX;
        proof {
            assert(has_black@ =~= Seq::new(count as nat, |i: int| false));
            lemma_count_true_zero(count as nat);
        }
        let mut i: usize = 0;
        while i < n
            invariant
                self.wf(),
                g == &self.grid,
                n == g.size(),
                state@ == st,
                st.len() == n,
                is_labelling(g, potential(st), scratch.comp@, count as int, scratch.starts@),
                has_black@.len() == count,
                i <= n,
                forall|c: int|
                    0 <= c < count ==> (#[trigger] has_black@[c] <==> exists|j: int|
                        0 <= j < i && st[j] == BLACK && #[trigger] scratch.comp@[j] == c),
                groups == count_true(has_black@),
                groups >= 1 ==> main < count && has_black@[main as int],
            decreases n - i,
        {
            proof {
                reveal(Scratch::ready);
                reveal(Scratch::analysis_ok);
                reveal(queue_covers);
                reveal(Solver::best_ok);
                reveal(Solver::clue_settled);
                reveal(Solver::keeps_solutions);
                reveal(Solver::no_solution);
            }
            if state[i] == BLACK {
                let c = scratch.comp[i];
                proof {
                    assert(potential(st)[i as int]);
                }
                if !has_black[c] {
                    proof {
                        lemma_count_true_set(has_black@, c as int);
                        lemma_count_true_bound(has_black@);
                    }
                    has_black.set(c, true);
                    groups = groups + 1;
                    main = c;
                }
                proof {
                    assert forall|c2: int|
                        0 <= c2 < count implies (#[trigger] has_black@[c2] <==> exists|j: int|
                            0 <= j < i + 1 && st[j] == BLACK && #[trigger] scratch.comp@[j] == c2) by {
                        if c2 == c {
                            assert(st[i as int] == BLACK && scratch.comp@[i as int] == c2);
                        }
                    }
                }
            }
            i = i + 1;
        }
        scratch.has_black = has_black;
        scratch.comp_black_groups = groups;
        scratch.main_comp = main;
        scratch.pending_blacks.clear();
        scratch.comp_dirty = false;
        proof {
            assert forall|j: int|
                0 <= j < g.size() && #[trigger] st[j] == BLACK implies scratch.has_black@[
                scratch.comp@[j] as int] || scratch.pending_blacks@.contains(j as usize) by {
                assert(potential(st)[j]);
                let c = scratch.comp@[j] as int;
                assert(0 <= c < count);
                assert(st[j] == BLACK && scratch.comp@[j] == c);
            }
            assert(scratch.analysis_ok(g, st));
        }
    }

    /// Count the components of the cells that turned black since the last
    /// analysis.
    fn count_pending(&self, state: &Vec<u8>, scratch: &mut Scratch)
        requires
            self.wf(),
            state@.len() == self.grid.size(),
            old(scratch).sized(self.grid.size()),
            !old(scratch).comp_dirty,
            old(scratch).analysis_ok(&self.grid, state@),
        ensures
            final(scratch).sized(self.grid.size()),
            final(scratch).analysis_ok(&self.grid, state@),
            !final(scratch).comp_dirty,
            final(scratch).pending_blacks@.len() == 0,
            final(scratch).new_blacks == old(scratch).new_blacks,
            final(scratch).best == old(scratch).best,
    {
        proof {
            reveal(Scratch::ready);
            reveal(Scratch::analysis_ok);
            reveal(queue_covers);
            reveal(Solver::best_ok);
            reveal(Solver::clue_settled);
            reveal(Solver::keeps_solutions);
            reveal(Solver::no_solution);
        }
        let ghost g = &self.grid;
        let ghost st = state@;
        let n = state.len();
        let mut k: usize = 0;
        let len = scratch.pending_blacks.len();
        while k < len
            invariant
                self.wf(),
                g == &self.grid,
                n == g.size(),
                state@ == st,
                st.len() == n,
                !scratch.comp_dirty,
                scratch.sized(n as int),
                scratch.new_blacks == old(scratch).new_blacks,
                scratch.best == old(scratch).best,
                len == scratch.pending_blacks@.len(),
                k <= len,
                is_labelling(g, potential(st), scratch.comp@, scratch.has_black@.len() as int, scratch.starts@),
                forall|c: int|
                    0 <= c < scratch.has_black@.len() && #[trigger] scratch.has_black@[c] ==> exists|j: int|
                        0 <= j < g.size() && st[j] == BLACK && #[trigger] scratch.comp@[j] == c,
                forall|j: int|
                    0 <= j < g.size() && #[trigger] st[j] == BLACK ==> scratch.has_black@[scratch.comp@[j] as int]
                        || exists|q: int| k <= q < len && scratch.pending_blacks@[q] == j,
                forall|q: int|
                    0 <= q < len ==> st[#[trigger] scratch.pending_blacks@[q] as int] == BLACK,
                scratch.comp_black_groups == count_true(scratch.has_black@),
                scratch.comp_black_groups >= 1 ==> scratch.main_comp < scratch.has_black@.len()
                    && scratch.has_black@[scratch.main_comp as int],
            decreases len - k,
        {
            proof {
                reveal(Scratch::ready);
                reveal(Scratch::analysis_ok);
                reveal(queue_covers);
                reveal(Solver::best_ok);
                reveal(Solver::clue_settled);
                reveal(Solver::keeps_solutions);
                reveal(Solver::no_solution);
            }
            let cell = scratch.pending_blacks[k];
            let cid = scratch.comp[cell];
            proof {
                assert(st[cell as int] == BLACK);
                assert(potential(st)[cell as int]);
            }
            if cid != usize::MAX && !scratch.has_black[cid] {
                proof {
                    lemma_count_true_set(scratch.has_black@, cid as int);
                    lemma_count_true_bound(scratch.has_black@);
                    lemma_count_true_bound(scratch.has_black@.update(cid as int, true));
                }
                scratch.has_black.set(cid, true);
                scratch.comp_black_groups = scratch.comp_black_groups + 1;
                scratch.main_comp = cid;
                proof {
                    assert(st[cell as int] == BLACK && scratch.comp@[cell as int] == cid);
                }
            }
            proof {
                assert forall|j: int|
                    0 <= j < g.size() && #[trigger] st[j] == BLACK implies scratch.has_black@[
                    scratch.comp@[j] as int] || exists|q: int|
                        k + 1 <= q < len && scratch.pending_blacks@[q] == j by {
                    if !scratch.has_black@[scratch.comp@[j] as int] {
                        let q = choose|q: int| k <= q < len && scratch.pending_blacks@[q] == j;
                        if q == k {
                            assert(scratch.comp@[j] == cid);
                        }
                    }
                }
            }
            k = k + 1;
        }
        scratch.pending_blacks.clear();
        proof {
            assert(scratch.pending_blacks@.len() == 0);
            assert forall|i: int| 0 <= i < g.size() && #[trigger] st[i] == BLACK implies scratch.has_black@[scratch.comp@[i] as int] by {
                if !scratch.has_black@[scratch.comp@[i] as int] {
                    assert(exists|q: int| k <= q < len && scratch.pending_blacks@[q] == i);
                }
            }
            assert(scratch.analysis_ok(g, st));
        }
    }

    /// Every open cell outside the one component that holds black cells
    /// becomes white.
    fn force_main(&self, state: &mut Vec<u8>, scratch: &mut Scratch, changed: &mut bool)
        requires
            self.wf(),
            old(state)@.len() == self.grid.size(),
            old(scratch).sized(self.grid.size()),
            !old(scratch).comp_dirty,
            old(scratch).analysis_ok(&self.grid, old(state)@),
            old(scratch).comp_black_groups == 1,
            old(scratch).pending_blacks@.len() == 0,
        ensures
            whitens(old(state)@, final(state)@),
            self.keeps_solutions(old(state)@, final(state)@),
            final(scratch).ready(&self.grid, final(state)@),
            final(scratch).comp_black_groups == 1,
            final(scratch).pending_blacks@.len() == 0,
            final(scratch).new_blacks == old(scratch).new_blacks,
            final(scratch).best == old(scratch).best,
            final(state)@ == old(state)@ ==> !final(scratch).comp_dirty,
            *old(changed) ==> *final(changed),
            *final(changed) ==> *old(changed) || count_unknown(final(state)@) < count_unknown(old(state)@),
            count_unknown(final(state)@) <= count_unknown(old(state)@),
            final(state)@ == old(state)@ || (*final(changed) && final(scratch).comp_dirty
                && count_unknown(final(state)@) < count_unknown(old(state)@)),
            forall|i: int|
                0 <= i < old(state)@.len() ==> #[trigger] final(state)@[i] == if old(state)@[i] == UNKNOWN
                    && old(scratch).comp@[i] != old(scratch).main_comp {
                    WHITE
                } else {
                    old(state)@[i]
                },
    {
        proof {
            reveal(Scratch::ready);
            reveal(Scratch::analysis_ok);
            reveal(queue_covers);
            reveal(Solver::best_ok);
            reveal(Solver::clue_settled);
            reveal(Solver::keeps_solutions);
            reveal(Solver::no_solution);
        }
        let ghost g = &self.grid;
        let ghost st = state@;
        let n = state.len();
        let keep = scratch.main_comp;
        let ghost sc0 = *scratch;
        let mut i: usize = 0;
        while i < n
            invariant
                self.wf(),
                g == &self.grid,
                n == g.size(),
                st.len() == n,
                state@.len() == n,
                sc0.analysis_ok(g, st),
                sc0.comp_black_groups == 1,
                keep == sc0.main_comp,
                scratch.comp == sc0.comp,
                scratch.has_black == sc0.has_black,
                scratch.new_blacks == sc0.new_blacks,
                scratch.pending_blacks == sc0.pending_blacks,
                scratch.comp_black_groups == sc0.comp_black_groups,
                scratch.main_comp == sc0.main_comp,
                scratch.best == sc0.best,
                scratch.starts == sc0.starts,
                sc0.sized(n as int),
                scratch.pending_blacks@.len() == 0,
                i <= n,
                whitens(st, state@),
                self.keeps_solutions(st, state@),
                *old(changed) ==> *changed,
                *changed ==> *old(changed) || count_unknown(state@) < count_unknown(st),
                count_unknown(state@) <= count_unknown(st),
                state@ == st ==> !scratch.comp_dirty,
                state@ == st || (*changed && scratch.comp_dirty && count_unknown(state@) < count_unknown(st)),
                forall|j: int|
                    0 <= j < i ==> #[trigger] state@[j] == if st[j] == UNKNOWN && sc0.comp@[j] != keep {
                        WHITE
                    } else {
                        st[j]
                    },
                forall|j: int| i <= j < n ==> #[trigger] state@[j] == st[j],
            decreases n - i,
        {
            proof {
                reveal(Scratch::ready);
                reveal(Scratch::analysis_ok);
                reveal(queue_covers);
                reveal(Solver::best_ok);
                reveal(Solver::clue_settled);
                reveal(Solver::keeps_solutions);
                reveal(Solver::no_solution);
            }
            if state[i] == UNKNOWN && scratch.comp[i] != keep {
                let ghost prev = state@;
                proof {
                    assert(st[i as int] == UNKNOWN);
                    self.lemma_outside_main(st, st, &sc0, prev, i as int);
                    lemma_count_unknown_update(prev, i as int, WHITE);
                }
                state.set(i, WHITE);
                *changed = true;
                scratch.comp_dirty = true;
                proof {
                    assert(state@[i as int] != st[i as int]);
                }
            }
            i = i + 1;
        }
            proof {
            if state@ == st {
                assert(scratch.analysis_ok(g, state@));
            }
        }
    }

    /// Update the component analysis and force the components that cannot
    /// hold black cells to be white.
    pub(crate) fn propagate_connectivity(
        &self,
        state: &mut Vec<u8>,
        scratch: &mut Scratch,
        changed: &mut bool,
    ) -> (ok: bool)
        requires
            self.wf(),
            old(state)@.len() == self.grid.size(),
            old(scratch).ready(&self.grid, old(state)@),
        ensures
            whitens(old(state)@, final(state)@),
            self.keeps_solutions(old(state)@, final(state)@),
            !ok ==> self.no_solution(old(state)@),
            final(scratch).ready(&self.grid, final(state)@),
            final(scratch).new_blacks == old(scratch).new_blacks,
            final(scratch).best == old(scratch).best,
            ok ==> final(scratch).pending_blacks@.len() == 0,
            ok && !final(scratch).comp_dirty ==> final(scratch).comp_black_groups <= 1,
            ok && final(state)@ == old(state)@ ==> !final(scratch).comp_dirty,
            *old(changed) ==> *final(changed),
            *final(changed) ==> *old(changed) || count_unknown(final(state)@) < count_unknown(old(state)@),
            count_unknown(final(state)@) <= count_unknown(old(state)@),
            final(state)@ == old(state)@ || (*final(changed) && final(scratch).comp_dirty
                && count_unknown(final(state)@) < count_unknown(old(state)@)),
            ok == blacks_linked(&self.grid, old(state)@),
            ok ==> forall|i: int|
                0 <= i < old(state)@.len() ==> #[trigger] final(state)@[i] == if old(state)@[i] == UNKNOWN
                    && cut_off(&self.grid, old(state)@, i) {
                    WHITE
                } else {
                    old(state)@[i]
                },
    {
        proof {
            reveal(Scratch::ready);
            reveal(Scratch::analysis_ok);
            reveal(queue_covers);
            reveal(Solver::best_ok);
            reveal(Solver::clue_settled);
            reveal(Solver::keeps_solutions);
            reveal(Solver::no_solution);
        }
        let ghost g = &self.grid;
        let ghost st = state@;
        if scratch.comp_dirty {
            self.recount(state, scratch);
        } else if scratch.pending_blacks.len() > 0 {
            self.count_pending(state, scratch);
        }
        proof {
            assert(scratch.analysis_ok(g, st));
            assert(scratch.pending_blacks@.len() == 0);
        }
        if scratch.comp_black_groups > 1 {
            proof {
                let (a, b) = lemma_count_true_witness(scratch.has_black@);
                let ia = choose|j: int| 0 <= j < g.size() && st[j] == BLACK && #[trigger] scratch.comp@[j] == a;
                let ib = choose|j: int| 0 <= j < g.size() && st[j] == BLACK && #[trigger] scratch.comp@[j] == b;
                self.lemma_split_blacks(st, scratch, ia, ib);
                assert(potential(st)[ia] && potential(st)[ib]);
                assert(!connected(g, potential(st), ia, ib));
                assert(!blacks_linked(g, st));
            }
            return false;
        }
        let ghost sc1 = *scratch;
        proof {
            self.lemma_linked(st, scratch);
        }
        if scratch.comp_black_groups == 1 {
            self.force_main(state, scratch, changed);
            proof {
                let m = sc1.main_comp as int;
                let b0 = choose|j: int| 0 <= j < g.size() && st[j] == BLACK && #[trigger] sc1.comp@[j] == m;
                assert forall|i: int| 0 <= i < st.len() implies #[trigger] state@[i] == if st[i] == UNKNOWN
                    && cut_off(g, st, i) {
                    WHITE
                } else {
                    st[i]
                } by {
                    if st[i] == UNKNOWN {
                        assert(potential(st)[i] && potential(st)[b0]);
                        if sc1.comp@[i] != sc1.main_comp {
                            assert(!connected(g, potential(st), b0, i));
                            assert(cut_off(g, st, i));
                        } else {
                            assert forall|b: int| 0 <= b < st.len() && st[b] == BLACK implies connected(
                                g,
                                potential(st),
                                b,
                                i,
                            ) by {
                                assert(potential(st)[b]);
                                assert(sc1.has_black@[sc1.comp@[b] as int] || sc1.pending_blacks@.contains(b as usize));
                                if sc1.comp@[b] != sc1.main_comp {
                                    lemma_count_true_two(sc1.has_black@, sc1.comp@[b] as int, m);
                                }
                            }
                            assert(!cut_off(g, st, i));
                        }
                    }
                }
            }
        } else {
            proof {
                assert forall|i: int| 0 <= i < st.len() implies !cut_off(g, st, i) by {
                    if cut_off(g, st, i) {
                        let b = choose|b: int| 0 <= b < st.len() && st[b] == BLACK && !#[trigger] connected(g, potential(st), b, i);
                        assert(sc1.has_black@[sc1.comp@[b] as int] || sc1.pending_blacks@.contains(b as usize));
                        lemma_count_true_one(sc1.has_black@, sc1.comp@[b] as int);
                    }
                }
            }
        }
        true
    }
}

impl Solver {
    /// Run the 2x2 rule around every queued cell, emptying the queue. Only
    /// cells that just turned black can have completed a block, so the
    /// callers queue the cells they make black.
    fn drain_blacks(
        &self,
        state: &mut Vec<u8>,
        scratch: &mut Scratch,
        changed: &mut bool,
        black_added: &mut bool,
        white_added: &mut bool,
    ) -> (ok: bool)
        requires
            self.wf(),
            old(state)@.len() == self.grid.size(),
            old(scratch).ready(&self.grid, old(state)@),
        ensures
            whitens(old(state)@, final(state)@),
            self.keeps_solutions(old(state)@, final(state)@),
            !ok ==> self.no_solution(old(state)@),
            final(scratch).ready(&self.grid, final(state)@),
            ok ==> final(scratch).new_blacks@.len() == 0,
            ok && queue_covers(&self.grid, old(state)@, old(scratch).new_blacks@) ==> forall|t: int|
                !#[trigger] black_block(&self.grid, final(state)@, t),
            ok && queue_covers3(&self.grid, old(state)@, old(scratch).new_blacks@) ==> forall|t: int|
                !#[trigger] three_open(&self.grid, final(state)@, t),
            final(scratch).pending_blacks == old(scratch).pending_blacks,
            final(scratch).comp_black_groups == old(scratch).comp_black_groups,
            final(scratch).best == old(scratch).best,
            old(scratch).comp_dirty ==> final(scratch).comp_dirty,
            *old(changed) ==> *final(changed),
            *final(changed) ==> *old(changed) || count_unknown(final(state)@) < count_unknown(old(state)@),
            *old(black_added) ==> *final(black_added),
            count_unknown(final(state)@) <= count_unknown(old(state)@),
            final(state)@ == old(state)@ || (*final(changed) && final(scratch).comp_dirty
                && count_unknown(final(state)@) < count_unknown(old(state)@)),
    {
        proof {
            reveal(Scratch::ready);
            reveal(Scratch::analysis_ok);
            reveal(queue_covers);
            reveal(Solver::best_ok);
            reveal(Solver::clue_settled);
            reveal(Solver::keeps_solutions);
            reveal(Solver::no_solution);
        }
        let ghost g = &self.grid;
        let ghost st = state@;
        let ghost sc0 = *scratch;
        let ghost covered = queue_covers(g, st, scratch.new_blacks@);
        let ghost covered3 = queue_covers3(g, st, scratch.new_blacks@);
        loop
            invariant
                self.wf(),
                g == &self.grid,
                st == old(state)@,
                sc0 == *old(scratch),
                st.len() == g.size(),
                state@.len() == g.size(),
                scratch.ready(g, state@),
                whitens(st, state@),
                self.keeps_solutions(st, state@),
                covered ==> queue_covers(g, state@, scratch.new_blacks@),
                covered3 ==> queue_covers3(g, state@, scratch.new_blacks@),
                scratch.pending_blacks == sc0.pending_blacks,
                scratch.comp_black_groups == sc0.comp_black_groups,
                scratch.best == sc0.best,
                sc0.comp_dirty ==> scratch.comp_dirty,
                *old(changed) ==> *changed,
                *changed ==> *old(changed) || count_unknown(state@) < count_unknown(st),
                *old(black_added) ==> *black_added,
                count_unknown(state@) <= count_unknown(st),
                state@ == st || (*changed && scratch.comp_dirty && count_unknown(state@)
                    < count_unknown(st)),
            ensures
                scratch.new_blacks@.len() == 0,
                state@.len() == g.size(),
                scratch.ready(g, state@),
                whitens(st, state@),
                self.keeps_solutions(st, state@),
                covered ==> queue_covers(g, state@, scratch.new_blacks@),
                covered3 ==> queue_covers3(g, state@, scratch.new_blacks@),
                scratch.pending_blacks == sc0.pending_blacks,
                scratch.comp_black_groups == sc0.comp_black_groups,
                scratch.best == sc0.best,
                sc0.comp_dirty ==> scratch.comp_dirty,
                *old(changed) ==> *changed,
                *changed ==> *old(changed) || count_unknown(state@) < count_unknown(st),
                *old(black_added) ==> *black_added,
                count_unknown(state@) <= count_unknown(st),
                state@ == st || (*changed && scratch.comp_dirty && count_unknown(state@)
                    < count_unknown(st)),
            decreases scratch.new_blacks@.len(),
        {
            proof {
                reveal(Scratch::ready);
                reveal(Scratch::analysis_ok);
                reveal(queue_covers);
                reveal(Solver::best_ok);
                reveal(Solver::clue_settled);
                reveal(Solver::keeps_solutions);
                reveal(Solver::no_solution);
            }
            let ghost q0 = scratch.new_blacks@;
            let ghost s1 = state@;
            match scratch.new_blacks.pop() {
                None => {
                    break;
                },
                Some(cell) => {
                    proof {
                        assert(cell == q0[q0.len() - 1]);
                        assert(scratch.new_blacks@ == q0.drop_last());
                    }
                    *black_added = true;
                    if !self.check_2x2(state, cell, changed, &mut scratch.comp_dirty) {
                        proof {
                            lemma_whitens_trans(st, s1, state@);
                            lemma_keeps_trans(self, st, s1, state@);
                        }
                        return false;
                    }
                    *white_added = scratch.comp_dirty;
                    proof {
                        lemma_whitens_trans(st, s1, state@);
                        if covered {
                            assert forall|t: int| #[trigger] black_block(g, state@, t) implies exists|j: int|
                                0 <= j < scratch.new_blacks@.len() && covers(
                                    g,
                                    t,
                                    #[trigger] scratch.new_blacks@[j] as int,
                                ) by {
                                lemma_whitens_block(g, s1, state@, t);
                                let j = choose|j: int| 0 <= j < q0.len() && covers(g, t, #[trigger] q0[j] as int);
                                assert(j != q0.len() - 1);
                                assert(scratch.new_blacks@[j] == q0[j]);
                            }
                        }
                        if covered3 {
                            reveal(queue_covers3);
                            assert forall|t: int| #[trigger] three_open(g, state@, t) implies exists|j: int|
                                0 <= j < scratch.new_blacks@.len() && covers(
                                    g,
                                    t,
                                    #[trigger] scratch.new_blacks@[j] as int,
                                ) by {
                                lemma_whitens_three(g, s1, state@, t);
                                let j = choose|j: int| 0 <= j < q0.len() && covers(g, t, #[trigger] q0[j] as int);
                                assert(j != q0.len() - 1);
                                assert(scratch.new_blacks@[j] == q0[j]);
                            }
                        }
                    }
                },
            }
        }
        proof {
            if covered3 {
                lemma_covers3_empty(g, state@, scratch.new_blacks@);
            }
            if covered {
                assert forall|t: int| !#[trigger] black_block(g, state@, t) by {
                    if black_block(g, state@, t) {
                        let j = choose|j: int| 0 <= j < scratch.new_blacks@.len() && covers(g, t, #[trigger] scratch.new_blacks@[j] as int);
                    }
                }
            }
        }
        true
    }
}

impl Solver {
    /// (1) Clue cells are empty: an open clue cell becomes white, a black one
    /// is a contradiction.
    fn empty_clue_cells(
        &self,
        state: &mut Vec<u8>,
        scratch: &mut Scratch,
        changed: &mut bool,
        white_added: &mut bool,
    ) -> (ok: bool)
        requires
            self.wf(),
            old(state)@.len() == self.grid.size(),
            old(scratch).ready(&self.grid, old(state)@),
        ensures
            whitens(old(state)@, final(state)@),
            self.keeps_solutions(old(state)@, final(state)@),
            !ok ==> self.no_solution(old(state)@),
            final(scratch).ready(&self.grid, final(state)@),
            ok ==> forall|k: int|
                0 <= k < self.clues@.len() ==> final(state)@[(#[trigger] self.clues@[k]).0 as int]
                    != UNKNOWN && final(state)@[self.clues@[k].0 as int] != BLACK,
            final(scratch).new_blacks == old(scratch).new_blacks,
            final(scratch).pending_blacks == old(scratch).pending_blacks,
            final(scratch).comp_black_groups == old(scratch).comp_black_groups,
            final(scratch).best == old(scratch).best,
            old(scratch).comp_dirty ==> final(scratch).comp_dirty,
            *old(changed) ==> *final(changed),
            *final(changed) ==> *old(changed) || count_unknown(final(state)@) < count_unknown(old(state)@),
            count_unknown(final(state)@) <= count_unknown(old(state)@),
            final(state)@ == old(state)@ || (*final(changed) && final(scratch).comp_dirty
                && count_unknown(final(state)@) < count_unknown(old(state)@)),
    {
        proof {
            reveal(Scratch::ready);
            reveal(Scratch::analysis_ok);
            reveal(queue_covers);
            reveal(Solver::best_ok);
            reveal(Solver::clue_settled);
            reveal(Solver::keeps_solutions);
            reveal(Solver::no_solution);
        }
        let ghost g = &self.grid;
        let ghost st = state@;
        let ghost sc0 = *scratch;
        let mut k: usize = 0;
        while k < self.clue_cells.len()
            invariant
                self.wf(),
                g == &self.grid,
                st == old(state)@,
                sc0 == *old(scratch),
                st.len() == g.size(),
                state@.len() == g.size(),
                k <= self.clues@.len(),
                scratch.ready(g, state@),
                whitens(st, state@),
                self.keeps_solutions(st, state@),
                forall|j: int|
                    0 <= j < k ==> state@[(#[trigger] self.clues@[j]).0 as int] != UNKNOWN
                        && state@[self.clues@[j].0 as int] != BLACK,
                scratch.new_blacks == sc0.new_blacks,
                scratch.pending_blacks == sc0.pending_blacks,
                scratch.comp_black_groups == sc0.comp_black_groups,
                scratch.best == sc0.best,
                sc0.comp_dirty ==> scratch.comp_dirty,
                *old(changed) ==> *changed,
                *changed ==> *old(changed) || count_unknown(state@) < count_unknown(st),
                count_unknown(state@) <= count_unknown(st),
                state@ == st || (*changed && scratch.comp_dirty && count_unknown(state@)
                    < count_unknown(st)),
            decreases self.clues@.len() - k,
        {
            proof {
                reveal(Scratch::ready);
                reveal(Scratch::analysis_ok);
                reveal(queue_covers);
                reveal(Solver::best_ok);
                reveal(Solver::clue_settled);
                reveal(Solver::keeps_solutions);
                reveal(Solver::no_solution);
            }
            let c = self.clue_cells[k];
            proof {
                assert(c == self.clues@[k as int].0);
            }
            let v = state[c];
            if v == UNKNOWN {
                let ghost prev = state@;
                proof {
                    assert forall|s: Seq<u8>| #[trigger] is_solution(g, s, self.clues@) && agrees(s, st)
                        implies agrees(s, prev.update(c as int, WHITE)) by {
                        assert(agrees(s, prev));
                        assert(s[self.clues@[k as int].0 as int] == WHITE);
                    }
                    lemma_count_unknown_update(prev, c as int, WHITE);
                }
                state.set(c, WHITE);
                *changed = true;
                *white_added = true;
                scratch.comp_dirty = true;
                proof {
                    assert(state@[c as int] != st[c as int]);
                }
            } else if v == BLACK {
                proof {
                    assert forall|s: Seq<u8>| #[trigger] is_solution(g, s, self.clues@) implies !agrees(
                        s,
                        st,
                    ) by {
                        if agrees(s, st) {
                            assert(agrees(s, state@));
                            assert(s[self.clues@[k as int].0 as int] == WHITE);
                        }
                    }
                }
                return false;
            }
            proof {
                assert forall|j: int|
                    0 <= j < k + 1 implies state@[(#[trigger] self.clues@[j]).0 as int] != UNKNOWN
                    && state@[self.clues@[j].0 as int] != BLACK by {
                    assert(self.clue_cells@[j] == self.clues@[j].0);
                }
            }
            k = k + 1;
        }
        true
    }

    /// A solution sees around clue `k` a mask that the clue allows and that
    /// fits every mark it keeps.
    pub proof fn lemma_solution_mask(&self, s: Seq<u8>, st: Seq<u8>, k: int)
        requires
            self.wf(),
            0 <= k < self.clues@.len(),
            st.len() == self.grid.size(),
            is_solution(&self.grid, s, self.clues@),
            agrees(s, st),
        ensures
            mask_alive(
                &self.grid,
                st,
                self.clues@[k].0 as int,
                self.clues@[k].1@,
                cell_mask(&self.grid, s, self.clues@[k].0 as int),
            ),
            forall|b: int|
                0 <= b < 8 ==> #[trigger] bit(cell_mask(&self.grid, s, self.clues@[k].0 as int), b as u8)
                    == black_nb(&self.grid, s, self.clues@[k].0 as int, b),
    {
        reveal(Scratch::ready);
        reveal(Scratch::analysis_ok);
        reveal(queue_covers);
        reveal(Solver::best_ok);
        reveal(Solver::clue_settled);
        reveal(Solver::keeps_solutions);
        reveal(Solver::no_solution);
        let g = &self.grid;
        let i = self.clues@[k].0 as int;
        let m = cell_mask(g, s, i);
        lemma_cell_mask_bits(g, s, i);
        assert(0 <= i < g.size()) by {
            assert(self.clue_cells@[k] == self.clues@[k].0);
        }
        assert forall|kk: int| 0 <= kk < 8 implies match #[trigger] g.nb(i, kk) {
            None => true,
            Some(j) => (st[j as int] == BLACK ==> bit(m, kk as u8)) && (st[j as int] == WHITE ==> !bit(
                m,
                kk as u8,
            )),
        } by {
            lemma_nb_in_range(g, i, kk);
            assert(bit(m, kk as u8) == black_nb(g, s, i, kk));
        }
        assert(fits_marks(g, i, m, st));
    }
}

impl Solver {
    /// The surviving masks of clue `k` counted as a set.
    proof fn lemma_alive_count(&self, state: Seq<u8>, k: int, alive: MaskSet)
        requires
            forall|m: u8| #[trigger] alive.has(m) == mask_alive(
                &self.grid,
                state,
                self.clues@[k].0 as int,
                self.clues@[k].1@,
                m,
            ),
        ensures
            member_count(alive, 256) == self.alive_count(state, k),
    {
        reveal(Scratch::ready);
        reveal(Scratch::analysis_ok);
        reveal(queue_covers);
        reveal(Solver::best_ok);
        reveal(Solver::clue_settled);
        reveal(Solver::keeps_solutions);
        reveal(Solver::no_solution);
        lemma_member_count(
            alive,
            |m: u8| mask_alive(&self.grid, state, self.clues@[k].0 as int, self.clues@[k].1@, m),
            256,
        );
    }

    /// When no surviving mask of clue `k` has neighbour `b` black (or white),
    /// every solution has that neighbour white (or black).
    proof fn lemma_force(&self, k: int, alive: MaskSet, st: Seq<u8>, prev: Seq<u8>, b: int, v: u8)
        requires
            self.wf(),
            0 <= k < self.clues@.len(),
            0 <= b < 8,
            st.len() == self.grid.size(),
            prev.len() == st.len(),
            forall|m: u8| #[trigger] alive.has(m) == mask_alive(
                &self.grid,
                st,
                self.clues@[k].0 as int,
                self.clues@[k].1@,
                m,
            ),
            self.keeps_solutions(st, prev),
            self.grid.nb(self.clues@[k].0 as int, b) is Some,
            v == WHITE ==> !(exists|m: u8| #[trigger] alive.has(m) && self.sets@[k].with_black[b].has(m)),
            v == BLACK ==> !(exists|m: u8| #[trigger] alive.has(m) && self.sets@[k].with_white[b].has(m)),
            v == WHITE || v == BLACK,
        ensures
            self.keeps_solutions(
                st,
                prev.update(self.grid.nb(self.clues@[k].0 as int, b)->Some_0 as int, v),
            ),
    {
        reveal(Scratch::ready);
        reveal(Scratch::analysis_ok);
        reveal(queue_covers);
        reveal(Solver::best_ok);
        reveal(Solver::clue_settled);
        reveal(Solver::keeps_solutions);
        reveal(Solver::no_solution);
        let g = &self.grid;
        let i = self.clues@[k].0 as int;
        let nb = g.nb(i, b)->Some_0 as int;
        let sets = self.sets@[k];
        assert(sets.describes(g, i, self.clues@[k].1@));
        assert forall|s: Seq<u8>| #[trigger] is_solution(g, s, self.clues@) && agrees(s, st) implies agrees(
            s,
            prev.update(nb, v),
        ) by {
            assert(agrees(s, prev));
            self.lemma_solution_mask(s, st, k);
            let cm = cell_mask(g, s, i);
            assert(alive.has(cm));
            assert(feasible(g, i, self.clues@[k].1@, cm));
            assert(bit(cm, b as u8) == black_nb(g, s, i, b));
            assert(sets.with_black[b].has(cm) == (feasible(g, i, self.clues@[k].1@, cm) && bit(cm, b as u8)));
            assert(sets.with_white[b].has(cm) == (feasible(g, i, self.clues@[k].1@, cm) && !bit(cm, b as u8)));
            assert(0 <= i < g.size()) by {
                assert(self.clue_cells@[k] == self.clues@[k].0);
            }
            lemma_nb_in_range(g, i, b);
            assert(is_filled(s));
            assert(s[nb] == BLACK || s[nb] == WHITE);
        }
    }

    /// Assign every open neighbour of clue `k` that is black (or white) in all
    /// of its surviving masks `alive`.
    fn force_neighbors(
        &self,
        k: usize,
        alive: MaskSet,
        state: &mut Vec<u8>,
        scratch: &mut Scratch,
        changed: &mut bool,
        black_added: &mut bool,
        white_added: &mut bool,
    )
        requires
            self.wf(),
            k < self.clues@.len(),
            old(state)@.len() == self.grid.size(),
            old(scratch).ready(&self.grid, old(state)@),
            forall|m: u8| #[trigger] alive.has(m) == mask_alive(
                &self.grid,
                old(state)@,
                self.clues@[k as int].0 as int,
                self.clues@[k as int].1@,
                m,
            ),
        ensures
            refines(old(state)@, final(state)@),
            self.keeps_solutions(old(state)@, final(state)@),
            final(scratch).ready(&self.grid, final(state)@),
            queue_covers(&self.grid, old(state)@, old(scratch).new_blacks@) ==> queue_covers(
                &self.grid,
                final(state)@,
                final(scratch).new_blacks@,
            ),
            queue_covers3(&self.grid, old(state)@, old(scratch).new_blacks@) ==> queue_covers3(
                &self.grid,
                final(state)@,
                final(scratch).new_blacks@,
            ),
            final(scratch).pending_blacks == old(scratch).pending_blacks || *final(black_added),
            final(scratch).comp_black_groups == old(scratch).comp_black_groups,
            final(scratch).best == old(scratch).best,
            old(scratch).comp_dirty ==> final(scratch).comp_dirty,
            *old(changed) ==> *final(changed),
            *final(changed) ==> *old(changed) || count_unknown(final(state)@) < count_unknown(old(state)@),
            *old(black_added) ==> *final(black_added),
            final(state)@ == old(state)@ || *final(black_added) || final(scratch).comp_dirty,
            count_unknown(final(state)@) <= count_unknown(old(state)@),
            final(state)@ == old(state)@ || (*final(changed) && count_unknown(final(state)@)
                < count_unknown(old(state)@)),
            !*final(changed) ==> forall|b: int|
                0 <= b < 8 ==> #[trigger] forced(
                    &self.grid,
                    final(state)@,
                    self.clues@[k as int].0 as int,
                    self.clues@[k as int].1@,
                    b,
                ) is None,
    {
        proof {
            reveal(Scratch::ready);
            reveal(Scratch::analysis_ok);
            reveal(queue_covers);
            reveal(Solver::best_ok);
            reveal(Solver::clue_settled);
            reveal(Solver::keeps_solutions);
            reveal(Solver::no_solution);
        }
        let ghost g = &self.grid;
        let ghost st = state@;
        let ghost sc0 = *scratch;
        let ghost covered = queue_covers(g, st, scratch.new_blacks@);
        let ghost covered3 = queue_covers3(g, st, scratch.new_blacks@);
        let ghost ci = self.clues@[k as int].0 as int;
        let ghost clue = self.clues@[k as int].1@;
        let cell = self.clue_cells[k];
        let sets: &ClueSets = &self.sets[k];
        proof {
            assert(cell == ci);
        }
        let neighbors = self.grid.neighbors(cell);
        let mut b: usize = 0;
        while b < 8
            invariant
                self.wf(),
                g == &self.grid,
                st == old(state)@,
                sc0 == *old(scratch),
                k < self.clues@.len(),
                ci == self.clues@[k as int].0,
                clue == self.clues@[k as int].1@,
                cell == ci,
                0 <= ci < g.size(),
                *sets == self.sets@[k as int],
                forall|j: int| 0 <= j < 8 ==> #[trigger] neighbors@[j] == g.nb(ci, j),
                forall|m: u8| #[trigger] alive.has(m) == mask_alive(g, st, ci, clue, m),
                st.len() == g.size(),
                state@.len() == g.size(),
                b <= 8,
                scratch.ready(g, state@),
                refines(st, state@),
                self.keeps_solutions(st, state@),
                covered ==> queue_covers(g, state@, scratch.new_blacks@),
                covered3 ==> queue_covers3(g, state@, scratch.new_blacks@),
                scratch.pending_blacks == sc0.pending_blacks || *black_added,
                scratch.comp_black_groups == sc0.comp_black_groups,
                scratch.best == sc0.best,
                sc0.comp_dirty ==> scratch.comp_dirty,
                *old(changed) ==> *changed,
                *changed ==> *old(changed) || count_unknown(state@) < count_unknown(st),
                *old(black_added) ==> *black_added,
                state@ == st || *black_added || scratch.comp_dirty,
                count_unknown(state@) <= count_unknown(st),
                state@ == st || (*changed && count_unknown(state@) < count_unknown(st)),
                !*changed ==> forall|j: int| 0 <= j < b ==> #[trigger] forced(g, state@, ci, clue, j) is None,
            decreases 8 - b,
        {
            proof {
                reveal(Scratch::ready);
                reveal(Scratch::analysis_ok);
                reveal(queue_covers);
                reveal(Solver::best_ok);
                reveal(Solver::clue_settled);
                reveal(Solver::keeps_solutions);
                reveal(Solver::no_solution);
            }
            if let Some(nb) = neighbors[b] {
                proof {
                    lemma_nb_in_range(g, ci, b as int);
                }
                if state[nb] == UNKNOWN {
                    let ghost prev = state@;
                    if !alive.intersects(sets.with_black[b]) {
                        proof {
                            self.lemma_force(k as int, alive, st, prev, b as int, WHITE);
                            lemma_refines_set(st, prev, nb as int, WHITE);
                            if covered {
                                lemma_whitens_block_one(g, prev, nb as int, scratch.new_blacks@);
                            }
                            if covered3 {
                                lemma_whitens_block_one3(g, prev, nb as int, scratch.new_blacks@);
                            }
                        }
                        state.set(nb, WHITE);
                        *changed = true;
                        *white_added = true;
                        scratch.comp_dirty = true;
                    } else if !alive.intersects(sets.with_white[b]) {
                        proof {
                            self.lemma_force(k as int, alive, st, prev, b as int, BLACK);
                            lemma_refines_set(st, prev, nb as int, BLACK);
                            if covered {
                                lemma_covers_black(g, prev, scratch.new_blacks@, nb);
                            }
                            if covered3 {
                                lemma_covers3_black(g, prev, scratch.new_blacks@, nb);
                            }
                        }
                        let ghost sc1 = *scratch;
                        state.set(nb, BLACK);
                        *changed = true;
                        *black_added = true;
                        scratch.new_blacks.push(nb);
                        scratch.pending_blacks.push(nb);
                        proof {
                            if !scratch.comp_dirty {
                                lemma_analysis_black(g, prev, &sc1, scratch, nb);
                            }
                        }
                    } else {
                        proof {
                            let m1 = choose|m: u8| #[trigger] alive.has(m) && sets.with_black[b as int].has(m);
                            let m2 = choose|m: u8| #[trigger] alive.has(m) && sets.with_white[b as int].has(m);
                            assert(sets.describes(g, ci, clue));
                            if !*changed {
                                assert(mask_alive(g, state@, ci, clue, m1) && bit(m1, b as u8));
                                assert(mask_alive(g, state@, ci, clue, m2) && !bit(m2, b as u8));
                                assert(forced(g, state@, ci, clue, b as int) is None);
                            }
                        }
                    }
                }
            }
            b = b + 1;
        }
    }
}

impl Solver {
    /// One more clue considered for the most constrained one.
    proof fn lemma_best_step(
        &self,
        st: Seq<u8>,
        best0: Option<(usize, MaskSet, u32)>,
        best1: Option<(usize, MaskSet, u32)>,
        i: usize,
        alive: MaskSet,
        count: u32,
    )
        requires
            self.best_ok(st, best0, i as int),
            forall|m: u8| #[trigger] alive.has(m) == mask_alive(
                &self.grid,
                st,
                self.clues@[i as int].0 as int,
                self.clues@[i as int].1@,
                m,
            ),
            count == self.alive_count(st, i as int),
            best1 == next_best(best0, i, alive, count),
        ensures
            self.best_ok(st, best1, i + 1),
    {
        reveal(Scratch::ready);
        reveal(Scratch::analysis_ok);
        reveal(queue_covers);
        reveal(Solver::best_ok);
        reveal(Solver::clue_settled);
        reveal(Solver::keeps_solutions);
        reveal(Solver::no_solution);
    }

    /// Arc consistency on clue `i`.
    fn arc_clue(
        &self,
        i: usize,
        state: &mut Vec<u8>,
        scratch: &mut Scratch,
        changed: &mut bool,
        black_added: &mut bool,
        white_added: &mut bool,
    ) -> (ok: bool)
        requires
            self.wf(),
            i < self.clues@.len(),
            old(state)@.len() == self.grid.size(),
            old(scratch).ready(&self.grid, old(state)@),
        ensures
            refines(old(state)@, final(state)@),
            self.keeps_solutions(old(state)@, final(state)@),
            !ok ==> self.no_solution(old(state)@),
            final(scratch).ready(&self.grid, final(state)@),
            queue_covers(&self.grid, old(state)@, old(scratch).new_blacks@) ==> queue_covers(
                &self.grid,
                final(state)@,
                final(scratch).new_blacks@,
            ),
            queue_covers3(&self.grid, old(state)@, old(scratch).new_blacks@) ==> queue_covers3(
                &self.grid,
                final(state)@,
                final(scratch).new_blacks@,
            ),
            final(scratch).pending_blacks == old(scratch).pending_blacks || *final(black_added),
            final(scratch).comp_black_groups == old(scratch).comp_black_groups,
            old(scratch).comp_dirty ==> final(scratch).comp_dirty,
            *old(changed) ==> *final(changed),
            *final(changed) ==> *old(changed) || count_unknown(final(state)@) < count_unknown(old(state)@),
            *old(black_added) ==> *final(black_added),
            final(state)@ == old(state)@ || *final(black_added) || final(scratch).comp_dirty,
            count_unknown(final(state)@) <= count_unknown(old(state)@),
            final(state)@ == old(state)@ || (*final(changed) && count_unknown(final(state)@)
                < count_unknown(old(state)@)),
            ok && !*final(changed) ==> final(state)@ == old(state)@ && self.clue_settled(
                final(state)@,
                i as int,
            ) && (self.best_ok(old(state)@, old(scratch).best, i as int) ==> self.best_ok(
                final(state)@,
                final(scratch).best,
                i + 1,
            )),
    {
        proof {
            reveal(Scratch::ready);
            reveal(Scratch::analysis_ok);
            reveal(queue_covers);
            reveal(Solver::best_ok);
            reveal(Solver::clue_settled);
            reveal(Solver::keeps_solutions);
            reveal(Solver::no_solution);
        }
        let ghost g = &self.grid;
        let ghost s1 = state@;
        let alive = self.alive_for(i, state.as_slice());
        if alive.is_empty() {
            proof {
                assert forall|s: Seq<u8>| #[trigger] is_solution(g, s, self.clues@) implies !agrees(
                    s,
                    s1,
                ) by {
                    if agrees(s, s1) {
                        self.lemma_solution_mask(s, s1, i as int);
                        assert(alive.has(cell_mask(g, s, self.clues@[i as int].0 as int)));
                    }
                }
            }
            return false;
        }
        let count = alive.count();
        proof {
            self.lemma_alive_count(s1, i as int, alive);
        }
        let ghost best0 = scratch.best;
        let ghost sc_before = *scratch;
        note_best(&mut scratch.best, i, alive, count);
        proof {
            lemma_ready_same(&sc_before, scratch, g, s1);
            if self.best_ok(s1, best0, i as int) {
                self.lemma_best_step(s1, best0, scratch.best, i, alive, count);
            }
        }
        let ghost best1 = scratch.best;
        self.force_neighbors(i, alive, state, scratch, changed, black_added, white_added);
        proof {
            if !*changed {
                assert(state@ == s1);
                let m = choose|m: u8| #[trigger] alive.has(m);
                assert(mask_alive(g, s1, self.clues@[i as int].0 as int, self.clues@[i as int].1@, m));
                assert(self.clue_settled(state@, i as int));
            }
        }
        true
    }

    /// (2) Arc consistency on every clue: a clue without surviving masks is a
    /// contradiction, and a neighbour that is black (or white) in all of them
    /// is assigned. Also remembers the clue with the fewest surviving masks.
    fn arc_pass(
        &self,
        state: &mut Vec<u8>,
        scratch: &mut Scratch,
        changed: &mut bool,
        black_added: &mut bool,
        white_added: &mut bool,
    ) -> (ok: bool)
        requires
            self.wf(),
            old(state)@.len() == self.grid.size(),
            old(scratch).ready(&self.grid, old(state)@),
            old(scratch).best is None,
        ensures
            refines(old(state)@, final(state)@),
            self.keeps_solutions(old(state)@, final(state)@),
            !ok ==> self.no_solution(old(state)@),
            final(scratch).ready(&self.grid, final(state)@),
            queue_covers(&self.grid, old(state)@, old(scratch).new_blacks@) ==> queue_covers(
                &self.grid,
                final(state)@,
                final(scratch).new_blacks@,
            ),
            queue_covers3(&self.grid, old(state)@, old(scratch).new_blacks@) ==> queue_covers3(
                &self.grid,
                final(state)@,
                final(scratch).new_blacks@,
            ),
            final(scratch).pending_blacks == old(scratch).pending_blacks || *final(black_added),
            final(scratch).comp_black_groups == old(scratch).comp_black_groups,
            old(scratch).comp_dirty ==> final(scratch).comp_dirty,
            *old(changed) ==> *final(changed),
            *final(changed) ==> *old(changed) || count_unknown(final(state)@) < count_unknown(old(state)@),
            *old(black_added) ==> *final(black_added),
            final(state)@ == old(state)@ || *final(black_added) || final(scratch).comp_dirty,
            count_unknown(final(state)@) <= count_unknown(old(state)@),
            final(state)@ == old(state)@ || (*final(changed) && count_unknown(final(state)@)
                < count_unknown(old(state)@)),
            ok && !*final(changed) ==> forall|k: int|
                0 <= k < self.clues@.len() ==> #[trigger] self.clue_settled(final(state)@, k),
            ok && !*final(changed) ==> self.best_ok(
                final(state)@,
                final(scratch).best,
                self.clues@.len() as int,
            ),
    {
        proof {
            reveal(Scratch::ready);
            reveal(Scratch::analysis_ok);
            reveal(queue_covers);
            reveal(Solver::best_ok);
            reveal(Solver::clue_settled);
            reveal(Solver::keeps_solutions);
            reveal(Solver::no_solution);
        }
        let ghost g = &self.grid;
        let ghost st = state@;
        let ghost sc0 = *scratch;
        let ghost covered = queue_covers(g, st, scratch.new_blacks@);
        let ghost covered3 = queue_covers3(g, st, scratch.new_blacks@);
        let mut i: usize = 0;
        while i < self.clue_cells.len()
            invariant
                self.wf(),
                g == &self.grid,
                st == old(state)@,
                sc0 == *old(scratch),
                st.len() == g.size(),
                state@.len() == g.size(),
                i <= self.clues@.len(),
                covered == queue_covers(g, st, sc0.new_blacks@),
                covered3 == queue_covers3(g, st, sc0.new_blacks@),
                scratch.ready(g, state@),
                refines(st, state@),
                self.keeps_solutions(st, state@),
                covered ==> queue_covers(g, state@, scratch.new_blacks@),
                covered3 ==> queue_covers3(g, state@, scratch.new_blacks@),
                scratch.pending_blacks == sc0.pending_blacks || *black_added,
                scratch.comp_black_groups == sc0.comp_black_groups,
                sc0.comp_dirty ==> scratch.comp_dirty,
                *old(changed) ==> *changed,
                *changed ==> *old(changed) || count_unknown(state@) < count_unknown(st),
                *old(black_added) ==> *black_added,
                state@ == st || *black_added || scratch.comp_dirty,
                count_unknown(state@) <= count_unknown(st),
                state@ == st || (*changed && count_unknown(state@) < count_unknown(st)),
                !*changed ==> forall|k: int| 0 <= k < i ==> #[trigger] self.clue_settled(state@, k),
                !*changed ==> self.best_ok(state@, scratch.best, i as int),
            decreases self.clues@.len() - i,
        {
            proof {
                reveal(Scratch::ready);
                reveal(Scratch::analysis_ok);
                reveal(queue_covers);
                reveal(Solver::best_ok);
                reveal(Solver::clue_settled);
                reveal(Solver::keeps_solutions);
                reveal(Solver::no_solution);
            }
            let ghost s1 = state@;
            let ghost sc1 = *scratch;
            if !self.arc_clue(i, state, scratch, changed, black_added, white_added) {
                proof {
                    lemma_no_solution_back(self, st, s1);
                }
                return false;
            }
            proof {
                lemma_keeps_trans(self, st, s1, state@);
                lemma_refines_trans(st, s1, state@);
            }
            i = i + 1;
        }
        true
    }
}

impl Solver {
    /// The local rules, once each: the 2x2 rule on the queued cells, empty
    /// clue cells and arc consistency.
    fn local_pass(
        &self,
        state: &mut Vec<u8>,
        scratch: &mut Scratch,
        changed: &mut bool,
        black_added: &mut bool,
        white_added: &mut bool,
    ) -> (ok: bool)
        requires
            self.wf(),
            old(state)@.len() == self.grid.size(),
            old(scratch).ready(&self.grid, old(state)@),
            old(scratch).best is None,
            !*old(changed),
        ensures
            refines(old(state)@, final(state)@),
            self.keeps_solutions(old(state)@, final(state)@),
            !ok ==> self.no_solution(old(state)@),
            final(scratch).ready(&self.grid, final(state)@),
            ok && queue_covers(&self.grid, old(state)@, old(scratch).new_blacks@) ==> queue_covers(
                &self.grid,
                final(state)@,
                final(scratch).new_blacks@,
            ),
            ok && queue_covers3(&self.grid, old(state)@, old(scratch).new_blacks@) ==> queue_covers3(
                &self.grid,
                final(state)@,
                final(scratch).new_blacks@,
            ),
            final(scratch).pending_blacks == old(scratch).pending_blacks || *final(black_added),
            final(scratch).comp_black_groups == old(scratch).comp_black_groups,
            old(scratch).comp_dirty ==> final(scratch).comp_dirty,
            final(state)@ == old(state)@ || *final(black_added) || final(scratch).comp_dirty,
            *final(changed) ==> count_unknown(final(state)@) < count_unknown(old(state)@),
            final(state)@ == old(state)@ || *final(changed),
            ok && !*final(changed) ==> self.best_ok(
                final(state)@,
                final(scratch).best,
                self.clues@.len() as int,
            ),
            ok && !*final(changed) ==> forall|k: int|
                0 <= k < self.clues@.len() ==> final(state)@[(#[trigger] self.clues@[k]).0 as int]
                    != UNKNOWN && final(state)@[self.clues@[k].0 as int] != BLACK,
            ok && !*final(changed) ==> forall|k: int|
                0 <= k < self.clues@.len() ==> #[trigger] self.clue_settled(final(state)@, k),
            ok && !*final(changed) && queue_covers(&self.grid, old(state)@, old(scratch).new_blacks@)
                ==> forall|t: int| !#[trigger] black_block(&self.grid, final(state)@, t),
            ok && !*final(changed) && queue_covers3(&self.grid, old(state)@, old(scratch).new_blacks@)
                ==> forall|t: int| !#[trigger] three_open(&self.grid, final(state)@, t),
    {
        let ghost g = &self.grid;
        let ghost head = state@;
        let ghost covered = queue_covers(g, head, scratch.new_blacks@);
        let ghost covered3 = queue_covers3(g, head, scratch.new_blacks@);
        proof {
            reveal(Scratch::ready);
        }
        // (3) no 2x2 black block: only cells that just turned black can have
        // created one (the callers queue the cells they assign)
        if !self.drain_blacks(state, scratch, changed, black_added, white_added) {
            proof {
                lemma_whitens_refines(head, state@);
            }
            return false;
        }
        let ghost s_drain = state@;
        proof {
            lemma_whitens_refines(head, s_drain);
            if covered {
                lemma_covers_none(g, s_drain, scratch.new_blacks@);
            }
            if covered3 {
                lemma_covers3_none(g, s_drain, scratch.new_blacks@);
            }
        }
        // (1) clue cells are empty
        if !self.empty_clue_cells(state, scratch, changed, white_added) {
            proof {
                lemma_no_solution_back(self, head, s_drain);
                lemma_whitens_refines(s_drain, state@);
                lemma_refines_trans(head, s_drain, state@);
                lemma_keeps_trans(self, head, s_drain, state@);
            }
            return false;
        }
        let ghost s_clue = state@;
        proof {
            lemma_whitens_refines(s_drain, s_clue);
            lemma_refines_trans(head, s_drain, s_clue);
            lemma_keeps_trans(self, head, s_drain, s_clue);
            if covered {
                lemma_whitens_covers(g, s_drain, s_clue, scratch.new_blacks@);
            }
            if covered3 {
                lemma_whitens_covers3(g, s_drain, s_clue, scratch.new_blacks@);
            }
        }
        // (2) arc consistency on the clues
        let ok = self.arc_pass(state, scratch, changed, black_added, white_added);
        proof {
            if !ok {
                lemma_no_solution_back(self, s_drain, s_clue);
                lemma_no_solution_back(self, head, s_drain);
            }
            lemma_refines_trans(head, s_clue, state@);
            lemma_keeps_trans(self, head, s_clue, state@);
        }
        ok
    }

    /// Bring `state` to a fixpoint of the rules. Returns false on
    /// contradiction.
    pub(crate) fn propagate_with(&self, state: &mut Vec<u8>, scratch: &mut Scratch) -> (ok: bool)
        requires
            self.wf(),
            old(state)@.len() == self.grid.size(),
            old(scratch).sized(self.grid.size()),
        ensures
            final(scratch).sized(self.grid.size()),
            refines(old(state)@, final(state)@),
            self.keeps_solutions(old(state)@, final(state)@),
            !ok ==> self.no_solution(old(state)@),
            ok ==> self.settled(final(state)@),
            ok ==> none_cut_off(&self.grid, final(state)@),
            ok ==> self.best_ok(final(state)@, final(scratch).best, self.clues@.len() as int),
            ok && queue_covers(&self.grid, old(state)@, old(scratch).new_blacks@) ==> forall|t: int|
                !#[trigger] black_block(&self.grid, final(state)@, t),
            ok && queue_covers3(&self.grid, old(state)@, old(scratch).new_blacks@) ==> forall|t: int|
                !#[trigger] three_open(&self.grid, final(state)@, t),
    {
        let ghost g = &self.grid;
        let ghost st = state@;
        let ghost covered = queue_covers(g, st, scratch.new_blacks@);
        let ghost covered3 = queue_covers3(g, st, scratch.new_blacks@);
        // the caller may hand us a state that differs from the previous call
        scratch.comp_dirty = true;
        proof {
            reveal(Scratch::ready);
            lemma_keeps_refl(self, st);
        }
        loop
            invariant
                self.wf(),
                g == &self.grid,
                st == old(state)@,
                covered == queue_covers(g, st, old(scratch).new_blacks@),
                covered3 == queue_covers3(g, st, old(scratch).new_blacks@),
                st.len() == g.size(),
                state@.len() == g.size(),
                scratch.ready(g, state@),
                refines(st, state@),
                self.keeps_solutions(st, state@),
                covered ==> queue_covers(g, state@, scratch.new_blacks@),
                covered3 ==> queue_covers3(g, state@, scratch.new_blacks@),
                !scratch.comp_dirty ==> scratch.pending_blacks@.len() == 0
                    && scratch.comp_black_groups <= 1,
                scratch.comp_dirty || none_cut_off(g, state@),
            decreases count_unknown(state@),
        {
            proof {
                reveal(Scratch::ready);
            }
            let ghost head = state@;
            let ghost sc_head = *scratch;
            let mut changed = false;
            let mut black_added = false;
            let mut white_added = false;
            scratch.best = None;

            proof {
                lemma_ready_same(&sc_head, scratch, g, head);
            }
            if !self.local_pass(state, scratch, &mut changed, &mut black_added, &mut white_added) {
                proof {
                    lemma_no_solution_back(self, st, head);
                    lemma_keeps_trans(self, st, head, state@);
                    lemma_refines_trans(st, head, state@);
                }
                return false;
            }
            let ghost s_arc = state@;
            proof {
                lemma_refines_trans(st, head, s_arc);
                lemma_keeps_trans(self, st, head, s_arc);
            }

            // (4) connectivity of the potential black cells. The component
            // structure only changes when a cell becomes white; black cells
            // only change which component holds black.
            if black_added || white_added || scratch.comp_dirty {
                if !self.propagate_connectivity(state, scratch, &mut changed) {
                    proof {
                        lemma_no_solution_back(self, st, s_arc);
                        lemma_keeps_trans(self, st, s_arc, state@);
                        lemma_whitens_refines(s_arc, state@);
                        lemma_refines_trans(st, s_arc, state@);
                    }
                    return false;
                }
                proof {
                    lemma_emptying_cut_off_cells(g, s_arc, state@);
                    lemma_whitens_refines(s_arc, state@);
                    lemma_refines_trans(st, s_arc, state@);
                    lemma_keeps_trans(self, st, s_arc, state@);
                    if covered {
                        lemma_whitens_covers(g, s_arc, state@, scratch.new_blacks@);
                    }
                    if covered3 {
                        lemma_whitens_covers3(g, s_arc, state@, scratch.new_blacks@);
                    }
                }
            } else {
                proof {
                    assert(!sc_head.comp_dirty);
                    assert(state@ == head);
                }
            }

            if !changed {
                proof {
                    assert(state@ == head);
                    self.lemma_linked(state@, scratch);
                }
                return true;
            }
        }
    }

    /// Bring `state` to a fixpoint. Returns false on contradiction. At the
    /// fixpoint every clue is settled, the walls are linked, no open cell is
    /// cut off from them, and no 2x2 block is all walls or three walls and an
    /// open cell.
    pub fn propagate(&self, state: &mut Vec<u8>) -> (ok: bool)
        requires
            self.wf(),
            old(state)@.len() == self.grid.size(),
        ensures
            refines(old(state)@, final(state)@),
            self.keeps_solutions(old(state)@, final(state)@),
            !ok ==> self.no_solution(old(state)@),
            ok ==> self.settled(final(state)@),
            ok ==> none_cut_off(&self.grid, final(state)@),
            ok ==> forall|t: int| !#[trigger] black_block(&self.grid, final(state)@, t),
            ok ==> forall|t: int| !#[trigger] three_open(&self.grid, final(state)@, t),
    {
        proof {
            reveal(Scratch::ready);
            reveal(Scratch::analysis_ok);
            reveal(queue_covers);
            reveal(Solver::best_ok);
            reveal(Solver::clue_settled);
            reveal(Solver::keeps_solutions);
            reveal(Solver::no_solution);
        }
        let mut scratch = Scratch::new(state.len());
        let mut i: usize = 0;
        while i < state.len()
            invariant
                i <= state@.len(),
                state@ == old(state)@,
                scratch.sized(state@.len() as int),
                forall|j: int| 0 <= j < scratch.new_blacks@.len() ==> #[trigger] scratch.new_blacks@[j] < i,
                forall|c: int| 0 <= c < i && state@[c] == BLACK ==> #[trigger] scratch.new_blacks@.contains(c as usize),
            decreases state@.len() - i,
        {
            proof {
                reveal(Scratch::ready);
                reveal(Scratch::analysis_ok);
                reveal(queue_covers);
                reveal(Solver::best_ok);
                reveal(Solver::clue_settled);
                reveal(Solver::keeps_solutions);
                reveal(Solver::no_solution);
            }
            let ghost q0 = scratch.new_blacks@;
            if state[i] == BLACK {
                scratch.new_blacks.push(i);
            }
            proof {
                assert forall|c: int| 0 <= c < i + 1 && state@[c] == BLACK implies #[trigger] scratch.new_blacks@.contains(c as usize) by {
                    if c == i {
                        assert(scratch.new_blacks@[scratch.new_blacks@.len() - 1] == c);
                    } else {
                        assert(q0.contains(c as usize));
                        let j = choose|j: int| 0 <= j < q0.len() && q0[j] == c as usize;
                        assert(scratch.new_blacks@[j] == c as usize);
                    }
                }
            }
            i = i + 1;
        }
        proof {
            let g = &self.grid;
            assert forall|t: int| #[trigger] black_block(g, state@, t) implies exists|j: int|
                0 <= j < scratch.new_blacks@.len() && covers(g, t, #[trigger] scratch.new_blacks@[j] as int) by {
                lemma_block_in_range(g, t);
                assert(scratch.new_blacks@.contains(t as usize));
                let j = choose|j: int| 0 <= j < scratch.new_blacks@.len() && scratch.new_blacks@[j] == t as usize;
                assert(covers(g, t, scratch.new_blacks@[j] as int));
            }
            reveal(queue_covers3);
            assert forall|t: int| #[trigger] three_open(g, state@, t) implies exists|j: int|
                0 <= j < scratch.new_blacks@.len() && covers(g, t, #[trigger] scratch.new_blacks@[j] as int) by {
                lemma_block_in_range(g, t);
                let w = g.w as int;
                let c = if state@[t] == BLACK {
                    t
                } else {
                    t + 1
                };
                assert(state@[c] == BLACK);
                assert(scratch.new_blacks@.contains(c as usize));
                let j = choose|j: int| 0 <= j < scratch.new_blacks@.len() && scratch.new_blacks@[j] == c as usize;
                assert(covers(g, t, scratch.new_blacks@[j] as int));
            }
        }
        self.propagate_with(state, &mut scratch)
    }

    /// With the analysis up to date, nothing pending and at most one
    /// component holding black cells, all black cells reach each other.
    proof fn lemma_linked(&self, st: Seq<u8>, sc: &Scratch)
        requires
            self.wf(),
            st.len() == self.grid.size(),
            sc.analysis_ok(&self.grid, st),
            sc.pending_blacks@.len() == 0,
            sc.comp_black_groups <= 1,
        ensures
            blacks_linked(&self.grid, st),
    {
        reveal(Scratch::ready);
        reveal(Scratch::analysis_ok);
        reveal(queue_covers);
        reveal(Solver::best_ok);
        reveal(Solver::clue_settled);
        reveal(Solver::keeps_solutions);
        reveal(Solver::no_solution);
        let g = &self.grid;
        assert forall|a: int, b: int|
            0 <= a < st.len() && 0 <= b < st.len() && #[trigger] st[a] == BLACK && #[trigger] st[b] == BLACK
                implies connected(g, potential(st), a, b) by {
            assert(sc.has_black@[sc.comp@[a] as int]);
            assert(sc.has_black@[sc.comp@[b] as int]);
            assert(potential(st)[a] && potential(st)[b]);
            if sc.comp@[a] != sc.comp@[b] {
                lemma_count_true_two(sc.has_black@, sc.comp@[a] as int, sc.comp@[b] as int);
            }
        }
    }
}

/// The buffers stay ready when only the remembered best clue changes.
pub proof fn lemma_ready_same(sc1: &Scratch, sc2: &Scratch, g: &Grid, st: Seq<u8>)
    requires
        sc1.ready(g, st),
        sc2.comp == sc1.comp,
        sc2.has_black == sc1.has_black,
        sc2.new_blacks == sc1.new_blacks,
        sc2.pending_blacks == sc1.pending_blacks,
        sc2.comp_black_groups == sc1.comp_black_groups,
        sc2.main_comp == sc1.main_comp,
        sc2.comp_dirty == sc1.comp_dirty,
        sc2.starts == sc1.starts,
    ensures
        sc2.ready(g, st),
{
    reveal(Scratch::ready);
    reveal(Scratch::analysis_ok);
}

/// With no black block at all, any queue covers them.
pub proof fn lemma_covers_none(g: &Grid, s: Seq<u8>, q: Seq<usize>)
    requires
        forall|t: int| !#[trigger] black_block(g, s, t),
    ensures
        queue_covers(g, s, q),
{
    reveal(queue_covers);
}

/// Nothing is lost by not moving.
pub proof fn lemma_keeps_refl(sv: &Solver, a: Seq<u8>)
    ensures
        sv.keeps_solutions(a, a),
{
    reveal(Solver::keeps_solutions);
}

/// Whitening is a refinement.
pub proof fn lemma_whitens_refines(a: Seq<u8>, b: Seq<u8>)
    requires
        whitens(a, b),
    ensures
        refines(a, b),
{
    reveal(Scratch::ready);
    reveal(Scratch::analysis_ok);
    reveal(queue_covers);
    reveal(Solver::best_ok);
    reveal(Solver::clue_settled);
    reveal(Solver::keeps_solutions);
    reveal(Solver::no_solution);
    assert forall|i: int| 0 <= i < a.len() implies #[trigger] b[i] == a[i] || (a[i] == UNKNOWN && (b[i]
        == BLACK || b[i] == WHITE)) by {
        assert(b[i] == a[i] || (a[i] == UNKNOWN && b[i] == WHITE));
    }
}

/// Whitening keeps the queue covering every black block.
pub proof fn lemma_whitens_covers(g: &Grid, a: Seq<u8>, b: Seq<u8>, q: Seq<usize>)
    requires
        whitens(a, b),
        a.len() == g.size(),
        queue_covers(g, a, q),
    ensures
        queue_covers(g, b, q),
{
    reveal(Scratch::ready);
    reveal(Scratch::analysis_ok);
    reveal(queue_covers);
    reveal(Solver::best_ok);
    reveal(Solver::clue_settled);
    reveal(Solver::keeps_solutions);
    reveal(Solver::no_solution);
    assert forall|t: int| #[trigger] black_block(g, b, t) implies exists|j: int|
        0 <= j < q.len() && covers(g, t, #[trigger] q[j] as int) by {
        lemma_whitens_block(g, a, b, t);
    }
}

/// The most constrained clue after looking at clue `i` with `count`
/// surviving masks `alive`.
pub open spec fn next_best(
    best: Option<(usize, MaskSet, u32)>,
    i: usize,
    alive: MaskSet,
    count: u32,
) -> Option<(usize, MaskSet, u32)> {
    let better = match best {
        None => true,
        Some(b) => count < b.2,
    };
    if count >= 2 && better {
        Some((i, alive, count))
    } else {
        best
    }
}

/// Keep clue `i` as the most constrained one when it leaves a choice and
/// has fewer surviving masks than the best so far.
fn note_best(best: &mut Option<(usize, MaskSet, u32)>, i: usize, alive: MaskSet, count: u32)
    ensures
        *final(best) == next_best(*old(best), i, alive, count),
{
    proof {
        reveal(Scratch::ready);
        reveal(Scratch::analysis_ok);
        reveal(queue_covers);
        reveal(Solver::best_ok);
        reveal(Solver::clue_settled);
        reveal(Solver::keeps_solutions);
        reveal(Solver::no_solution);
    }
    let better = match *best {
        None => true,
        Some(b) => count < b.2,
    };
    if count >= 2 && better {
        *best = Some((i, alive, count));
    }
}

/// Refinement composes.
pub proof fn lemma_refines_trans(a: Seq<u8>, b: Seq<u8>, c: Seq<u8>)
    requires
        refines(a, b),
        refines(b, c),
    ensures
        refines(a, c),
{
    reveal(Scratch::ready);
    reveal(Scratch::analysis_ok);
    reveal(queue_covers);
    reveal(Solver::best_ok);
    reveal(Solver::clue_settled);
    reveal(Solver::keeps_solutions);
    reveal(Solver::no_solution);
    assert forall|i: int| 0 <= i < a.len() implies #[trigger] c[i] == a[i] || (a[i] == UNKNOWN && (c[i]
        == BLACK || c[i] == WHITE)) by {
        assert(b[i] == a[i] || (a[i] == UNKNOWN && (b[i] == BLACK || b[i] == WHITE)));
        assert(c[i] == b[i] || (b[i] == UNKNOWN && (c[i] == BLACK || c[i] == WHITE)));
    }
}

/// Whitening one open cell keeps the queue covering every black block.
pub proof fn lemma_whitens_block_one(g: &Grid, st: Seq<u8>, c: int, q: Seq<usize>)
    requires
        queue_covers(g, st, q),
        0 <= c < st.len(),
        st.len() == g.size(),
        st[c] == UNKNOWN,
    ensures
        queue_covers(g, st.update(c, WHITE), q),
{
    reveal(Scratch::ready);
    reveal(Scratch::analysis_ok);
    reveal(queue_covers);
    reveal(Solver::best_ok);
    reveal(Solver::clue_settled);
    reveal(Solver::keeps_solutions);
    reveal(Solver::no_solution);
    let st2 = st.update(c, WHITE);
    assert(whitens(st, st2));
    assert forall|t: int| #[trigger] black_block(g, st2, t) implies exists|j: int|
        0 <= j < q.len() && covers(g, t, #[trigger] q[j] as int) by {
        lemma_whitens_block(g, st, st2, t);
    }
}

/// Blackening a cell and queueing it keeps the queue covering every black
/// block.
pub proof fn lemma_covers_black(g: &Grid, st: Seq<u8>, q: Seq<usize>, c: usize)
    requires
        queue_covers(g, st, q),
        c < st.len(),
        st.len() == g.size(),
    ensures
        queue_covers(g, st.update(c as int, BLACK), q.push(c)),
{
    reveal(Scratch::ready);
    reveal(Scratch::analysis_ok);
    reveal(queue_covers);
    reveal(Solver::best_ok);
    reveal(Solver::clue_settled);
    reveal(Solver::keeps_solutions);
    reveal(Solver::no_solution);
    let st2 = st.update(c as int, BLACK);
    let q2 = q.push(c);
    assert forall|t: int| #[trigger] black_block(g, st2, t) implies exists|j: int|
        0 <= j < q2.len() && covers(g, t, #[trigger] q2[j] as int) by {
        if covers(g, t, c as int) {
            assert(q2[q.len() as int] == c);
        } else {
            lemma_block_in_range(g, t);
            let w = g.w as int;
            assert(st2[t] == st[t] && st2[t + 1] == st[t + 1] && st2[t + w] == st[t + w] && st2[t + w
                + 1] == st[t + w + 1]);
            assert(black_block(g, st, t));
            let j = choose|j: int| 0 <= j < q.len() && covers(g, t, #[trigger] q[j] as int);
            assert(q2[j] == q[j]);
        }
    }
}

/// Blackening an open cell keeps the component analysis once the cell is in
/// the pending list.
pub proof fn lemma_analysis_black(g: &Grid, st: Seq<u8>, sc: &Scratch, sc2: &Scratch, c: usize)
    requires
        sc.analysis_ok(g, st),
        sc.sized(g.size()),
        st.len() == g.size(),
        c < st.len(),
        st[c as int] == UNKNOWN,
        sc2.comp == sc.comp,
        sc2.has_black == sc.has_black,
        sc2.comp_black_groups == sc.comp_black_groups,
        sc2.main_comp == sc.main_comp,
        sc2.starts == sc.starts,
        sc2.pending_blacks@ == sc.pending_blacks@.push(c),
    ensures
        sc2.analysis_ok(g, st.update(c as int, BLACK)),
{
    reveal(Scratch::ready);
    reveal(Scratch::analysis_ok);
    reveal(queue_covers);
    reveal(Solver::best_ok);
    reveal(Solver::clue_settled);
    reveal(Solver::keeps_solutions);
    reveal(Solver::no_solution);
    let st2 = st.update(c as int, BLACK);
    assert(potential(st2) =~= potential(st));
    assert forall|cc: int|
        0 <= cc < sc2.has_black@.len() && #[trigger] sc2.has_black@[cc] implies exists|i: int|
            0 <= i < g.size() && st2[i] == BLACK && #[trigger] sc2.comp@[i] == cc by {
        let i = choose|i: int| 0 <= i < g.size() && st[i] == BLACK && #[trigger] sc.comp@[i] == cc;
        assert(st2[i] == BLACK);
    }
    assert forall|i: int|
        0 <= i < g.size() && #[trigger] st2[i] == BLACK implies sc2.has_black@[sc2.comp@[i] as int]
            || sc2.pending_blacks@.contains(i as usize) by {
        if i == c {
            assert(sc2.pending_blacks@[sc.pending_blacks@.len() as int] == c);
        } else {
            assert(st2[i] == st[i]);
            if sc.pending_blacks@.contains(i as usize) {
                let j = choose|j: int| 0 <= j < sc.pending_blacks@.len() && sc.pending_blacks@[j] == i as usize;
                assert(sc2.pending_blacks@[j] == i as usize);
            }
        }
    }
    assert forall|j: int|
        0 <= j < sc2.pending_blacks@.len() implies st2[#[trigger] sc2.pending_blacks@[j] as int]
        == BLACK by {
        if j < sc.pending_blacks@.len() {
            assert(sc2.pending_blacks@[j] == sc.pending_blacks@[j]);
            assert(st[sc.pending_blacks@[j] as int] == BLACK);
        }
    }
}

/// Every wall of a solution lies on a cell that is not empty in any marks it
/// keeps.
pub proof fn lemma_walls_within(g: &Grid, s: Seq<u8>, st: Seq<u8>)
    requires
        agrees(s, st),
        st.len() == g.size(),
    ensures
        walls(s).len() == g.size(),
        potential(st).len() == g.size(),
        forall|i: int| 0 <= i < walls(s).len() && #[trigger] walls(s)[i] ==> potential(st)[i],
{
    reveal(Scratch::ready);
    reveal(Scratch::analysis_ok);
    reveal(queue_covers);
    reveal(Solver::best_ok);
    reveal(Solver::clue_settled);
    reveal(Solver::keeps_solutions);
    reveal(Solver::no_solution);
    assert forall|i: int| 0 <= i < walls(s).len() && #[trigger] walls(s)[i] implies potential(st)[i] by {
        if st[i] == WHITE {
            assert(s[i] == WHITE);
        }
    }
}

/// Keeping solutions composes.
pub proof fn lemma_keeps_trans(sv: &Solver, a: Seq<u8>, b: Seq<u8>, c: Seq<u8>)
    requires
        sv.keeps_solutions(a, b),
        sv.keeps_solutions(b, c),
    ensures
        sv.keeps_solutions(a, c),
{
    reveal(Scratch::ready);
    reveal(Scratch::analysis_ok);
    reveal(queue_covers);
    reveal(Solver::best_ok);
    reveal(Solver::clue_settled);
    reveal(Solver::keeps_solutions);
    reveal(Solver::no_solution);
    assert forall|s: Seq<u8>| #[trigger] is_solution(&sv.grid, s, sv.clues@) && agrees(s, a) implies agrees(
        s,
        c,
    ) by {
        assert(agrees(s, b));
    }
}

/// No solution is left after a step that keeps every solution of the marks
/// before it.
pub proof fn lemma_no_solution_back(sv: &Solver, a: Seq<u8>, b: Seq<u8>)
    requires
        sv.keeps_solutions(a, b),
        sv.no_solution(b),
    ensures
        sv.no_solution(a),
{
    reveal(Scratch::ready);
    reveal(Scratch::analysis_ok);
    reveal(queue_covers);
    reveal(Solver::best_ok);
    reveal(Solver::clue_settled);
    reveal(Solver::keeps_solutions);
    reveal(Solver::no_solution);
    assert forall|s: Seq<u8>| #[trigger] is_solution(&sv.grid, s, sv.clues@) implies !agrees(s, a) by {
        if agrees(s, a) {
            assert(agrees(s, b));
        }
    }
}

/// Whitening composes.
pub proof fn lemma_whitens_trans(a: Seq<u8>, b: Seq<u8>, c: Seq<u8>)
    requires
        whitens(a, b),
        whitens(b, c),
    ensures
        whitens(a, c),
{
    reveal(Scratch::ready);
    reveal(Scratch::analysis_ok);
    reveal(queue_covers);
    reveal(Solver::best_ok);
    reveal(Solver::clue_settled);
    reveal(Solver::keeps_solutions);
    reveal(Solver::no_solution);
    assert forall|i: int| 0 <= i < a.len() implies #[trigger] c[i] == a[i] || (a[i] == UNKNOWN && c[i]
        == WHITE) by {
        assert(b[i] == a[i] || (a[i] == UNKNOWN && b[i] == WHITE));
        assert(c[i] == b[i] || (b[i] == UNKNOWN && c[i] == WHITE));
    }
}

/// Whitening never completes a black block.
pub proof fn lemma_whitens_block(g: &Grid, a: Seq<u8>, b: Seq<u8>, t: int)
    requires
        whitens(a, b),
        a.len() == g.size(),
        black_block(g, b, t),
    ensures
        black_block(g, a, t),
{
    reveal(Scratch::ready);
    reveal(Scratch::analysis_ok);
    reveal(queue_covers);
    reveal(Solver::best_ok);
    reveal(Solver::clue_settled);
    reveal(Solver::keeps_solutions);
    reveal(Solver::no_solution);
    {
        lemma_block_in_range(g, t);
        let w = g.w as int;
        assert(b[t] == a[t] || (a[t] == UNKNOWN && b[t] == WHITE));
        assert(b[t + 1] == a[t + 1] || (a[t + 1] == UNKNOWN && b[t + 1] == WHITE));
        assert(b[t + w] == a[t + w] || (a[t + w] == UNKNOWN && b[t + w] == WHITE));
        assert(b[t + w + 1] == a[t + w + 1] || (a[t + w + 1] == UNKNOWN && b[t + w + 1] == WHITE));
    }
}

/// Whitening keeps every all-black block.
pub proof fn lemma_whitens_keeps_block(g: &Grid, a: Seq<u8>, b: Seq<u8>, t: int)
    requires
        whitens(a, b),
        a.len() == g.size(),
        black_block(g, a, t),
    ensures
        black_block(g, b, t),
{
    lemma_block_in_range(g, t);
    let w = g.w as int;
    assert(b[t] == a[t] || (a[t] == UNKNOWN && b[t] == WHITE));
    assert(b[t + 1] == a[t + 1] || (a[t + 1] == UNKNOWN && b[t + 1] == WHITE));
    assert(b[t + w] == a[t + w] || (a[t + w] == UNKNOWN && b[t + w] == WHITE));
    assert(b[t + w + 1] == a[t + w + 1] || (a[t + w + 1] == UNKNOWN && b[t + w + 1] == WHITE));
}

/// Whitening cannot make a block with three walls and an open cell.
pub proof fn lemma_whitens_three(g: &Grid, a: Seq<u8>, b: Seq<u8>, t: int)
    requires
        whitens(a, b),
        a.len() == g.size(),
        three_open(g, b, t),
    ensures
        three_open(g, a, t),
{
    lemma_block_in_range(g, t);
    let w = g.w as int;
    assert(b[t] == a[t] || (a[t] == UNKNOWN && b[t] == WHITE));
    assert(b[t + 1] == a[t + 1] || (a[t + 1] == UNKNOWN && b[t + 1] == WHITE));
    assert(b[t + w] == a[t + w] || (a[t + w] == UNKNOWN && b[t + w] == WHITE));
    assert(b[t + w + 1] == a[t + w + 1] || (a[t + w + 1] == UNKNOWN && b[t + w + 1] == WHITE));
}

/// With no block of three walls and an open cell, any queue covers them.
pub proof fn lemma_covers3_none(g: &Grid, s: Seq<u8>, q: Seq<usize>)
    requires
        forall|t: int| !#[trigger] three_open(g, s, t),
    ensures
        queue_covers3(g, s, q),
{
    reveal(queue_covers3);
}

/// An empty queue covers no block of three walls and an open cell.
pub proof fn lemma_covers3_empty(g: &Grid, s: Seq<u8>, q: Seq<usize>)
    requires
        queue_covers3(g, s, q),
        q.len() == 0,
    ensures
        forall|t: int| !#[trigger] three_open(g, s, t),
{
    reveal(queue_covers3);
}

/// Whitening keeps the queue covering every block of three walls and an
/// open cell.
pub proof fn lemma_whitens_covers3(g: &Grid, a: Seq<u8>, b: Seq<u8>, q: Seq<usize>)
    requires
        whitens(a, b),
        a.len() == g.size(),
        queue_covers3(g, a, q),
    ensures
        queue_covers3(g, b, q),
{
    reveal(queue_covers3);
    assert forall|t: int| #[trigger] three_open(g, b, t) implies exists|j: int|
        0 <= j < q.len() && covers(g, t, #[trigger] q[j] as int) by {
        lemma_whitens_three(g, a, b, t);
    }
}

/// Whitening one open cell keeps the queue covering every block of three
/// walls and an open cell.
pub proof fn lemma_whitens_block_one3(g: &Grid, st: Seq<u8>, c: int, q: Seq<usize>)
    requires
        queue_covers3(g, st, q),
        0 <= c < st.len(),
        st.len() == g.size(),
        st[c] == UNKNOWN,
    ensures
        queue_covers3(g, st.update(c, WHITE), q),
{
    let st2 = st.update(c, WHITE);
    assert(whitens(st, st2));
    lemma_whitens_covers3(g, st, st2, q);
}

/// Blackening a cell and queueing it keeps the queue covering every block
/// of three walls and an open cell.
pub proof fn lemma_covers3_black(g: &Grid, st: Seq<u8>, q: Seq<usize>, c: usize)
    requires
        queue_covers3(g, st, q),
        c < st.len(),
        st.len() == g.size(),
    ensures
        queue_covers3(g, st.update(c as int, BLACK), q.push(c)),
{
    reveal(queue_covers3);
    let st2 = st.update(c as int, BLACK);
    let q2 = q.push(c);
    assert forall|t: int| #[trigger] three_open(g, st2, t) implies exists|j: int|
        0 <= j < q2.len() && covers(g, t, #[trigger] q2[j] as int) by {
        if covers(g, t, c as int) {
            assert(q2[q.len() as int] == c);
        } else {
            lemma_block_in_range(g, t);
            let w = g.w as int;
            assert(st2[t] == st[t] && st2[t + 1] == st[t + 1] && st2[t + w] == st[t + w] && st2[t + w
                + 1] == st[t + w + 1]);
            assert(three_open(g, st, t));
            let j = choose|j: int| 0 <= j < q.len() && covers(g, t, #[trigger] q[j] as int);
            assert(q2[j] == q[j]);
        }
    }
}

/// The four cells of a block lie on the board.
pub proof fn lemma_block_in_range(g: &Grid, t: int)
    requires
        block_at(g, t),
    ensures
        t + g.w + 1 < g.size(),
        col(g.w as int, t + 1) == col(g.w as int, t) + 1,
        row(g.w as int, t + 1) == row(g.w as int, t),
        col(g.w as int, t + g.w) == col(g.w as int, t),
        row(g.w as int, t + g.w) == row(g.w as int, t) + 1,
        col(g.w as int, t + g.w + 1) == col(g.w as int, t) + 1,
        row(g.w as int, t + g.w + 1) == row(g.w as int, t) + 1,
{
    reveal(Scratch::ready);
    reveal(Scratch::analysis_ok);
    reveal(queue_covers);
    reveal(Solver::best_ok);
    reveal(Solver::clue_settled);
    reveal(Solver::keeps_solutions);
    reveal(Solver::no_solution);
    let w = g.w as int;
    let h = g.h as int;
    lemma_cell_coords(w, h, t);
    let x = col(w, t);
    let y = row(w, t);
    lemma_idx_coords(w, h, x + 1, y);
    lemma_idx_coords(w, h, x, y + 1);
    lemma_idx_coords(w, h, x + 1, y + 1);
    assert((y + 1) * w + x == y * w + x + w) by (nonlinear_arith);
    assert((y + 1) * w + x + 1 == y * w + x + w + 1) by (nonlinear_arith);
}

/// Black cells among the first `q` cells of `quad`.
pub open spec fn quad_count(s: Seq<u8>, quad: Seq<usize>, q: int) -> int
    decreases q,
{
    if q <= 0 {
        0
    } else {
        quad_count(s, quad, q - 1) + if s[quad[q - 1] as int] == BLACK {
            1int
        } else {
            0int
        }
    }
}

/// Black cells in the block with top-left cell `t`.
pub open spec fn block_count(g: &Grid, s: Seq<u8>, t: int) -> int {
    let w = g.w as int;
    (if s[t] == BLACK { 1int } else { 0int }) + (if s[t + 1] == BLACK { 1int } else { 0int }) + (if s[t
        + w] == BLACK { 1int } else { 0int }) + (if s[t + w + 1] == BLACK { 1int } else { 0int })
}

} // verus!
