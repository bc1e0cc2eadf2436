//! Backtracking search over the propagated states.
//!
//! Before every branch the propagation runs to a fixpoint. The search then
//! splits on the clue with the fewest surviving neighbour patterns (which
//! decides up to eight cells at once), or, when every clue is decided, on the
//! most constrained open cell. A branch that propagates to a contradiction is
//! dropped; a state with no open cell left is a solution.

use vstd::prelude::*;
use vstd::arithmetic::power2::{
    lemma_pow2_adds, lemma_pow2_pos, lemma_pow2_strictly_increases, lemma_pow2_unfold, pow2,
};

use crate::clock::Deadline;
use crate::grid::Grid;
use crate::maskset::MaskSet;
use crate::model::{
    agrees, bit, black_nb, cell_mask, feasible, fits_marks, is_filled, lemma_bit_test,
    lemma_cell_mask_bits, lemma_nb_in_range, mask_alive, mask_on_board, satisfiable, BLACK,
    UNKNOWN, WHITE,
};
use crate::propagation::{
    blacks_linked, covers, mask_count, queue_covers, refines, Scratch,
};
use crate::region::connected;
use crate::rules::{black_block, potential, walls};
use crate::solver::{is_solution, SolveLimits, SolveOutcome, Solver};

verus! {

/// The most nodes a search from a state with `o` open cells can visit: a
/// full binary tree over them.
pub open spec fn tree_size(o: nat) -> int {
    pow2(o + 1) - 1
}

/// Bigger states may take bigger trees.
proof fn lemma_tree_size_grows(a: nat, b: nat)
    requires
        a <= b,
    ensures
        1 <= tree_size(a) <= tree_size(b),
{
    lemma_pow2_pos(a);
    lemma_pow2_unfold(a + 1);
    if a < b {
        lemma_pow2_strictly_increases(a + 1, b + 1);
    }
}

/// A tree over one more open cell holds two trees over one fewer, and its
/// root.
proof fn lemma_tree_size_split(o: nat)
    requires
        o >= 1,
    ensures
        tree_size(o) - 1 == 2 * tree_size((o - 1) as nat),
{
    lemma_pow2_unfold(o + 1);
}

/// `len` subtrees of a clue branch that decides `d` open cells, where at most
/// `2^d` patterns survive, fit below the root of a tree over `o` cells.
proof fn lemma_clue_branch_budget(o: nat, d: nat, len: nat)
    requires
        1 <= d <= o,
        len <= pow2(d),
    ensures
        len * tree_size((o - d) as nat) <= tree_size(o) - 1,
{
    let r = (o - d) as nat;
    lemma_tree_size_grows(r, (o - 1) as nat);
    lemma_tree_size_split(o);
    if len <= 1 {
        assert(len * tree_size(r) <= tree_size(r)) by (nonlinear_arith)
            requires
                len <= 1,
                tree_size(r) >= 1,
        ;
    } else {
        lemma_pow2_adds(d, r + 1);
        assert(d + (r + 1) == o + 1);
        let p = pow2(r + 1) as int;
        assert(len * (p - 1) <= pow2(d) * p - 2) by (nonlinear_arith)
            requires
                2 <= len <= pow2(d),
                p >= 1,
        ;
    }
}

/// Deciding a set of open cells takes them all off the open count.
proof fn lemma_decides_count_set(before: Seq<u8>, after: Seq<u8>, cells: Set<int>)
    requires
        decides(before, after),
        cells.finite(),
        forall|c: int|
            #[trigger] cells.contains(c) ==> 0 <= c < before.len() && before[c] != BLACK && before[c]
                != WHITE && (after[c] == BLACK || after[c] == WHITE),
    ensures
        count_open(after) + cells.len() <= count_open(before),
    decreases before.len(),
{
    if before.len() == 0 {
        assert(cells =~= Set::empty());
    } else {
        let b = before.drop_last();
        let a = after.drop_last();
        let last = before.len() - 1;
        assert(decides(b, a)) by {
            assert forall|i: int| 0 <= i < b.len() implies #[trigger] a[i] == b[i] || a[i] == BLACK || a[i]
                == WHITE by {
                assert(after[i] == before[i] || after[i] == BLACK || after[i] == WHITE);
            }
        }
        let rest = cells.remove(last);
        assert forall|c: int| #[trigger] rest.contains(c) implies 0 <= c < b.len() && b[c] != BLACK && b[c]
            != WHITE && (a[c] == BLACK || a[c] == WHITE) by {
            assert(cells.contains(c));
        }
        lemma_decides_count_set(b, a, rest);
        assert(after[last] == before[last] || after[last] == BLACK || after[last] == WHITE);
        if cells.contains(last) {
            assert(rest.len() == cells.len() - 1);
        } else {
            assert(rest =~= cells);
        }
    }
}

/// Masks that agree on every bit outside `free` number at most two to the
/// size of `free`.
proof fn lemma_agreeing_masks(ms: Set<u8>, free: Set<int>)
    requires
        ms.finite(),
        free.finite(),
        forall|m1: u8, m2: u8, k: int|
            ms.contains(m1) && ms.contains(m2) && 0 <= k < 8 && !free.contains(k) ==> #[trigger] bit(m1, k as u8)
                == #[trigger] bit(m2, k as u8),
    ensures
        ms.len() <= pow2(free.len()),
    decreases free.len(),
{
    if free.len() == 0 {
        lemma_pow2_pos(0);
        assert(pow2(0) == 1) by {
            vstd::arithmetic::power2::lemma2_to64();
        }
        if ms.len() > 1 {
            let x = ms.choose();
            let y = ms.remove(x).choose();
            assert(ms.remove(x).len() > 0);
            assert(ms.remove(x).contains(y));
            assert(free =~= Set::empty());
            assert forall|k: int| 0 <= k < 8 implies #[trigger] bit(x, k as u8) == bit(y, k as u8) by {
                assert(!free.contains(k));
            }
            lemma_bits_eq(x, y);
        }
    } else {
        let b = free.choose();
        let rest = free.remove(b);
        let ones = ms.filter(|m: u8| bit(m, b as u8));
        let zeros = ms.filter(|m: u8| !bit(m, b as u8));
        assert forall|m1: u8, m2: u8, k: int|
            ones.contains(m1) && ones.contains(m2) && 0 <= k < 8 && !rest.contains(k) implies #[trigger] bit(
            m1,
            k as u8,
        ) == #[trigger] bit(m2, k as u8) by {
            if k != b {
                assert(!free.contains(k));
            }
        }
        assert forall|m1: u8, m2: u8, k: int|
            zeros.contains(m1) && zeros.contains(m2) && 0 <= k < 8 && !rest.contains(k) implies #[trigger] bit(
            m1,
            k as u8,
        ) == #[trigger] bit(m2, k as u8) by {
            if k != b {
                assert(!free.contains(k));
            }
        }
        lemma_agreeing_masks(ones, rest);
        lemma_agreeing_masks(zeros, rest);
        assert(ms =~= ones + zeros);
        vstd::set_lib::lemma_set_disjoint_lens(ones, zeros);
        lemma_pow2_unfold(free.len());
    }
}

/// The neighbour positions of `ci` that are on the board and still open.
pub open spec fn free_positions(g: &Grid, st: Seq<u8>, ci: int) -> Set<int> {
    Set::new(
        |k: int|
            0 <= k < 8 && g.nb(ci, k) is Some && st[g.nb(ci, k)->Some_0 as int] != BLACK && st[g.nb(
                ci,
                k,
            )->Some_0 as int] != WHITE,
    )
}

/// The surviving patterns of a clue differ only on its open neighbours, so
/// there are at most two to the number of those.
proof fn lemma_alive_masks_bound(g: &Grid, st: Seq<u8>, ci: int, clue: Seq<u8>, masks: Seq<u8>)
    requires
        g.wf(),
        0 <= ci < g.size(),
        st.len() == g.size(),
        masks.no_duplicates(),
        forall|j: int| 0 <= j < masks.len() ==> mask_alive(g, st, ci, clue, #[trigger] masks[j]),
    ensures
        free_positions(g, st, ci).finite(),
        masks.len() <= pow2(free_positions(g, st, ci).len()),
{
    let free = free_positions(g, st, ci);
    let range = vstd::set_lib::set_int_range(0, 8);
    vstd::set_lib::lemma_int_range(0, 8);
    vstd::set_lib::lemma_len_subset(free, range);
    let ms = masks.to_set();
    masks.unique_seq_to_set();
    assert forall|m1: u8, m2: u8, k: int|
        ms.contains(m1) && ms.contains(m2) && 0 <= k < 8 && !free.contains(k) implies #[trigger] bit(
        m1,
        k as u8,
    ) == #[trigger] bit(m2, k as u8) by {
        let j1 = choose|j: int| 0 <= j < masks.len() && masks[j] == m1;
        let j2 = choose|j: int| 0 <= j < masks.len() && masks[j] == m2;
        assert(mask_alive(g, st, ci, clue, masks[j1]));
        assert(mask_alive(g, st, ci, clue, masks[j2]));
        assert(g.nb(ci, k) == g.nb(ci, k));
    }
    lemma_agreeing_masks(ms, free);
}

/// A clue has no more open neighbours than the board has open cells.
proof fn lemma_free_within_open(g: &Grid, st: Seq<u8>, ci: int)
    requires
        g.wf(),
        0 <= ci < g.size(),
        st.len() == g.size(),
    ensures
        free_positions(g, st, ci).len() <= count_open(st),
{
    let nx = Seq::new(st.len(), |i: int| if st[i] != BLACK && st[i] != WHITE { BLACK } else { st[i] });
    assert forall|b: int| 0 <= b < 8 && #[trigger] g.nb(ci, b) is Some implies nx[g.nb(ci, b)->Some_0 as int]
        == BLACK || nx[g.nb(ci, b)->Some_0 as int] == WHITE by {
        lemma_nb_in_range(g, ci, b);
    }
    lemma_clue_child_count(g, st, nx, ci);
}

/// Writing a pattern around `ci` decides all its open neighbours at once.
proof fn lemma_clue_child_count(g: &Grid, st: Seq<u8>, nx: Seq<u8>, ci: int)
    requires
        g.wf(),
        0 <= ci < g.size(),
        st.len() == g.size(),
        decides(st, nx),
        forall|b: int|
            0 <= b < 8 && #[trigger] g.nb(ci, b) is Some ==> nx[g.nb(ci, b)->Some_0 as int] == BLACK
                || nx[g.nb(ci, b)->Some_0 as int] == WHITE,
    ensures
        free_positions(g, st, ci).finite(),
        count_open(nx) + free_positions(g, st, ci).len() <= count_open(st),
{
    let free = free_positions(g, st, ci);
    let range = vstd::set_lib::set_int_range(0, 8);
    vstd::set_lib::lemma_int_range(0, 8);
    vstd::set_lib::lemma_len_subset(free, range);
    let f = |k: int| g.nb(ci, k)->Some_0 as int;
    let cells = free.map(f);
    assert forall|k1: int, k2: int| free.contains(k1) && free.contains(k2) && #[trigger] f(k1) == #[trigger] f(
        k2,
    ) implies k1 == k2 by {
        crate::grid::lemma_nb_injective(g, ci, k1, k2);
    }
    assert(vstd::relations::injective_on(f, free));
    vstd::set_lib::lemma_map_size(free, cells, f);
    assert forall|c: int| #[trigger] cells.contains(c) implies 0 <= c < st.len() && st[c] != BLACK && st[c]
        != WHITE && (nx[c] == BLACK || nx[c] == WHITE) by {
        let k = choose|k: int| free.contains(k) && f(k) == c;
        lemma_nb_in_range(g, ci, k);
    }
    lemma_decides_count_set(st, nx, cells);
}

/// Every cell is open, black or white.
pub open spec fn well_marked(s: Seq<u8>) -> bool {
    forall|i: int| 0 <= i < s.len() ==> #[trigger] s[i] == UNKNOWN || s[i] == BLACK || s[i] == WHITE
}

/// Number of cells that are neither black nor white.
pub open spec fn count_open(s: Seq<u8>) -> nat
    decreases s.len(),
{
    if s.len() == 0 {
        0
    } else {
        count_open(s.drop_last()) + if s.last() != BLACK && s.last() != WHITE {
            1nat
        } else {
            0nat
        }
    }
}

/// `after` keeps every cell of `before` or makes it black or white.
pub open spec fn decides(before: Seq<u8>, after: Seq<u8>) -> bool {
    &&& after.len() == before.len()
    &&& forall|i: int|
        0 <= i < before.len() ==> #[trigger] after[i] == before[i] || after[i] == BLACK || after[i]
            == WHITE
}

/// The value a mask gives to neighbour `b`.
pub open spec fn mask_value(m: u8, b: int) -> u8 {
    if bit(m, b as u8) {
        BLACK
    } else {
        WHITE
    }
}

/// Deciding cells never adds open ones.
pub proof fn lemma_decides_count(before: Seq<u8>, after: Seq<u8>)
    requires
        decides(before, after),
    ensures
        count_open(after) <= count_open(before),
    decreases before.len(),
{
    if before.len() > 0 {
        let b = before.drop_last();
        let a = after.drop_last();
        assert(decides(b, a)) by {
            assert forall|i: int| 0 <= i < b.len() implies #[trigger] a[i] == b[i] || a[i] == BLACK
                || a[i] == WHITE by {
                assert(after[i] == before[i] || after[i] == BLACK || after[i] == WHITE);
            }
        }
        lemma_decides_count(b, a);
        assert(after[after.len() - 1] == before[before.len() - 1] || after[after.len() - 1] == BLACK
            || after[after.len() - 1] == WHITE);
    }
}

/// Deciding an open cell leaves fewer open cells.
pub proof fn lemma_decides_count_lt(before: Seq<u8>, after: Seq<u8>, c: int)
    requires
        decides(before, after),
        0 <= c < before.len(),
        before[c] != BLACK && before[c] != WHITE,
        after[c] == BLACK || after[c] == WHITE,
    ensures
        count_open(after) < count_open(before),
    decreases before.len(),
{
    let b = before.drop_last();
    let a = after.drop_last();
    assert(decides(b, a)) by {
        assert forall|i: int| 0 <= i < b.len() implies #[trigger] a[i] == b[i] || a[i] == BLACK || a[i]
            == WHITE by {
            assert(after[i] == before[i] || after[i] == BLACK || after[i] == WHITE);
        }
    }
    if c == before.len() - 1 {
        lemma_decides_count(b, a);
    } else {
        lemma_decides_count_lt(b, a, c);
        assert(after[after.len() - 1] == before[before.len() - 1] || after[after.len() - 1] == BLACK
            || after[after.len() - 1] == WHITE);
    }
}

/// A refinement decides cells.
pub proof fn lemma_refines_decides(before: Seq<u8>, after: Seq<u8>)
    requires
        refines(before, after),
    ensures
        decides(before, after),
{
    assert forall|i: int| 0 <= i < before.len() implies #[trigger] after[i] == before[i] || after[i]
        == BLACK || after[i] == WHITE by {
        assert(after[i] == before[i] || (before[i] == UNKNOWN && (after[i] == BLACK || after[i]
            == WHITE)));
    }
}

/// An assignment that keeps the marks of a refinement keeps the marks it
/// refines.
pub proof fn lemma_agrees_back(a: Seq<u8>, b: Seq<u8>, f: Seq<u8>)
    requires
        refines(a, b),
        agrees(f, b),
    ensures
        agrees(f, a),
{
    assert forall|i: int| 0 <= i < a.len() && a[i] != UNKNOWN implies f[i] == #[trigger] a[i] by {
        assert(b[i] == a[i] || (a[i] == UNKNOWN && (b[i] == BLACK || b[i] == WHITE)));
    }
}

/// Two masks with the same eight bits are equal.
pub proof fn lemma_bits_eq(a: u8, b: u8)
    requires
        forall|k: int| 0 <= k < 8 ==> #[trigger] bit(a, k as u8) == bit(b, k as u8),
    ensures
        a == b,
{
    assert(bit(a, 0int as u8) == bit(b, 0int as u8));
    assert(bit(a, 1int as u8) == bit(b, 1int as u8));
    assert(bit(a, 2int as u8) == bit(b, 2int as u8));
    assert(bit(a, 3int as u8) == bit(b, 3int as u8));
    assert(bit(a, 4int as u8) == bit(b, 4int as u8));
    assert(bit(a, 5int as u8) == bit(b, 5int as u8));
    assert(bit(a, 6int as u8) == bit(b, 6int as u8));
    assert(bit(a, 7int as u8) == bit(b, 7int as u8));
    assert(a == b) by (bit_vector)
        requires
            ((a >> 0u8) & 1u8 == 1u8) == ((b >> 0u8) & 1u8 == 1u8),
            ((a >> 1u8) & 1u8 == 1u8) == ((b >> 1u8) & 1u8 == 1u8),
            ((a >> 2u8) & 1u8 == 1u8) == ((b >> 2u8) & 1u8 == 1u8),
            ((a >> 3u8) & 1u8 == 1u8) == ((b >> 3u8) & 1u8 == 1u8),
            ((a >> 4u8) & 1u8 == 1u8) == ((b >> 4u8) & 1u8 == 1u8),
            ((a >> 5u8) & 1u8 == 1u8) == ((b >> 5u8) & 1u8 == 1u8),
            ((a >> 6u8) & 1u8 == 1u8) == ((b >> 6u8) & 1u8 == 1u8),
            ((a >> 7u8) & 1u8 == 1u8) == ((b >> 7u8) & 1u8 == 1u8),
    ;
}

/// With two or more masks counted there are two different ones.
pub proof fn lemma_mask_count_two(f: spec_fn(u8) -> bool, k: int) -> (r: (u8, u8))
    requires
        0 <= k <= 256,
        mask_count(f, k) >= 2,
    ensures
        r.0 != r.1,
        f(r.0),
        f(r.1),
    decreases k,
{
    if f((k - 1) as u8) && mask_count(f, k - 1) >= 1 {
        let a = lemma_mask_count_one(f, k - 1);
        (a, (k - 1) as u8)
    } else {
        lemma_mask_count_two(f, k - 1)
    }
}

proof fn lemma_mask_count_one(f: spec_fn(u8) -> bool, k: int) -> (a: u8)
    requires
        0 <= k <= 256,
        mask_count(f, k) >= 1,
    ensures
        f(a),
        (a as int) < k,
    decreases k,
{
    if f((k - 1) as u8) {
        (k - 1) as u8
    } else {
        lemma_mask_count_one(f, k - 1)
    }
}

/// Black neighbours among the neighbours `0..k` of cell `i`.
pub open spec fn black_count(g: &Grid, s: Seq<u8>, i: int, k: int) -> nat
    decreases k,
{
    if k <= 0 {
        0
    } else {
        black_count(g, s, i, k - 1) + if black_nb(g, s, i, k - 1) {
            1nat
        } else {
            0nat
        }
    }
}

/// Which piece of the puzzle to split on next.
pub enum Branch {
    /// Every cell is decided.
    Done,
    /// Try both values of one open cell.
    Cell(usize),
    /// Try every surviving neighbour pattern of one clue.
    Clue { cell: usize, masks: Vec<u8> },
}

impl Solver {
    /// How strongly the search wants to split on the open cell `i`: the
    /// clues around it count most, black neighbours (which decide
    /// connectivity) a little.
    pub open spec fn score(&self, s: Seq<u8>, i: int) -> int {
        self.weight@[i] * 4 + 3 * black_count(&self.grid, s, i, 8)
    }

    /// `c` is the first open cell with the highest score.
    pub open spec fn is_pick(&self, s: Seq<u8>, c: int) -> bool {
        &&& 0 <= c < s.len()
        &&& s[c] == UNKNOWN
        &&& forall|j: int|
            0 <= j < s.len() && #[trigger] s[j] == UNKNOWN ==> self.score(s, j) <= self.score(s, c)
        &&& forall|j: int| 0 <= j < c && #[trigger] s[j] == UNKNOWN ==> self.score(s, j) < self.score(s, c)
    }

    /// Most constrained unknown cell, with a nudge towards cells that already
    /// touch black cells (those decide connectivity).
    fn pick_cell(&self, state: &Vec<u8>) -> (r: Option<usize>)
        requires
            self.wf(),
            state@.len() == self.grid.size(),
        ensures
            r is None <==> forall|i: int| 0 <= i < state@.len() ==> #[trigger] state@[i] != UNKNOWN,
            r matches Some(c) ==> self.is_pick(state@, c as int),
    {
        let ghost g = &self.grid;
        let n = state.len();
        let mut best: Option<(u32, usize)> = None;
        let mut i: usize = 0;
        while i < n
            invariant
                self.wf(),
                g == &self.grid,
                n == state@.len(),
                n == g.size(),
                i <= n,
                best is None <==> forall|j: int| 0 <= j < i ==> #[trigger] state@[j] != UNKNOWN,
                best matches Some(b) ==> {
                    &&& b.1 < i
                    &&& state@[b.1 as int] == UNKNOWN
                    &&& b.0 == self.score(state@, b.1 as int)
                    &&& forall|j: int|
                        0 <= j < i && #[trigger] state@[j] == UNKNOWN ==> self.score(state@, j) <= b.0
                    &&& forall|j: int|
                        0 <= j < b.1 && #[trigger] state@[j] == UNKNOWN ==> self.score(state@, j) < b.0
                },
            decreases n - i,
        {
            if state[i] == UNKNOWN {
                let mut score: u32 = self.weight[i] as u32 * 4;
                let neighbors = self.grid.neighbors(i);
                let mut b: usize = 0;
                while b < 8
                    invariant
                        self.wf(),
                        g == &self.grid,
                        i < n,
                        n == state@.len(),
                        n == g.size(),
                        b <= 8,
                        forall|j: int| 0 <= j < 8 ==> #[trigger] neighbors@[j] == g.nb(i as int, j),
                        score == self.weight@[i as int] * 4 + 3 * black_count(g, state@, i as int, b as int),
                        black_count(g, state@, i as int, b as int) <= b,
                        self.weight@[i as int] <= u16::MAX,
                    decreases 8 - b,
                {
                    if let Some(nb) = neighbors[b] {
                        proof {
                            lemma_nb_in_range(g, i as int, b as int);
                        }
                        if state[nb] == BLACK {
                            score = score + 3;
                        }
                    }
                    b = b + 1;
                }
                let better = match best {
                    None => true,
                    Some(bs) => score > bs.0,
                };
                if better {
                    best = Some((score, i));
                }
            }
            i = i + 1;
        }
        match best {
            Some(b) => Some(b.1),
            None => None,
        }
    }

    /// Which piece of the puzzle to split on next.
    ///
    /// The strongest choice is the clue with the fewest surviving neighbour
    /// patterns: branching on those patterns assigns up to eight cells at
    /// once. That clue is found while propagating, so no second scan is
    /// needed. Only when every clue is fully determined do we fall back to a
    /// single cell (which can then only be a cell no clue constrains).
    fn pick_branch(&self, state: &Vec<u8>, best: Option<(usize, MaskSet)>) -> (br: Branch)
        requires
            self.wf(),
            state@.len() == self.grid.size(),
            best matches Some(b) ==> b.0 < self.clues@.len(),
        ensures
            best matches Some(b) ==> br matches Branch::Clue { cell, masks } && cell == self.clues@[b.0 as int].0
                && (forall|m: u8| masks@.contains(m) <==> b.1.has(m)) && (forall|e: int, f: int|
                0 <= e < f < masks@.len() ==> masks@[e] != masks@[f]),
            best is None ==> (br is Done <==> forall|i: int|
                0 <= i < state@.len() ==> #[trigger] state@[i] != UNKNOWN),
            best is None ==> (br matches Branch::Cell(c) ==> self.is_pick(state@, c as int)),
            best is None ==> !(br is Clue),
    {
        match best {
            Some(b) => {
                let cell = self.clue_cells[b.0];
                Branch::Clue { cell, masks: b.1.to_vec() }
            },
            None => match self.pick_cell(state) {
                Some(cell) => Branch::Cell(cell),
                None => Branch::Done,
            },
        }
    }

    /// Assign the neighbours of `cell` as mask `m` says, queueing the cells
    /// that turn black.
    fn assign_mask(&self, next: &mut Vec<u8>, cell: usize, m: u8, queue: &mut Vec<usize>)
        requires
            self.wf(),
            cell < self.grid.size(),
            old(next)@.len() == self.grid.size(),
            forall|j: int| 0 <= j < old(queue)@.len() ==> #[trigger] old(queue)@[j] < self.grid.size(),
        ensures
            decides(old(next)@, final(next)@),
            forall|i: int|
                0 <= i < self.grid.size() && #[trigger] final(next)@[i] != old(next)@[i] ==> exists|b: int|
                    0 <= b < 8 && #[trigger] self.grid.nb(cell as int, b) == Some(i as usize)
                        && final(next)@[i] == mask_value(m, b),
            forall|b: int|
                0 <= b < 8 && #[trigger] self.grid.nb(cell as int, b) is Some ==> final(next)@[self.grid.nb(
                    cell as int,
                    b,
                )->Some_0 as int] == BLACK || final(next)@[self.grid.nb(cell as int, b)->Some_0 as int]
                    == WHITE,
            final(queue)@.len() >= old(queue)@.len(),
            forall|j: int| 0 <= j < final(queue)@.len() ==> #[trigger] final(queue)@[j] < self.grid.size(),
            forall|j: int| 0 <= j < old(queue)@.len() ==> #[trigger] final(queue)@[j] == old(queue)@[j],
            forall|i: int|
                0 <= i < self.grid.size() && #[trigger] final(next)@[i] == BLACK && old(next)@[i] != BLACK
                    ==> final(queue)@.contains(i as usize),
    {
        let ghost g = &self.grid;
        let ghost st = next@;
        let ghost q0 = queue@;
        let neighbors = self.grid.neighbors(cell);
        let mut b: usize = 0;
        while b < 8
            invariant
                self.wf(),
                g == &self.grid,
                st == old(next)@,
                q0 == old(queue)@,
                cell < g.size(),
                st.len() == g.size(),
                forall|j: int| 0 <= j < 8 ==> #[trigger] neighbors@[j] == g.nb(cell as int, j),
                b <= 8,
                decides(st, next@),
                forall|i: int|
                    0 <= i < g.size() && #[trigger] next@[i] != st[i] ==> exists|c: int|
                        0 <= c < b && #[trigger] g.nb(cell as int, c) == Some(i as usize) && next@[i]
                            == mask_value(m, c),
                forall|c: int|
                    0 <= c < b && #[trigger] g.nb(cell as int, c) is Some ==> next@[g.nb(cell as int, c)->Some_0 as int]
                        == BLACK || next@[g.nb(cell as int, c)->Some_0 as int] == WHITE,
                queue@.len() >= q0.len(),
                forall|j: int| 0 <= j < queue@.len() ==> #[trigger] queue@[j] < g.size(),
                forall|j: int| 0 <= j < q0.len() ==> #[trigger] queue@[j] == q0[j],
                forall|i: int|
                    0 <= i < g.size() && #[trigger] next@[i] == BLACK && st[i] != BLACK ==> queue@.contains(
                        i as usize,
                    ),
            decreases 8 - b,
        {
            if let Some(nb) = neighbors[b] {
                proof {
                    lemma_nb_in_range(g, cell as int, b as int);
                    lemma_bit_test(m, b as u8);
                }
                let value = if m & (1u8 << (b as u8)) != 0 {
                    BLACK
                } else {
                    WHITE
                };
                let ghost prev = next@;
                let ghost pq = queue@;
                next.set(nb, value);
                if value == BLACK {
                    queue.push(nb);
                }
                proof {
                    assert forall|i: int|
                        0 <= i < g.size() && #[trigger] next@[i] == BLACK && st[i] != BLACK implies queue@.contains(
                            i as usize,
                        ) by {
                        if i == nb {
                            assert(queue@[queue@.len() - 1] == nb);
                        } else {
                            assert(pq.contains(i as usize));
                            let j = choose|j: int| 0 <= j < pq.len() && pq[j] == i as usize;
                            assert(queue@[j] == i as usize);
                        }
                    }
                    assert forall|i: int|
                        0 <= i < g.size() && #[trigger] next@[i] != st[i] implies exists|c: int|
                            0 <= c < b + 1 && #[trigger] g.nb(cell as int, c) == Some(i as usize)
                                && next@[i] == mask_value(m, c) by {
                        if i == nb {
                            assert(g.nb(cell as int, b as int) == Some(i as usize));
                        } else {
                            assert(prev[i] != st[i]);
                        }
                    }
                    assert forall|c: int|
                        0 <= c < b + 1 && #[trigger] g.nb(cell as int, c) is Some implies next@[g.nb(cell as int, c)->Some_0 as int]
                            == BLACK || next@[g.nb(cell as int, c)->Some_0 as int] == WHITE by {
                        lemma_nb_in_range(g, cell as int, c);
                    }
                }
            }
            b = b + 1;
        }
    }
}

impl Solver {
    /// A fully decided state at the propagation fixpoint is a solution.
    pub proof fn lemma_found_solution(&self, f: Seq<u8>)
        requires
            self.wf(),
            f.len() == self.grid.size(),
            is_filled(f),
            self.settled(f),
            forall|t: int| !#[trigger] black_block(&self.grid, f, t),
        ensures
            is_solution(&self.grid, f, self.clues@),
    {
        reveal(Solver::clue_settled);
        let g = &self.grid;
        assert forall|t: int| 0 <= t < self.clues@.len() implies f[(#[trigger] self.clues@[t]).0 as int]
            == WHITE && feasible(g, self.clues@[t].0 as int, self.clues@[t].1@, cell_mask(
            g,
            f,
            self.clues@[t].0 as int,
        )) by {
            let ci = self.clues@[t].0 as int;
            let clue = self.clues@[t].1@;
            assert(self.clue_cells@[t] == self.clues@[t].0);
            assert(f[ci] == BLACK || f[ci] == WHITE);
            assert(self.clue_settled(f, t));
            let m = choose|m: u8| mask_alive(g, f, ci, clue, m);
            let cm = cell_mask(g, f, ci);
            lemma_cell_mask_bits(g, f, ci);
            assert forall|k: int| 0 <= k < 8 implies #[trigger] bit(m, k as u8) == bit(cm, k as u8) by {
                lemma_nb_in_range(g, ci, k);
                assert(bit(cm, k as u8) == black_nb(g, f, ci, k));
                match g.nb(ci, k) {
                    Some(j) => {
                        assert(f[j as int] == BLACK || f[j as int] == WHITE);
                    },
                    None => {
                        assert(mask_on_board(g, ci, m));
                    },
                }
            }
            lemma_bits_eq(m, cm);
        }
        assert(potential(f) =~= walls(f)) by {
            assert forall|i: int| 0 <= i < f.len() implies potential(f)[i] == walls(f)[i] by {
                assert(f[i] == BLACK || f[i] == WHITE);
            }
        }
        assert forall|a: int, b: int|
            0 <= a < f.len() && 0 <= b < f.len() && #[trigger] f[a] == BLACK && #[trigger] f[b] == BLACK
                implies connected(g, walls(f), a, b) by {
            assert(blacks_linked(g, f));
        }
    }

    /// A clue with two or more surviving masks has an open neighbour on
    /// which two of them differ.
    pub proof fn lemma_open_neighbor(&self, st: Seq<u8>, k: int) -> (b: int)
        requires
            self.wf(),
            0 <= k < self.clues@.len(),
            st.len() == self.grid.size(),
            self.alive_count(st, k) >= 2,
        ensures
            0 <= b < 8,
            self.grid.nb(self.clues@[k].0 as int, b) is Some,
            st[self.grid.nb(self.clues@[k].0 as int, b)->Some_0 as int] != BLACK,
            st[self.grid.nb(self.clues@[k].0 as int, b)->Some_0 as int] != WHITE,
    {
        let g = &self.grid;
        let ci = self.clues@[k].0 as int;
        let clue = self.clues@[k].1@;
        let f = |m: u8| mask_alive(g, st, ci, clue, m);
        let (m1, m2) = lemma_mask_count_two(f, 256);
        if forall|j: int| 0 <= j < 8 ==> #[trigger] bit(m1, j as u8) == bit(m2, j as u8) {
            lemma_bits_eq(m1, m2);
        }
        let b = choose|j: int| 0 <= j < 8 && #[trigger] bit(m1, j as u8) != bit(m2, j as u8);
        assert(mask_on_board(g, ci, m1));
        assert(mask_on_board(g, ci, m2));
        assert(g.nb(ci, b) is Some);
        assert(fits_marks(g, ci, m1, st));
        assert(fits_marks(g, ci, m2, st));
        b
    }
}

/// `after` keeps the states of `before` and adds states of `n` cells.
pub open spec fn extends(before: Seq<Vec<u8>>, after: Seq<Vec<u8>>, n: int) -> bool {
    &&& after.len() >= before.len()
    &&& forall|j: int| 0 <= j < before.len() ==> #[trigger] after[j] == before[j]
    &&& forall|j: int| before.len() <= j < after.len() ==> (#[trigger] after[j])@.len() == n
}

impl Solver {
    /// Every state added after `before` is a solution keeping the marks of
    /// `marks`.
    #[verifier::opaque]
    pub open spec fn found_sound(&self, before: Seq<Vec<u8>>, after: Seq<Vec<u8>>, marks: Seq<u8>) -> bool {
        forall|j: int|
            before.len() <= j < after.len() ==> is_solution(&self.grid, (#[trigger] after[j])@, self.clues@)
                && agrees(after[j]@, marks)
    }

    /// Every solution keeping the marks of `marks` was added after `before`.
    #[verifier::opaque]
    pub open spec fn found_all(&self, before: Seq<Vec<u8>>, after: Seq<Vec<u8>>, marks: Seq<u8>) -> bool {
        forall|s: Seq<u8>|
            #[trigger] is_solution(&self.grid, s, self.clues@) && agrees(s, marks) ==> exists|j: int|
                before.len() <= j < after.len() && (#[trigger] after[j])@ == s
    }
}

impl Solver {
    /// The states added after `before` are pairwise different.
    #[verifier::opaque]
    pub open spec fn found_distinct(&self, before: Seq<Vec<u8>>, after: Seq<Vec<u8>>) -> bool {
        forall|i: int, j: int|
            before.len() <= i < j < after.len() ==> (#[trigger] after[i])@ != (#[trigger] after[j])@
    }
}

/// Nothing added yet: nothing repeats.
proof fn lemma_distinct_none(sv: &Solver, out: Seq<Vec<u8>>)
    ensures
        sv.found_distinct(out, out),
{
    reveal(Solver::found_distinct);
}

/// Two batches, each without repeats, with nothing in common, make one
/// batch without repeats.
proof fn lemma_distinct_join(
    sv: &Solver,
    out0: Seq<Vec<u8>>,
    out1: Seq<Vec<u8>>,
    out2: Seq<Vec<u8>>,
    apart: spec_fn(Seq<u8>) -> bool,
)
    requires
        extends(out0, out1, sv.grid.size()),
        extends(out1, out2, sv.grid.size()),
        sv.found_distinct(out0, out1),
        sv.found_distinct(out1, out2),
        forall|i: int| out0.len() <= i < out1.len() ==> !apart((#[trigger] out1[i])@),
        forall|j: int| out1.len() <= j < out2.len() ==> apart((#[trigger] out2[j])@),
    ensures
        sv.found_distinct(out0, out2),
{
    reveal(Solver::found_distinct);
    assert forall|i: int, j: int| out0.len() <= i < j < out2.len() implies (#[trigger] out2[i])@
        != (#[trigger] out2[j])@ by {
        if j < out1.len() {
            assert(out2[i] == out1[i] && out2[j] == out1[j]);
        } else if i < out1.len() {
            assert(out2[i] == out1[i]);
            assert(!apart(out1[i]@));
            assert(apart(out2[j]@));
        }
    }
}

/// Search budget and what it has used so far.
struct Ctx {
    nodes: u64,
    max_nodes: u64,
    deadline: Option<Deadline>,
    aborted: bool,
    scratch: Scratch,
}

/// No black block, and every cell that turned black since is queued: then
/// the queue covers every black block.
proof fn lemma_queue_new_blacks(g: &Grid, st: Seq<u8>, next: Seq<u8>, q: Seq<usize>)
    requires
        g.wf(),
        st.len() == g.size(),
        next.len() == g.size(),
        forall|t: int| !#[trigger] black_block(g, st, t),
        forall|i: int| 0 <= i < g.size() && #[trigger] next[i] == BLACK && st[i] != BLACK ==> q.contains(i as usize),
    ensures
        queue_covers(g, next, q),
{
    reveal(queue_covers);
    assert forall|t: int| #[trigger] black_block(g, next, t) implies exists|j: int|
        0 <= j < q.len() && covers(g, t, #[trigger] q[j] as int) by {
        crate::propagation::lemma_block_in_range(g, t);
        let w = g.w as int;
        assert(!black_block(g, st, t));
        let c = if st[t] != BLACK {
            t
        } else if st[t + 1] != BLACK {
            t + 1
        } else if st[t + w] != BLACK {
            t + w
        } else {
            t + w + 1
        };
        assert(next[c] == BLACK && st[c] != BLACK);
        assert(q.contains(c as usize));
        let j = choose|j: int| 0 <= j < q.len() && q[j] == c as usize;
        assert(covers(g, t, q[j] as int));
    }
}

impl Ctx {
    /// The context after a search step that started from `before`.
    spec fn follows(&self, before: &Ctx, n: int) -> bool {
        &&& self.scratch.sized(n)
        &&& self.nodes <= self.max_nodes
        &&& self.max_nodes == before.max_nodes
        &&& self.deadline == before.deadline
        &&& before.aborted ==> self.aborted
        &&& self.nodes >= before.nodes
        &&& self.aborted ==> before.aborted || self.nodes == self.max_nodes || self.deadline is Some
    }
}

/// Later additions keep an earlier complete find complete.
proof fn lemma_found_all_grow(
    sv: &Solver,
    b0: Seq<Vec<u8>>,
    b1: Seq<Vec<u8>>,
    a1: Seq<Vec<u8>>,
    a2: Seq<Vec<u8>>,
    marks: Seq<u8>,
    n: int,
)
    requires
        b0.len() <= b1.len(),
        sv.found_all(b1, a1, marks),
        extends(a1, a2, n),
    ensures
        sv.found_all(b0, a2, marks),
{
    reveal(Solver::found_all);
    assert forall|s: Seq<u8>| #[trigger] is_solution(&sv.grid, s, sv.clues@) && agrees(s, marks) implies exists|j: int|
        b0.len() <= j < a2.len() && (#[trigger] a2[j])@ == s by {
        let j = choose|j: int| b1.len() <= j < a1.len() && (#[trigger] a1[j])@ == s;
        assert(a2[j] == a1[j]);
    }
}

/// Solutions found below a refinement keep the marks of the state above it.
proof fn lemma_found_sound_join(
    sv: &Solver,
    b0: Seq<Vec<u8>>,
    b1: Seq<Vec<u8>>,
    a1: Seq<Vec<u8>>,
    st: Seq<u8>,
    next: Seq<u8>,
)
    requires
        extends(b0, b1, st.len() as int),
        extends(b1, a1, st.len() as int),
        sv.found_sound(b0, b1, st),
        sv.found_sound(b1, a1, next),
        refines(st, next),
    ensures
        sv.found_sound(b0, a1, st),
{
    reveal(Solver::found_sound);
    assert forall|j: int| b0.len() <= j < a1.len() implies is_solution(&sv.grid, (#[trigger] a1[j])@, sv.clues@)
        && agrees(a1[j]@, st) by {
        if j < b1.len() {
            assert(a1[j] == b1[j]);
        } else {
            lemma_agrees_back(st, next, a1[j]@);
        }
    }
}

/// What is found for a refinement that keeps every solution is found for
/// the state it refines.
proof fn lemma_found_back(sv: &Solver, b: Seq<Vec<u8>>, a: Seq<Vec<u8>>, st0: Seq<u8>, st1: Seq<u8>)
    requires
        refines(st0, st1),
        sv.keeps_solutions(st0, st1),
    ensures
        sv.found_sound(b, a, st1) ==> sv.found_sound(b, a, st0),
        sv.found_all(b, a, st1) ==> sv.found_all(b, a, st0),
{
    reveal(Solver::keeps_solutions);
    reveal(Solver::found_sound);
    reveal(Solver::found_all);
    if sv.found_sound(b, a, st1) {
        assert forall|j: int| b.len() <= j < a.len() implies is_solution(&sv.grid, (#[trigger] a[j])@, sv.clues@)
            && agrees(a[j]@, st0) by {
            lemma_agrees_back(st0, st1, a[j]@);
        }
    }
    if sv.found_all(b, a, st1) {
        assert forall|s: Seq<u8>| #[trigger] is_solution(&sv.grid, s, sv.clues@) && agrees(s, st0) implies exists|j: int|
            b.len() <= j < a.len() && (#[trigger] a[j])@ == s by {
            assert(agrees(s, st1));
        }
    }
}

proof fn lemma_extends_trans(a: Seq<Vec<u8>>, b: Seq<Vec<u8>>, c: Seq<Vec<u8>>, n: int)
    requires
        extends(a, b, n),
        extends(b, c, n),
    ensures
        extends(a, c, n),
{
    assert forall|j: int| a.len() <= j < c.len() implies (#[trigger] c[j])@.len() == n by {
        if j < b.len() {
            assert(c[j] == b[j]);
        }
    }
}

impl Solver {
    /// Search from `state` for up to `max_solutions` solutions, appending
    /// them to `out`.
    fn search(&self, state: &mut Vec<u8>, max_solutions: usize, ctx: &mut Ctx, out: &mut Vec<Vec<u8>>)
        requires
            self.wf(),
            old(state)@.len() == self.grid.size(),
            old(ctx).scratch.sized(self.grid.size()),
            old(ctx).nodes <= old(ctx).max_nodes,
        ensures
            final(ctx).follows(old(ctx), self.grid.size()),
            final(ctx).nodes <= old(ctx).nodes + tree_size(count_open(old(state)@)),
            old(ctx).deadline is None && !old(ctx).aborted && old(ctx).nodes + tree_size(
                count_open(old(state)@),
            ) <= old(ctx).max_nodes ==> !final(ctx).aborted,
            extends(old(out)@, final(out)@, self.grid.size()),
            old(out)@.len() <= max_solutions ==> final(out)@.len() <= max_solutions,
            well_marked(old(state)@) && queue_covers(
                &self.grid,
                old(state)@,
                old(ctx).scratch.new_blacks@,
            ) ==> self.found_sound(old(out)@, final(out)@, old(state)@),
            !final(ctx).aborted && final(out)@.len() < max_solutions ==> self.found_all(
                old(out)@,
                final(out)@,
                old(state)@,
            ),
            well_marked(old(state)@) && queue_covers(
                &self.grid,
                old(state)@,
                old(ctx).scratch.new_blacks@,
            ) ==> self.found_distinct(old(out)@, final(out)@),
        decreases count_open(old(state)@), 1int,
    {
        let ghost g = &self.grid;
        let ghost st0 = state@;
        let ghost out0 = out@;
        proof {
            reveal(Solver::found_sound);
            reveal(Solver::found_all);
            reveal(Solver::found_distinct);
            lemma_tree_size_grows(count_open(st0), count_open(st0));
        }
        if out.len() >= max_solutions || ctx.aborted {
            return;
        }
        if ctx.nodes >= ctx.max_nodes {
            ctx.aborted = true;
            return;
        }
        if ctx.nodes & 0x3FF == 0 {
            if let Some(deadline) = &ctx.deadline {
                if deadline.passed() {
                    ctx.aborted = true;
                    return;
                }
            }
        }
        ctx.nodes = ctx.nodes + 1;
        let ghost covered = well_marked(st0) && queue_covers(g, st0, ctx.scratch.new_blacks@);
        if !self.propagate_with(state, &mut ctx.scratch) {
            proof {
                reveal(Solver::no_solution);
            }
            return;
        }
        proof {
            reveal(Solver::keeps_solutions);
            lemma_refines_decides(st0, state@);
            lemma_decides_count(st0, state@);
            if covered {
                assert forall|i: int| 0 <= i < state@.len() implies #[trigger] state@[i] == UNKNOWN
                    || state@[i] == BLACK || state@[i] == WHITE by {
                    assert(state@[i] == st0[i] || (st0[i] == UNKNOWN && (state@[i] == BLACK
                        || state@[i] == WHITE)));
                }
            }
        }
        let best = match ctx.scratch.best {
            Some(b) => Some((b.0, b.1)),
            None => None,
        };
        proof {
            reveal(Solver::best_ok);
        }
        match self.pick_branch(state, best) {
            Branch::Done => {
                let found = state.clone();
                proof {
                    assert(found@ =~= state@);
                }
                out.push(found);
                proof {
                    let st1 = state@;
                    if covered {
                        assert(is_filled(st1)) by {
                            assert forall|i: int| 0 <= i < st1.len() implies #[trigger] st1[i] == BLACK
                                || st1[i] == WHITE by {
                                assert(st1[i] != UNKNOWN);
                            }
                        }
                        self.lemma_found_solution(st1);
                        lemma_agrees_back(st0, st1, st1);
                        assert(agrees(st1, st1));
                    }
                    assert forall|s: Seq<u8>| #[trigger] is_solution(g, s, self.clues@) && agrees(s, st0) implies exists|j: int|
                        out0.len() <= j < out@.len() && (#[trigger] out@[j])@ == s by {
                        assert(agrees(s, st1));
                        assert(s =~= st1) by {
                            assert forall|i: int| 0 <= i < s.len() implies s[i] == st1[i] by {
                                assert(st1[i] != UNKNOWN);
                            }
                        }
                        assert(out@[out0.len() as int]@ == s);
                    }
                }
            },
            Branch::Cell(cell) => {
                self.branch_cell(state, cell, max_solutions, ctx, out);
                proof {
                    lemma_found_back(self, out0, out@, st0, state@);
                    lemma_tree_size_grows(count_open(state@), count_open(st0));
                }
            },
            Branch::Clue { cell, masks } => {
                let k = match best {
                    Some(b) => b.0,
                    None => 0,
                };
                self.branch_clue(state, k, masks, max_solutions, ctx, out);
                proof {
                    lemma_found_back(self, out0, out@, st0, state@);
                    lemma_tree_size_grows(count_open(state@), count_open(st0));
                }
            },
        }
    }

    /// Try both values of the open cell `cell`.
    fn branch_cell(
        &self,
        state: &Vec<u8>,
        cell: usize,
        max_solutions: usize,
        ctx: &mut Ctx,
        out: &mut Vec<Vec<u8>>,
    )
        requires
            self.wf(),
            state@.len() == self.grid.size(),
            cell < self.grid.size(),
            state@[cell as int] == UNKNOWN,
            old(ctx).scratch.sized(self.grid.size()),
            old(ctx).nodes <= old(ctx).max_nodes,
        ensures
            final(ctx).follows(old(ctx), self.grid.size()),
            final(ctx).nodes + 1 <= old(ctx).nodes + tree_size(count_open(state@)),
            old(ctx).deadline is None && !old(ctx).aborted && old(ctx).nodes + tree_size(count_open(state@))
                - 1 <= old(ctx).max_nodes ==> !final(ctx).aborted,
            extends(old(out)@, final(out)@, self.grid.size()),
            old(out)@.len() <= max_solutions ==> final(out)@.len() <= max_solutions,
            well_marked(state@) && (forall|t: int| !#[trigger] black_block(&self.grid, state@, t))
                ==> self.found_sound(old(out)@, final(out)@, state@),
            !final(ctx).aborted && final(out)@.len() < max_solutions ==> self.found_all(
                old(out)@,
                final(out)@,
                state@,
            ),
            well_marked(state@) && (forall|t: int| !#[trigger] black_block(&self.grid, state@, t))
                ==> self.found_distinct(old(out)@, final(out)@),
        decreases count_open(state@), 0int,
    {
        let ghost g = &self.grid;
        let ghost n = g.size();
        let ghost out0 = out@;
        let ghost ctx0 = *ctx;
        let ghost sound = well_marked(state@) && (forall|t: int| !#[trigger] black_block(g, state@, t));
        proof {
            lemma_found_none(self, out0, state@);
            lemma_distinct_none(self, out0);
            lemma_decides_count_lt(state@, state@.update(cell as int, BLACK), cell as int);
            lemma_tree_size_split(count_open(state@));
        }
        let values: [u8; 2] = [BLACK, WHITE];
        let mut v: usize = 0;
        while v < 2
            invariant
                self.wf(),
                g == &self.grid,
                n == g.size(),
                state@.len() == n,
                cell < n,
                state@[cell as int] == UNKNOWN,
                values@ == seq![BLACK, WHITE],
                v <= 2,
                out0 == old(out)@,
                ctx0 == *old(ctx),
                sound == (well_marked(state@) && (forall|t: int| !#[trigger] black_block(g, state@, t))),
                ctx.follows(&ctx0, n),
                ctx.nodes <= ctx.max_nodes,
                extends(out0, out@, n),
                out0.len() <= max_solutions ==> out@.len() <= max_solutions,
                sound ==> self.found_sound(out0, out@, state@),
                v > 0 ==> (!ctx.aborted && out@.len() < max_solutions ==> self.found_all(
                    out0,
                    out@,
                    state@.update(cell as int, BLACK),
                )),
                v > 1 ==> (!ctx.aborted && out@.len() < max_solutions ==> self.found_all(
                    out0,
                    out@,
                    state@.update(cell as int, WHITE),
                )),
                v == 0 ==> out@ == out0,
                sound ==> self.found_distinct(out0, out@),
                sound && v == 1 ==> forall|j: int|
                    out0.len() <= j < out@.len() ==> (#[trigger] out@[j])@[cell as int] == BLACK,
                count_open(state@) >= 1,
                tree_size(count_open(state@)) - 1 == 2 * tree_size((count_open(state@) - 1) as nat),
                ctx.nodes <= ctx0.nodes + v * tree_size((count_open(state@) - 1) as nat),
                ctx0.deadline is None && !ctx0.aborted && ctx0.nodes + tree_size(count_open(state@)) - 1
                    <= ctx0.max_nodes ==> !ctx.aborted,
            decreases 2 - v,
        {
            let value = values[v];
            let mut next = state.clone();
            proof {
                assert(next@ =~= state@);
            }
            next.set(cell, value);
            let ghost nx = next@;
            if value == BLACK {
                ctx.scratch.new_blacks.push(cell);
            }
            let ghost out1 = out@;
            proof {
                if value == BLACK {
                    assert(ctx.scratch.new_blacks@[ctx.scratch.new_blacks@.len() - 1] == cell);
                }
                lemma_cell_child(g, state@, nx, cell, value, ctx.scratch.new_blacks@, sound);
                lemma_tree_size_grows(count_open(nx), (count_open(state@) - 1) as nat);
                assert(v * tree_size((count_open(state@) - 1) as nat) + tree_size(
                    (count_open(state@) - 1) as nat,
                ) == (v + 1) * tree_size((count_open(state@) - 1) as nat)) by (nonlinear_arith);
                assert((v + 1) * tree_size((count_open(state@) - 1) as nat) <= 2 * tree_size(
                    (count_open(state@) - 1) as nat,
                )) by (nonlinear_arith)
                    requires
                        v < 2,
                        tree_size((count_open(state@) - 1) as nat) >= 1,
                ;
            }
            self.search(&mut next, max_solutions, ctx, out);
            proof {
                lemma_extends_trans(out0, out1, out@, n);
                if sound {
                    lemma_found_sound_join(self, out0, out1, out@, state@, nx);
                    reveal(Solver::found_sound);
                    assert forall|j: int| out1.len() <= j < out@.len() implies (#[trigger] out@[j])@[
                    cell as int] == value by {
                        assert(agrees(out@[j]@, nx));
                        assert(nx[cell as int] == value);
                    }
                    if v == 0 {
                        assert(out1 == out0);
                    } else {
                        lemma_distinct_join(
                            self,
                            out0,
                            out1,
                            out@,
                            |t: Seq<u8>| t[cell as int] == WHITE,
                        );
                    }
                }
                if !ctx.aborted && out@.len() < max_solutions {
                    lemma_found_all_grow(self, out0, out1, out@, out@, nx, n);
                    if v > 0 {
                        lemma_found_all_grow(
                            self,
                            out0,
                            out0,
                            out1,
                            out@,
                            state@.update(cell as int, BLACK),
                            n,
                        );
                    }
                }
            }
            if out.len() >= max_solutions || ctx.aborted {
                return;
            }
            v = v + 1;
        }
        proof {
            if !ctx.aborted && out@.len() < max_solutions {
                lemma_found_cell(self, out0, out@, state@, cell as int);
            }
        }
    }

    /// Every solution keeping the marks of `marks` whose mask around `ci`
    /// is one of `ms` was added after `before`.
    #[verifier::opaque]
    pub open spec fn found_masks(
        &self,
        before: Seq<Vec<u8>>,
        after: Seq<Vec<u8>>,
        marks: Seq<u8>,
        ci: int,
        ms: Seq<u8>,
    ) -> bool {
        forall|s: Seq<u8>|
            #[trigger] is_solution(&self.grid, s, self.clues@) && agrees(s, marks) && ms.contains(
                cell_mask(&self.grid, s, ci),
            ) ==> exists|j: int| before.len() <= j < after.len() && (#[trigger] after[j])@ == s
    }

    /// A solution with mask `m` around `ci` keeps the marks of the state
    /// where that mask was written around `ci`.
    proof fn lemma_mask_agrees(&self, st: Seq<u8>, next: Seq<u8>, ci: int, m: u8, s: Seq<u8>)
        requires
            self.wf(),
            0 <= ci < self.grid.size(),
            st.len() == self.grid.size(),
            next.len() == self.grid.size(),
            agrees(s, st),
            is_filled(s),
            cell_mask(&self.grid, s, ci) == m,
            forall|i: int|
                0 <= i < self.grid.size() && #[trigger] next[i] != st[i] ==> exists|b: int|
                    0 <= b < 8 && #[trigger] self.grid.nb(ci, b) == Some(i as usize) && next[i]
                        == mask_value(m, b),
        ensures
            agrees(s, next),
    {
        let g = &self.grid;
        lemma_cell_mask_bits(g, s, ci);
        assert forall|i: int| 0 <= i < next.len() && next[i] != UNKNOWN implies s[i] == #[trigger] next[i] by {
            if next[i] != st[i] {
                let b = choose|b: int| 0 <= b < 8 && #[trigger] g.nb(ci, b) == Some(i as usize) && next[i]
                    == mask_value(m, b);
                assert(bit(m, b as u8) == black_nb(g, s, ci, b));
                assert(s[i] == BLACK || s[i] == WHITE);
            }
        }
    }

    /// A filled board that keeps the marks of the state where mask `m` was
    /// written around `ci` has that mask around `ci`.
    proof fn lemma_branch_mask(&self, st: Seq<u8>, nx: Seq<u8>, ci: int, clue: Seq<u8>, m: u8, s: Seq<u8>)
        requires
            self.wf(),
            0 <= ci < self.grid.size(),
            st.len() == self.grid.size(),
            nx.len() == self.grid.size(),
            mask_alive(&self.grid, st, ci, clue, m),
            forall|i: int|
                0 <= i < self.grid.size() && #[trigger] nx[i] != st[i] ==> exists|b: int|
                    0 <= b < 8 && #[trigger] self.grid.nb(ci, b) == Some(i as usize) && nx[i]
                        == mask_value(m, b),
            forall|b: int|
                0 <= b < 8 && #[trigger] self.grid.nb(ci, b) is Some ==> nx[self.grid.nb(ci, b)->Some_0 as int]
                    == BLACK || nx[self.grid.nb(ci, b)->Some_0 as int] == WHITE,
            is_filled(s),
            agrees(s, nx),
        ensures
            cell_mask(&self.grid, s, ci) == m,
    {
        let g = &self.grid;
        lemma_cell_mask_bits(g, s, ci);
        assert forall|k: int| 0 <= k < 8 implies #[trigger] bit(cell_mask(g, s, ci), k as u8) == bit(
            m,
            k as u8,
        ) by {
            lemma_nb_in_range(g, ci, k);
            assert(bit(cell_mask(g, s, ci), k as u8) == black_nb(g, s, ci, k));
            match g.nb(ci, k) {
                None => {
                    assert(mask_on_board(g, ci, m));
                },
                Some(j) => {
                    assert(nx[j as int] == BLACK || nx[j as int] == WHITE);
                    assert(s[j as int] == nx[j as int]);
                    if nx[j as int] != st[j as int] {
                        let b = choose|b: int| 0 <= b < 8 && #[trigger] g.nb(ci, b) == Some(j) && nx[j as int]
                            == mask_value(m, b);
                        crate::grid::lemma_nb_injective(g, ci, b, k);
                    } else {
                        assert(fits_marks(g, ci, m, st));
                    }
                },
            }
        }
        lemma_bits_eq(cell_mask(g, s, ci), m);
    }

    /// Try every surviving neighbour pattern `masks` of clue `k`.
    fn branch_clue(
        &self,
        state: &Vec<u8>,
        k: usize,
        masks: Vec<u8>,
        max_solutions: usize,
        ctx: &mut Ctx,
        out: &mut Vec<Vec<u8>>,
    )
        requires
            self.wf(),
            k < self.clues@.len(),
            state@.len() == self.grid.size(),
            forall|m: u8| masks@.contains(m) <==> mask_alive(
                &self.grid,
                state@,
                self.clues@[k as int].0 as int,
                self.clues@[k as int].1@,
                m,
            ),
            self.alive_count(state@, k as int) >= 2,
            forall|e: int, f: int| 0 <= e < f < masks@.len() ==> masks@[e] != masks@[f],
            old(ctx).scratch.sized(self.grid.size()),
            old(ctx).nodes <= old(ctx).max_nodes,
        ensures
            final(ctx).follows(old(ctx), self.grid.size()),
            final(ctx).nodes + 1 <= old(ctx).nodes + tree_size(count_open(state@)),
            old(ctx).deadline is None && !old(ctx).aborted && old(ctx).nodes + tree_size(count_open(state@))
                - 1 <= old(ctx).max_nodes ==> !final(ctx).aborted,
            extends(old(out)@, final(out)@, self.grid.size()),
            old(out)@.len() <= max_solutions ==> final(out)@.len() <= max_solutions,
            well_marked(state@) && (forall|t: int| !#[trigger] black_block(&self.grid, state@, t))
                ==> self.found_sound(old(out)@, final(out)@, state@),
            !final(ctx).aborted && final(out)@.len() < max_solutions ==> self.found_all(
                old(out)@,
                final(out)@,
                state@,
            ),
            well_marked(state@) && (forall|t: int| !#[trigger] black_block(&self.grid, state@, t))
                ==> self.found_distinct(old(out)@, final(out)@),
        decreases count_open(state@), 0int,
    {
        let ghost g = &self.grid;
        let ghost n = g.size();
        let ghost out0 = out@;
        let ghost ctx0 = *ctx;
        let ghost clue = self.clues@[k as int].1@;
        let ghost sound = well_marked(state@) && (forall|t: int| !#[trigger] black_block(g, state@, t));
        let cell = self.clue_cells[k];
        let ghost ci = cell as int;
        proof {
            assert(ci == self.clues@[k as int].0);
            lemma_found_none(self, out0, state@);
            lemma_found_masks_none(self, out0, state@, ci);
            lemma_distinct_none(self, out0);
        }
        let ghost open_b = self.lemma_open_neighbor(state@, k as int);
        let ghost o = count_open(state@);
        let ghost d = free_positions(g, state@, ci).len();
        proof {
            assert(masks@.no_duplicates()) by {
                assert forall|e: int, f: int| 0 <= e < masks@.len() && 0 <= f < masks@.len() && e != f implies masks@[e]
                    != masks@[f] by {
                    if f < e {
                        assert(masks@[f] != masks@[e]);
                    }
                }
            }
            assert forall|j: int| 0 <= j < masks@.len() implies mask_alive(g, state@, ci, clue, #[trigger] masks@[j]) by {
                assert(masks@.contains(masks@[j]));
            }
            lemma_alive_masks_bound(g, state@, ci, clue, masks@);
            lemma_free_within_open(g, state@, ci);
            assert(free_positions(g, state@, ci).contains(open_b));
            assert(d >= 1);
            lemma_clue_branch_budget(o, d, masks@.len());
        }
        let mut t: usize = 0;
        while t < masks.len()
            invariant
                self.wf(),
                g == &self.grid,
                n == g.size(),
                state@.len() == n,
                k < self.clues@.len(),
                ci == self.clues@[k as int].0,
                clue == self.clues@[k as int].1@,
                cell == ci,
                0 <= ci < n,
                0 <= open_b < 8,
                g.nb(ci, open_b) is Some,
                state@[g.nb(ci, open_b)->Some_0 as int] != BLACK,
                state@[g.nb(ci, open_b)->Some_0 as int] != WHITE,
                forall|m: u8| masks@.contains(m) <==> mask_alive(g, state@, ci, clue, m),
                t <= masks@.len(),
                out0 == old(out)@,
                ctx0 == *old(ctx),
                sound == (well_marked(state@) && (forall|t: int| !#[trigger] black_block(g, state@, t))),
                ctx.follows(&ctx0, n),
                ctx.nodes <= ctx.max_nodes,
                extends(out0, out@, n),
                out0.len() <= max_solutions ==> out@.len() <= max_solutions,
                sound ==> self.found_sound(out0, out@, state@),
                !ctx.aborted && out@.len() < max_solutions ==> self.found_masks(
                    out0,
                    out@,
                    state@,
                    ci,
                    masks@.take(t as int),
                ),
                forall|e: int, f: int| 0 <= e < f < masks@.len() ==> masks@[e] != masks@[f],
                sound ==> self.found_distinct(out0, out@),
                sound ==> forall|j: int|
                    out0.len() <= j < out@.len() ==> masks@.take(t as int).contains(
                        cell_mask(g, (#[trigger] out@[j])@, ci),
                    ),
                o == count_open(state@),
                d == free_positions(g, state@, ci).len(),
                1 <= d <= o,
                masks@.len() * tree_size((o - d) as nat) <= tree_size(o) - 1,
                ctx.nodes <= ctx0.nodes + t * tree_size((o - d) as nat),
                ctx0.deadline is None && !ctx0.aborted && ctx0.nodes + tree_size(o) - 1 <= ctx0.max_nodes
                    ==> !ctx.aborted,
            decreases masks@.len() - t,
        {
            let m = masks[t];
            proof {
                assert(masks@.contains(m));
            }
            let mut next = state.clone();
            proof {
                assert(next@ =~= state@);
            }
            self.assign_mask(&mut next, cell, m, &mut ctx.scratch.new_blacks);
            let ghost nx = next@;
            let ghost out1 = out@;
            proof {
                self.lemma_mask_child(state@, nx, ci, clue, m, open_b, ctx.scratch.new_blacks@, sound);
                lemma_clue_child_count(g, state@, nx, ci);
                lemma_tree_size_grows(count_open(nx), (o - d) as nat);
                assert(t * tree_size((o - d) as nat) + tree_size((o - d) as nat) == (t + 1) * tree_size(
                    (o - d) as nat,
                )) by (nonlinear_arith);
                assert((t + 1) * tree_size((o - d) as nat) <= masks@.len() * tree_size((o - d) as nat))
                    by (nonlinear_arith)
                    requires
                        t < masks@.len(),
                        tree_size((o - d) as nat) >= 1,
                ;
            }
            self.search(&mut next, max_solutions, ctx, out);
            proof {
                lemma_extends_trans(out0, out1, out@, n);
                if sound {
                    lemma_found_sound_join(self, out0, out1, out@, state@, nx);
                    reveal(Solver::found_sound);
                    let before = masks@.take(t as int);
                    let now = masks@.take(t + 1);
                    assert forall|j: int| out1.len() <= j < out@.len() implies cell_mask(
                        g,
                        (#[trigger] out@[j])@,
                        ci,
                    ) == m by {
                        self.lemma_branch_mask(state@, nx, ci, clue, m, out@[j]@);
                    }
                    assert(!before.contains(m)) by {
                        if before.contains(m) {
                            let u = choose|u: int| 0 <= u < before.len() && before[u] == m;
                            assert(masks@[u] == masks@[t as int]);
                        }
                    }
                    lemma_distinct_join(self, out0, out1, out@, |x: Seq<u8>| cell_mask(g, x, ci) == m);
                    assert forall|j: int| out0.len() <= j < out@.len() implies now.contains(
                        cell_mask(g, (#[trigger] out@[j])@, ci),
                    ) by {
                        if j < out1.len() {
                            assert(out@[j] == out1[j]);
                            let c = cell_mask(g, out1[j]@, ci);
                            assert(before.contains(c));
                            let u = choose|u: int| 0 <= u < before.len() && before[u] == c;
                            assert(now[u] == c);
                        } else {
                            assert(now[t as int] == m);
                        }
                    }
                }
                if !ctx.aborted && out@.len() < max_solutions {
                    self.lemma_found_masks_step(out0, out1, out@, state@, nx, ci, m, masks@, t as int);
                }
            }
            if out.len() >= max_solutions || ctx.aborted {
                return;
            }
            t = t + 1;
        }
        proof {
            if !ctx.aborted && out@.len() < max_solutions {
                self.lemma_found_masks_all(out0, out@, state@, k as int, masks@);
            }
        }
    }

    /// The child state of a clue branch: it decides an open neighbour and,
    /// from a well-marked state without black blocks, refines it with its
    /// new black cells queued.
    proof fn lemma_mask_child(
        &self,
        st: Seq<u8>,
        nx: Seq<u8>,
        ci: int,
        clue: Seq<u8>,
        m: u8,
        open_b: int,
        q: Seq<usize>,
        sound: bool,
    )
        requires
            self.wf(),
            0 <= ci < self.grid.size(),
            st.len() == self.grid.size(),
            0 <= open_b < 8,
            self.grid.nb(ci, open_b) is Some,
            st[self.grid.nb(ci, open_b)->Some_0 as int] != BLACK,
            st[self.grid.nb(ci, open_b)->Some_0 as int] != WHITE,
            mask_alive(&self.grid, st, ci, clue, m),
            decides(st, nx),
            forall|i: int|
                0 <= i < self.grid.size() && #[trigger] nx[i] != st[i] ==> exists|b: int|
                    0 <= b < 8 && #[trigger] self.grid.nb(ci, b) == Some(i as usize) && nx[i]
                        == mask_value(m, b),
            forall|b: int|
                0 <= b < 8 && #[trigger] self.grid.nb(ci, b) is Some ==> nx[self.grid.nb(ci, b)->Some_0 as int]
                    == BLACK || nx[self.grid.nb(ci, b)->Some_0 as int] == WHITE,
            forall|i: int|
                0 <= i < self.grid.size() && #[trigger] nx[i] == BLACK && st[i] != BLACK ==> q.contains(
                    i as usize,
                ),
            sound == (well_marked(st) && (forall|t: int| !#[trigger] black_block(&self.grid, st, t))),
        ensures
            count_open(nx) < count_open(st),
            sound ==> refines(st, nx) && well_marked(nx) && queue_covers(&self.grid, nx, q),
    {
        let g = &self.grid;
        let nb = g.nb(ci, open_b)->Some_0 as int;
        lemma_nb_in_range(g, ci, open_b);
        lemma_decides_count_lt(st, nx, nb);
        if sound {
            assert(refines(st, nx)) by {
                assert forall|i: int| 0 <= i < st.len() implies #[trigger] nx[i] == st[i] || (st[i] == UNKNOWN
                    && (nx[i] == BLACK || nx[i] == WHITE)) by {
                    if nx[i] != st[i] {
                        let b = choose|b: int| 0 <= b < 8 && #[trigger] g.nb(ci, b) == Some(i as usize) && nx[i]
                            == mask_value(m, b);
                        assert(fits_marks(g, ci, m, st));
                        assert(st[i] == UNKNOWN || st[i] == BLACK || st[i] == WHITE);
                    }
                }
            }
            assert(well_marked(nx)) by {
                assert forall|i: int| 0 <= i < nx.len() implies #[trigger] nx[i] == UNKNOWN || nx[i] == BLACK
                    || nx[i] == WHITE by {
                    assert(st[i] == UNKNOWN || st[i] == BLACK || st[i] == WHITE);
                }
            }
            lemma_queue_new_blacks(g, st, nx, q);
        }
    }

    /// One more mask of a clue branch searched.
    proof fn lemma_found_masks_step(
        &self,
        out0: Seq<Vec<u8>>,
        out1: Seq<Vec<u8>>,
        out2: Seq<Vec<u8>>,
        st: Seq<u8>,
        nx: Seq<u8>,
        ci: int,
        m: u8,
        masks: Seq<u8>,
        t: int,
    )
        requires
            self.wf(),
            0 <= ci < self.grid.size(),
            st.len() == self.grid.size(),
            nx.len() == self.grid.size(),
            0 <= t < masks.len(),
            masks[t] == m,
            extends(out0, out1, self.grid.size()),
            extends(out1, out2, self.grid.size()),
            self.found_masks(out0, out1, st, ci, masks.take(t)),
            self.found_all(out1, out2, nx),
            forall|i: int|
                0 <= i < self.grid.size() && #[trigger] nx[i] != st[i] ==> exists|b: int|
                    0 <= b < 8 && #[trigger] self.grid.nb(ci, b) == Some(i as usize) && nx[i]
                        == mask_value(m, b),
        ensures
            self.found_masks(out0, out2, st, ci, masks.take(t + 1)),
    {
        reveal(Solver::found_masks);
        reveal(Solver::found_all);
        let g = &self.grid;
        let ms = masks.take(t + 1);
        assert forall|s: Seq<u8>| #[trigger] is_solution(g, s, self.clues@) && agrees(s, st) && ms.contains(
            cell_mask(g, s, ci),
        ) implies exists|j: int| out0.len() <= j < out2.len() && (#[trigger] out2[j])@ == s by {
            let u = choose|u: int| 0 <= u < ms.len() && ms[u] == cell_mask(g, s, ci);
            if u < t {
                assert(masks.take(t).contains(cell_mask(g, s, ci))) by {
                    assert(masks.take(t)[u] == ms[u]);
                }
                let j = choose|j: int| out0.len() <= j < out1.len() && (#[trigger] out1[j])@ == s;
                assert(out2[j] == out1[j]);
            } else {
                self.lemma_mask_agrees(st, nx, ci, m, s);
                let j = choose|j: int| out1.len() <= j < out2.len() && (#[trigger] out2[j])@ == s;
            }
        }
    }

    /// All surviving masks searched: every solution was found.
    proof fn lemma_found_masks_all(
        &self,
        out0: Seq<Vec<u8>>,
        out: Seq<Vec<u8>>,
        st: Seq<u8>,
        k: int,
        masks: Seq<u8>,
    )
        requires
            self.wf(),
            0 <= k < self.clues@.len(),
            st.len() == self.grid.size(),
            forall|m: u8| masks.contains(m) <==> mask_alive(
                &self.grid,
                st,
                self.clues@[k].0 as int,
                self.clues@[k].1@,
                m,
            ),
            self.found_masks(out0, out, st, self.clues@[k].0 as int, masks.take(masks.len() as int)),
        ensures
            self.found_all(out0, out, st),
    {
        reveal(Solver::found_masks);
        reveal(Solver::found_all);
        assert(masks.take(masks.len() as int) =~= masks);
        assert forall|s: Seq<u8>| #[trigger] is_solution(&self.grid, s, self.clues@) && agrees(s, st) implies exists|j: int|
            out0.len() <= j < out.len() && (#[trigger] out[j])@ == s by {
            self.lemma_solution_mask(s, st, k);
            assert(masks.contains(cell_mask(&self.grid, s, self.clues@[k].0 as int)));
        }
    }
}

/// Nothing found yet is sound.
proof fn lemma_found_none(sv: &Solver, out: Seq<Vec<u8>>, st: Seq<u8>)
    ensures
        sv.found_sound(out, out, st),
{
    reveal(Solver::found_sound);
}

/// No mask searched yet.
proof fn lemma_found_masks_none(sv: &Solver, out: Seq<Vec<u8>>, st: Seq<u8>, ci: int)
    ensures
        forall|ms: Seq<u8>| ms.len() == 0 ==> #[trigger] sv.found_masks(out, out, st, ci, ms),
{
    reveal(Solver::found_masks);
}

/// Both values of an open cell searched: every solution was found.
proof fn lemma_found_cell(sv: &Solver, out0: Seq<Vec<u8>>, out: Seq<Vec<u8>>, st: Seq<u8>, cell: int)
    requires
        0 <= cell < st.len(),
        sv.found_all(out0, out, st.update(cell, BLACK)),
        sv.found_all(out0, out, st.update(cell, WHITE)),
    ensures
        sv.found_all(out0, out, st),
{
    reveal(Solver::found_all);
    assert forall|s: Seq<u8>| #[trigger] is_solution(&sv.grid, s, sv.clues@) && agrees(s, st) implies exists|j: int|
        out0.len() <= j < out.len() && (#[trigger] out[j])@ == s by {
        assert(is_filled(s));
        let x = s[cell];
        assert(x == BLACK || x == WHITE);
        assert(agrees(s, st.update(cell, x)));
    }
}

/// The child state of a cell branch.
proof fn lemma_cell_child(g: &Grid, st: Seq<u8>, nx: Seq<u8>, cell: usize, value: u8, q: Seq<usize>, sound: bool)
    requires
        g.wf(),
        st.len() == g.size(),
        cell < st.len(),
        st[cell as int] == UNKNOWN,
        value == BLACK || value == WHITE,
        nx == st.update(cell as int, value),
        value == BLACK ==> q.contains(cell),
        sound == (well_marked(st) && (forall|t: int| !#[trigger] black_block(g, st, t))),
    ensures
        count_open(nx) < count_open(st),
        sound ==> refines(st, nx) && well_marked(nx) && queue_covers(g, nx, q),
{
    assert(decides(st, nx));
    lemma_decides_count_lt(st, nx, cell as int);
    if sound {
        assert(refines(st, nx));
        assert(well_marked(nx)) by {
            assert forall|i: int| 0 <= i < nx.len() implies #[trigger] nx[i] == UNKNOWN || nx[i] == BLACK
                || nx[i] == WHITE by {
                assert(st[i] == UNKNOWN || st[i] == BLACK || st[i] == WHITE);
            }
        }
        lemma_queue_new_blacks(g, st, nx, q);
    }
}

/// A copy of the marks.
fn copy_marks(marks: &[u8]) -> (v: Vec<u8>)
    ensures
        v@ == marks@,
{
    let mut v: Vec<u8> = Vec::new();
    let mut i: usize = 0;
    while i < marks.len()
        invariant
            i <= marks@.len(),
            v@ == marks@.take(i as int),
        decreases marks@.len() - i,
    {
        v.push(marks[i]);
        proof {
            assert(marks@.take(i + 1) =~= marks@.take(i as int).push(marks@[i as int]));
        }
        i = i + 1;
    }
    proof {
        assert(marks@.take(marks@.len() as int) =~= marks@);
    }
    v
}

/// Every mark is open, black or white.
fn plain_marks(marks: &[u8]) -> (r: bool)
    ensures
        r == well_marked(marks@),
{
    let mut i: usize = 0;
    while i < marks.len()
        invariant
            i <= marks@.len(),
            forall|j: int| 0 <= j < i ==> #[trigger] marks@[j] == UNKNOWN || marks@[j] == BLACK || marks@[j] == WHITE,
        decreases marks@.len() - i,
    {
        if marks[i] != UNKNOWN && marks[i] != BLACK && marks[i] != WHITE {
            return false;
        }
        i = i + 1;
    }
    true
}

impl Solver {
    /// Search for up to `limits.max_solutions` solutions that keep the marks
    /// of `initial`.
    ///
    /// Every solution returned is one, and no solution is returned twice;
    /// when the search was not aborted and found fewer than the limit, it
    /// returned all of them. A start with a mark other than open, black or
    /// white has no solution and is not searched. The walls of the start are
    /// checked like the ones the search sets.
    ///
    /// The search visits at most `2^(open + 1) - 1` nodes, where `open` is the
    /// number of open cells of the start, so without a deadline a budget of
    /// `2^(open + 1)` nodes always lets it finish. It gives up only once it
    /// has used its whole node budget, or when it was given a deadline.
    pub fn solve(&self, initial: &[u8], limits: &SolveLimits) -> (outcome: SolveOutcome)
        requires
            self.wf(),
            initial@.len() == self.grid.size(),
        ensures
            outcome.solutions@.len() <= limits.max_solutions,
            outcome.nodes <= limits.max_nodes,
            outcome.aborted ==> outcome.nodes == limits.max_nodes || limits.deadline is Some,
            outcome.nodes <= tree_size(count_open(initial@)),
            limits.deadline is None && limits.max_nodes >= pow2(count_open(initial@) + 1) ==> !outcome.aborted,
            forall|j: int|
                0 <= j < outcome.solutions@.len() ==> (#[trigger] outcome.solutions@[j])@.len()
                    == self.grid.size(),
            forall|j: int|
                0 <= j < outcome.solutions@.len() ==> is_solution(
                    &self.grid,
                    (#[trigger] outcome.solutions@[j])@,
                    self.clues@,
                ) && agrees(outcome.solutions@[j]@, initial@),
            forall|i: int, j: int|
                0 <= i < j < outcome.solutions@.len() ==> (#[trigger] outcome.solutions@[i])@
                    != (#[trigger] outcome.solutions@[j])@,
            !well_marked(initial@) ==> outcome.solutions@.len() == 0 && !outcome.aborted && outcome.nodes == 0,
            !outcome.aborted && outcome.solutions@.len() < limits.max_solutions ==> forall|s: Seq<u8>|
                #[trigger] is_solution(&self.grid, s, self.clues@) && agrees(s, initial@) ==> exists|j: int|
                    0 <= j < outcome.solutions@.len() && (#[trigger] outcome.solutions@[j])@ == s,
    {
        let mut ctx = Ctx {
            nodes: 0,
            max_nodes: limits.max_nodes,
            deadline: limits.deadline,
            aborted: false,
            scratch: Scratch::new(self.grid.len()),
        };
        let mut out: Vec<Vec<u8>> = Vec::new();
        // a mark other than open, black or white has no completion
        if !plain_marks(initial) {
            proof {
                lemma_tree_size_grows(count_open(initial@), count_open(initial@));
            }
            return SolveOutcome { solutions: out, nodes: 0, aborted: false };
        }
        let mut state = copy_marks(initial);
        // the walls already set are checked like the ones the search sets
        let mut i: usize = 0;
        while i < state.len()
            invariant
                i <= state@.len(),
                state@ == initial@,
                state@.len() == self.grid.size(),
                ctx.scratch.sized(self.grid.size()),
                ctx.nodes == 0,
                ctx.max_nodes == limits.max_nodes,
                ctx.deadline == limits.deadline,
                !ctx.aborted,
                forall|c: int| 0 <= c < i && state@[c] == BLACK ==> #[trigger] ctx.scratch.new_blacks@.contains(c as usize),
            decreases state@.len() - i,
        {
            if state[i] == BLACK {
                let ghost q0 = ctx.scratch.new_blacks@;
                ctx.scratch.new_blacks.push(i);
                proof {
                    assert forall|c: int| 0 <= c < i + 1 && state@[c] == BLACK implies #[trigger] ctx.scratch.new_blacks@.contains(
                        c as usize,
                    ) by {
                        if c < i {
                            assert(q0.contains(c as usize));
                            let j = choose|j: int| 0 <= j < q0.len() && q0[j] == c as usize;
                            assert(ctx.scratch.new_blacks@[j] == c as usize);
                        } else {
                            assert(ctx.scratch.new_blacks@[q0.len() as int] == c as usize);
                        }
                    }
                }
            }
            i = i + 1;
        }
        proof {
            reveal(queue_covers);
            assert forall|t: int| #[trigger] black_block(&self.grid, state@, t) implies exists|j: int|
                0 <= j < ctx.scratch.new_blacks@.len() && covers(
                    &self.grid,
                    t,
                    #[trigger] ctx.scratch.new_blacks@[j] as int,
                ) by {
                crate::propagation::lemma_block_in_range(&self.grid, t);
                assert(ctx.scratch.new_blacks@.contains(t as usize));
                let j = choose|j: int| 0 <= j < ctx.scratch.new_blacks@.len() && ctx.scratch.new_blacks@[j] == t as usize;
                assert(covers(&self.grid, t, ctx.scratch.new_blacks@[j] as int));
            }
            assert(queue_covers(&self.grid, state@, ctx.scratch.new_blacks@));
        }
        self.search(&mut state, limits.max_solutions, &mut ctx, &mut out);
        proof {
            reveal(Solver::found_sound);
            reveal(Solver::found_all);
            reveal(Solver::found_distinct);
        }
        SolveOutcome { solutions: out, nodes: ctx.nodes, aborted: ctx.aborted }
    }
}

} // verus!
