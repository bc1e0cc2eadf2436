//! Puzzle generation.
//!
//! Strategy:
//!   1. grow a random *valid* solution: black cells stay orthogonally connected,
//!      no 2x2 is fully black and no black cell is completely surrounded by
//!      black cells (such a cell would not be pinned down by any clue);
//!   2. take every white cell that has at least one black neighbour as a clue
//!      candidate - at this point the clue set is maximal;
//!   3. prove the maximal clue set has a unique solution (otherwise the shape is
//!      unusable and we grow another one);
//!   4. remove clues one by one in random order, keeping every removal that
//!      still leaves a unique solution. The result is a puzzle that is
//!      *minimal*: dropping any single remaining clue makes it ambiguous.
//!
//! Every accepted puzzle is therefore guaranteed to have exactly one solution,
//! and that solution is the shape the generator started from.

use std::time::Duration;

use vstd::prelude::*;

use crate::clock::{duration_sum, no_time, Deadline, Timer};
use crate::grid::{col, lemma_cell_coords, lemma_idx_coords, neighbor_delta, ortho_delta, row, Grid};
use crate::model::{
    cell_mask, clue_is_showable, clue_of, lemma_nb_in_range, mask_runs, showable_clue, Clue, Puzzle,
    BLACK, UNKNOWN, WHITE,
};
use crate::rng::Rng;
use crate::region::{
    connected, count_eq, lemma_count_eq_bound, lemma_count_eq_update, lemma_adjacent_symmetric, lemma_connected_mono, lemma_connected_refl,
    lemma_connected_step, lemma_connected_symmetric, lemma_on_adjacent, lemma_adjacent_on, largest_region_size,
    adjacent,
};
use crate::rules::{
    black_block, blank_cells, clueless_cells, largest_blank_region, largest_clueless_region, validate, walls,
};
use crate::search::{count_open, tree_size, well_marked};
use vstd::arithmetic::power2::pow2;
use crate::solver::{at_most_one, clue_views, is_solution, SolveLimits, Solver};

verus! {

pub struct GenConfig {
    pub w: usize,
    pub h: usize,
    pub max_attempts: usize,
    /// Share of the grid that should become black, in thousandths.
    pub black_lo: u16,
    pub black_hi: u16,
    /// Budget for the whole generation; `None` falls back to `time_budget_ms`.
    pub deadline: Option<Deadline>,
    /// Nodes for the whole generation, shared adaptively between proofs.
    pub node_budget: u64,
    /// Milliseconds for the whole generation, shared adaptively between
    /// proofs; zero means no limit.
    pub time_budget_ms: u64,
    /// Floor for a single uniqueness proof, so a cheap check is never starved.
    pub check_min_nodes: u64,
    /// How much a single proof may borrow over its fair share of the pool.
    pub check_slack: u64,
    /// Reject a solution whose blankest region (cells with no black neighbour,
    /// i.e. cells that produce no clue) is bigger than this many cells. This
    /// only rejects shapes; it never adds clues.
    pub max_clueless_region: usize,
}

impl GenConfig {
    /// Default configuration for a w x h board.
    pub fn for_size(w: usize, h: usize) -> (cfg: GenConfig)
        requires
            w * h * 15 + 99 <= usize::MAX,
        ensures
            cfg.w == w,
            cfg.h == h,
            cfg.max_clueless_region == (w * h * 15 + 99) / 100,
    {
        let area = w * h;
        GenConfig {
            w,
            h,
            max_attempts: 200,
            black_lo: 400,
            black_hi: 500,
            deadline: None,
            node_budget: 150_000,
            time_budget_ms: 2_000,
            check_min_nodes: 3_000,
            check_slack: 3,
            max_clueless_region: (area * 15 + 99) / 100,
        }
    }
}

/// Statistics of one generation run, useful for the CLI.
#[derive(Debug)]
pub struct GenStats {
    pub attempts: usize,
    pub clue_count: usize,
    pub black_count: usize,
    pub elapsed: Duration,
    pub removals: usize,
    /// Total search nodes spent proving uniqueness while minimising clues.
    pub nodes: u64,
    /// Time spent inside the solver (diagnostic).
    pub solve_time: Duration,
    /// How many uniqueness checks the minimisation ran (diagnostic).
    pub checks: usize,
    /// Most nodes any single check used (diagnostic).
    pub max_check_nodes: u64,
    /// Biggest clue-free patch of the finished board.
    pub blank_region: usize,
    /// Biggest patch of the solution that carries no clue at all.
    pub clueless_region: usize,
    /// Some uniqueness check ran out of budget, so a clue may have stayed
    /// without proof that it is needed.
    pub gave_up: bool,
}

pub struct GenResult {
    pub puzzle: Puzzle,
    pub stats: GenStats,
    /// The state of the random numbers when the run that made it began.
    pub seeded: Ghost<u64>,
}

impl GenResult {
    /// The state of the random numbers the run that made this result began
    /// with: the seed, for a run on a fresh generator.
    pub open spec fn drawn_from(&self) -> u64 {
        self.seeded@
    }
}

/// The statistics of a result describe its puzzle: the clue count, the
/// walls of the solution, and the largest blank and clue-free patches.
pub open spec fn stats_describe(res: GenResult) -> bool {
    &&& res.stats.clue_count == res.puzzle.clues@.len()
    &&& res.stats.black_count == count_value(res.puzzle.solution@, BLACK)
    &&& res.stats.blank_region == largest_region_size(
        &res.puzzle.grid,
        blank_cells(res.puzzle.solution@, clue_cells_of(res.puzzle.grid.size(), res.puzzle.clues@)),
    )
    &&& res.stats.clueless_region == largest_region_size(
        &res.puzzle.grid,
        clueless_cells(&res.puzzle.grid, res.puzzle.solution@),
    )
}

/// `a * b`, or `u64::MAX` when that does not fit.
pub open spec fn sat_mul(a: u64, b: u64) -> u64 {
    if a * b > u64::MAX {
        u64::MAX
    } else {
        (a * b) as u64
    }
}

fn saturating_mul(a: u64, b: u64) -> (r: u64)
    ensures
        r == sat_mul(a, b),
{
    match a.checked_mul(b) {
        Some(p) => p,
        None => u64::MAX,
    }
}

/// The node budget of one proof: the fair share of the pool times the
/// slack, at least the floor, at most the whole pool (but at least one).
pub open spec fn share_nodes(pool: u64, slack: u64, min_nodes: u64, left: u64) -> u64 {
    let fair = sat_mul(pool / left, slack);
    let floored = if fair < min_nodes {
        min_nodes
    } else {
        fair
    };
    let cap = if pool < 1 {
        1
    } else {
        pool
    };
    if floored > cap {
        cap
    } else {
        floored
    }
}

/// A share never exceeds a pool that is not empty, and with the whole pool
/// as the floor it is the whole pool.
proof fn lemma_share_within(pool: u64, slack: u64, min_nodes: u64, left: u64)
    requires
        pool >= 1,
        left >= 1,
    ensures
        share_nodes(pool, slack, min_nodes, left) <= pool,
        min_nodes == u64::MAX ==> share_nodes(pool, slack, min_nodes, left) == pool,
{
}

/// A share is at least the floor or the whole pool, whichever is smaller.
proof fn lemma_share_floor(pool: u64, slack: u64, min_nodes: u64, left: u64, need: int)
    requires
        pool >= 1,
        left >= 1,
        min_nodes >= need,
        pool >= need,
    ensures
        share_nodes(pool, slack, min_nodes, left) >= need,
{
}

/// A board of `n` cells has at most `n` open ones, so a search on it needs
/// fewer than `2^(n + 1)` nodes.
proof fn lemma_open_within(s: Seq<u8>)
    ensures
        count_open(s) <= s.len(),
        tree_size(count_open(s)) < pow2(s.len() + 1),
        pow2(count_open(s) + 1) <= pow2(s.len() + 1),
    decreases s.len(),
{
    if s.len() > 0 {
        lemma_open_within(s.drop_last());
    }
    if count_open(s) < s.len() {
        vstd::arithmetic::power2::lemma_pow2_strictly_increases(count_open(s) + 1, s.len() + 1);
    }
}

/// A shared budget pool. Instead of a hard per-proof cap, each proof gets
/// `remaining / checks_left * slack`, so a proof that needs a little more than
/// its fair share can still finish while the pool has room.
struct Budget {
    nodes: u64,
    deadline: Option<Deadline>,
    slack: u64,
    min_nodes: u64,
}

impl Budget {
    fn new(cfg: &GenConfig) -> (b: Budget)
        ensures
            b.nodes == cfg.node_budget,
            b.slack == if cfg.check_slack < 1 { 1 } else { cfg.check_slack },
            b.min_nodes == if cfg.check_min_nodes < 1 { 1 } else { cfg.check_min_nodes },
            cfg.deadline is Some ==> b.deadline == cfg.deadline,
            cfg.deadline is None ==> (b.deadline is Some <==> cfg.time_budget_ms != 0),
            cfg.deadline is None && cfg.time_budget_ms != 0 ==> b.deadline->Some_0.at_ms
                == cfg.time_budget_ms,
    {
        let deadline = match cfg.deadline {
            Some(d) => Some(d),
            None => if cfg.time_budget_ms != 0 {
                Some(Deadline::after_ms(cfg.time_budget_ms))
            } else {
                None
            },
        };
        Budget {
            nodes: cfg.node_budget,
            deadline,
            slack: if cfg.check_slack < 1 {
                1
            } else {
                cfg.check_slack
            },
            min_nodes: if cfg.check_min_nodes < 1 {
                1
            } else {
                cfg.check_min_nodes
            },
        }
    }

    /// Limits for one proof, given how many proofs are still to come.
    fn share(&self, checks_left: usize) -> (l: SolveLimits)
        ensures
            l.max_solutions == 2,
            l.max_nodes == share_nodes(
                self.nodes,
                self.slack,
                self.min_nodes,
                if checks_left < 1 { 1 } else { checks_left as u64 },
            ),
            l.deadline is Some <==> self.deadline is Some,
    {
        let left: u64 = if checks_left < 1 {
            1
        } else {
            checks_left as u64
        };
        let fair = saturating_mul(self.nodes / left, self.slack);
        let floored = if fair < self.min_nodes {
            self.min_nodes
        } else {
            fair
        };
        let cap = if self.nodes < 1 {
            1
        } else {
            self.nodes
        };
        let nodes = if floored > cap {
            cap
        } else {
            floored
        };
        let deadline = match self.deadline {
            Some(end) => {
                let remaining = end.remaining_ms();
                let now = end.timer.elapsed_ms();
                let at_ms = now.saturating_add(saturating_mul(remaining / left, self.slack));
                Some(Deadline { timer: end.timer, at_ms })
            },
            None => None,
        };
        SolveLimits::unique_check(deadline).with_node_budget(nodes)
    }

    /// The pool is used up.
    fn exhausted(&self) -> (r: bool)
        ensures
            self.nodes == 0 ==> r,
            self.deadline is None ==> r == (self.nodes == 0),
    {
        if self.nodes == 0 {
            return true;
        }
        match &self.deadline {
            Some(end) => end.passed(),
            None => false,
        }
    }

    fn spend(&mut self, nodes: u64)
        ensures
            final(self).nodes == if old(self).nodes > nodes { old(self).nodes - nodes } else { 0 },
            final(self).deadline == old(self).deadline,
            final(self).slack == old(self).slack,
            final(self).min_nodes == old(self).min_nodes,
    {
        self.nodes = self.nodes.saturating_sub(nodes);
    }
}

/// Orthogonal black neighbours among the neighbours `0..k` of cell `i`.
pub open spec fn ortho_blacks(g: &Grid, s: Seq<u8>, i: int, k: int) -> nat
    decreases k,
{
    if k <= 0 {
        0
    } else {
        ortho_blacks(g, s, i, k - 1) + match g.on(i, k - 1) {
            Some(j) => if s[j as int] == BLACK {
                1nat
            } else {
                0nat
            },
            None => 0nat,
        }
    }
}

/// How many of the orthogonal neighbours of `cell` are already black.
fn black_neighbors(cells: &[u8], grid: &Grid, cell: usize) -> (count: u32)
    requires
        grid.wf(),
        cell < grid.size(),
        cells@.len() == grid.size(),
    ensures
        count == ortho_blacks(grid, cells@, cell as int, 4),
        count <= 4,
{
    let ortho = grid.ortho(cell);
    let mut count: u32 = 0;
    let mut k: usize = 0;
    while k < 4
        invariant
            grid.wf(),
            cell < grid.size(),
            cells@.len() == grid.size(),
            forall|j: int| 0 <= j < 4 ==> #[trigger] ortho@[j] == grid.on(cell as int, j),
            k <= 4,
            count == ortho_blacks(grid, cells@, cell as int, k as int),
            count <= k,
        decreases 4 - k,
    {
        if let Some(nb) = ortho[k] {
            proof {
                crate::model::lemma_nb_in_range(grid, cell as int, k as int);
            }
            if cells[nb] == BLACK {
                count = count + 1;
            }
        }
        k = k + 1;
    }
    count
}

/// Chebyshev distance between two cells.
fn chebyshev(grid: &Grid, a: usize, b: usize) -> (d: usize)
    requires
        grid.wf(),
        a < grid.size(),
        b < grid.size(),
    ensures
        d == crate::grid::chebyshev_distance(grid, a as int, b as int),
{
    let (ax, ay) = grid.xy(a);
    let (bx, by) = grid.xy(b);
    let dx = if ax >= bx {
        ax - bx
    } else {
        bx - ax
    };
    let dy = if ay >= by {
        ay - by
    } else {
        by - ay
    };
    if dx >= dy {
        dx
    } else {
        dy
    }
}

/// The cells that carry one of the clues.
pub open spec fn clue_cells_of(n: int, clues: Seq<(usize, Clue)>) -> Seq<bool> {
    Seq::new(n as nat, |i: int| exists|t: int| 0 <= t < clues.len() && (#[trigger] clues[t]).0 == i)
}

/// Biggest clue-free patch of the board for a given clue set.
fn blank_region(grid: &Grid, solution: &[u8], clues: &[(usize, Clue)]) -> (r: usize)
    requires
        grid.wf(),
        solution@.len() == grid.size(),
        forall|t: int| 0 <= t < clues@.len() ==> (#[trigger] clues@[t]).0 < grid.size(),
    ensures
        r == crate::region::largest_region_size(
            grid,
            crate::rules::blank_cells(solution@, clue_cells_of(grid.size(), clues@)),
        ),
{
    let n = grid.len();
    let mut is_clue: Vec<bool> = vec![false; n];
    let mut t: usize = 0;
    while t < clues.len()
        invariant
            n == grid.size(),
            is_clue@.len() == n,
            t <= clues@.len(),
            forall|u: int| 0 <= u < clues@.len() ==> (#[trigger] clues@[u]).0 < n,
            forall|i: int|
                0 <= i < n ==> #[trigger] is_clue@[i] == exists|u: int|
                    0 <= u < t && (#[trigger] clues@[u]).0 == i,
        decreases clues@.len() - t,
    {
        let i = clues[t].0;
        is_clue.set(i, true);
        proof {
            assert forall|j: int| 0 <= j < n implies #[trigger] is_clue@[j] == exists|u: int|
                0 <= u < t + 1 && (#[trigger] clues@[u]).0 == j by {
                if j == i {
                    assert(clues@[t as int].0 == j);
                }
            }
        }
        t = t + 1;
    }
    proof {
        assert(is_clue@ =~= clue_cells_of(grid.size(), clues@));
    }
    largest_blank_region(grid, solution, &is_clue)
}

/// The black cells are orthogonally connected and no 2x2 block is black.
pub open spec fn tree_shape(g: &Grid, cells: Seq<u8>) -> bool {
    &&& forall|t: int| !#[trigger] black_block(g, cells, t)
    &&& forall|a: int, b: int|
        0 <= a < cells.len() && 0 <= b < cells.len() && #[trigger] cells[a] == BLACK
            && #[trigger] cells[b] == BLACK ==> connected(g, walls(cells), a, b)
}

/// Two different orthogonal black neighbours count twice.
proof fn lemma_two_ortho_blacks(g: &Grid, s: Seq<u8>, i: int, k1: int, k2: int)
    requires
        0 <= k1 < 4,
        0 <= k2 < 4,
        k1 != k2,
        g.on(i, k1) matches Some(j) && s[j as int] == BLACK,
        g.on(i, k2) matches Some(j) && s[j as int] == BLACK,
    ensures
        ortho_blacks(g, s, i, 4) >= 2,
{
    reveal_with_fuel(ortho_blacks, 5);
}

/// A cell with an orthogonal black neighbour sees a positive count, and a
/// positive count names one.
proof fn lemma_one_ortho_black(g: &Grid, s: Seq<u8>, i: int) -> (k: int)
    requires
        ortho_blacks(g, s, i, 4) >= 1,
    ensures
        0 <= k < 4,
        g.on(i, k) matches Some(j) && s[j as int] == BLACK,
{
    reveal_with_fuel(ortho_blacks, 5);
    if g.on(i, 0) matches Some(j) && s[j as int] == BLACK {
        0
    } else if g.on(i, 1) matches Some(j) && s[j as int] == BLACK {
        1
    } else if g.on(i, 2) matches Some(j) && s[j as int] == BLACK {
        2
    } else {
        3
    }
}

/// A black block after adding `c` gives `c` two black neighbours before.
proof fn lemma_grow_block(g: &Grid, old: Seq<u8>, c: int, t: int)
    requires
        g.wf(),
        old.len() == g.size(),
        0 <= c < old.len(),
        old[c] == WHITE,
        forall|t2: int| !#[trigger] black_block(g, old, t2),
        black_block(g, old.update(c, BLACK), t),
    ensures
        ortho_blacks(g, old, c, 4) >= 2,
{
    let w = g.w as int;
    let h = g.h as int;
    crate::propagation::lemma_block_in_range(g, t);
    lemma_cell_coords(w, h, t);
    let x = col(w, t);
    let y = row(w, t);
    assert(t == y * w + x);
    if c != t && c != t + 1 && c != t + w && c != t + w + 1 {
        assert(black_block(g, old, t));
    } else if c == t {
        assert(g.on(c, 1) == Some((t + 1) as usize));
        assert(g.on(c, 2) == Some((t + w) as usize)) by {
            assert((y + 1) * w + x == t + w) by (nonlinear_arith)
                requires
                    t == y * w + x,
            ;
        }
        lemma_two_ortho_blacks(g, old, c, 1, 2);
    } else if c == t + 1 {
        assert(g.on(c, 3) == Some(t as usize));
        assert(g.on(c, 2) == Some((t + w + 1) as usize)) by {
            assert((y + 1) * w + x + 1 == t + w + 1) by (nonlinear_arith)
                requires
                    t == y * w + x,
            ;
        }
        lemma_two_ortho_blacks(g, old, c, 3, 2);
    } else if c == t + w {
        assert(g.on(c, 0) == Some(t as usize));
        assert(g.on(c, 1) == Some((t + w + 1) as usize)) by {
            assert((y + 1) * w + x + 1 == t + w + 1) by (nonlinear_arith)
                requires
                    t == y * w + x,
            ;
        }
        lemma_two_ortho_blacks(g, old, c, 0, 1);
    } else {
        assert(g.on(c, 0) == Some((t + 1) as usize));
        assert(g.on(c, 3) == Some((t + w) as usize)) by {
            assert((y + 1) * w + x == t + w) by (nonlinear_arith)
                requires
                    t == y * w + x,
            ;
        }
        lemma_two_ortho_blacks(g, old, c, 0, 3);
    }
}

/// Adding a black cell that touches exactly one black cell keeps the black
/// cells a tree: connected, and never a 2x2 block (a block would give the
/// last of its cells two black neighbours).
proof fn lemma_grow_tree(g: &Grid, old: Seq<u8>, c: int)
    requires
        g.wf(),
        old.len() == g.size(),
        0 <= c < old.len(),
        old[c] == WHITE,
        tree_shape(g, old),
        ortho_blacks(g, old, c, 4) == 1,
    ensures
        tree_shape(g, old.update(c, BLACK)),
{
    let new = old.update(c, BLACK);
    assert forall|t: int| !#[trigger] black_block(g, new, t) by {
        if black_block(g, new, t) {
            lemma_grow_block(g, old, c, t);
        }
    }
    let k = lemma_one_ortho_black(g, old, c);
    let j = g.on(c, k)->Some_0 as int;
    crate::model::lemma_nb_in_range(g, c, k);
    lemma_on_adjacent(g, c, k);
    lemma_adjacent_symmetric(g, c, j);
    assert(walls(new)[c]);
    assert(walls(new)[j]);
    assert forall|i: int| 0 <= i < walls(old).len() && #[trigger] walls(old)[i] implies walls(new)[i] by {
    }
    // every old wall reaches the new one through `j`
    assert forall|a: int| 0 <= a < old.len() && #[trigger] old[a] == BLACK implies connected(g, walls(new), a, c) by {
        assert(connected(g, walls(old), a, j));
        lemma_connected_mono(g, walls(old), walls(new), a, j);
        lemma_connected_step(g, walls(new), a, j, c);
    }
    assert forall|a: int, b: int|
        0 <= a < new.len() && 0 <= b < new.len() && #[trigger] new[a] == BLACK && #[trigger] new[b]
            == BLACK implies connected(g, walls(new), a, b) by {
        if a == c && b == c {
            lemma_connected_refl(g, walls(new), c);
        } else if a == c {
            assert(old[b] == BLACK);
            assert(connected(g, walls(new), b, c));
            lemma_connected_symmetric(g, walls(new), b, c);
        } else if b == c {
            assert(old[a] == BLACK);
        } else {
            assert(old[a] == BLACK && old[b] == BLACK);
            assert(connected(g, walls(old), a, b));
            lemma_connected_mono(g, walls(old), walls(new), a, b);
        }
    }
}

/// Number of entries equal to `v`.
pub open spec fn count_value(s: Seq<u8>, v: u8) -> nat
    decreases s.len(),
{
    if s.len() == 0 {
        0
    } else {
        count_value(s.drop_last(), v) + if s.last() == v {
            1nat
        } else {
            0nat
        }
    }
}

proof fn lemma_count_value_update(s: Seq<u8>, i: int, v: u8, x: u8)
    requires
        0 <= i < s.len(),
        s[i] == v,
        x != v,
    ensures
        count_value(s.update(i, x), v) + 1 == count_value(s, v),
    decreases s.len(),
{
    let t = s.update(i, x);
    if i < s.len() - 1 {
        assert(t.drop_last() =~= s.drop_last().update(i, x));
        lemma_count_value_update(s.drop_last(), i, v, x);
    } else {
        assert(t.drop_last() =~= s.drop_last());
    }
}

/// Cells that are all black or white number as many as the black ones and
/// the white ones together.
proof fn lemma_count_black_white(s: Seq<u8>)
    requires
        forall|i: int| 0 <= i < s.len() ==> #[trigger] s[i] == BLACK || s[i] == WHITE,
    ensures
        count_value(s, BLACK) + count_value(s, WHITE) == s.len(),
    decreases s.len(),
{
    if s.len() > 0 {
        let t = s.drop_last();
        assert forall|i: int| 0 <= i < t.len() implies #[trigger] t[i] == BLACK || t[i] == WHITE by {
            assert(t[i] == s[i]);
        }
        lemma_count_black_white(t);
    }
}

/// A sequence of one value holds as many of it as it is long.
proof fn lemma_count_all(s: Seq<u8>, v: u8)
    requires
        forall|i: int| 0 <= i < s.len() ==> #[trigger] s[i] == v,
    ensures
        count_value(s, v) == s.len(),
    decreases s.len(),
{
    if s.len() > 0 {
        let t = s.drop_last();
        assert forall|i: int| 0 <= i < t.len() implies #[trigger] t[i] == v by {
            assert(t[i] == s[i]);
        }
        lemma_count_all(t, v);
    }
}

/// Distances from the black cells to every cell, breadth first over
/// orthogonal steps (`usize::MAX` where nothing is reached).
fn distances(grid: &Grid, blacks: &Vec<usize>, distance: &mut Vec<usize>, queue: &mut Vec<usize>)
    requires
        grid.wf(),
        grid.size() < usize::MAX,
        old(distance)@.len() == grid.size(),
        forall|j: int| 0 <= j < blacks@.len() ==> #[trigger] blacks@[j] < grid.size(),
        forall|a: int, b: int| 0 <= a < b < blacks@.len() ==> blacks@[a] != blacks@[b],
    ensures
        step_distances(grid, blacks@, final(distance)@),
{
    let n = grid.len();
    let mut i: usize = 0;
    while i < n
        invariant
            n == grid.size(),
            distance@.len() == n,
            i <= n,
            forall|j: int| 0 <= j < i ==> #[trigger] distance@[j] == usize::MAX,
        decreases n - i,
    {
        distance.set(i, usize::MAX);
        i = i + 1;
    }
    proof {
        assert(count_eq(distance@, usize::MAX) == n) by {
            lemma_count_eq_all(distance@, usize::MAX);
        }
    }
    seed_queue(grid, blacks, distance, queue);
    let ghost d1 = distance@;
    proof {
        assert forall|i: int|
            0 <= i < d1.len() && #[trigger] d1[i] != usize::MAX && d1[i] > 0 implies exists|j: int|
                adjacent(grid, i, j) && d1[j] != usize::MAX && d1[j] + 1 == d1[i] by {
        }
        assert(stepped(grid, d1));
        assert forall|a: int, b: int|
            0 <= a <= b < queue@.len() implies d1[#[trigger] queue@[a] as int] <= d1[#[trigger] queue@[b] as int] by {
            assert(listed(queue@, queue@[a] as int));
            assert(listed(queue@, queue@[b] as int));
        }
        assert forall|j: int| 0 <= j < queue@.len() implies d1[#[trigger] queue@[j] as int] <= d1[queue@[0] as int] + 1 by {
            assert(listed(queue@, queue@[j] as int));
        }
    }
    spread(grid, distance, queue);
    proof {
        assert forall|i: int| 0 <= i < grid.size() implies (#[trigger] distance@[i] == 0 <==> listed(blacks@, i)) by {
            if d1[i] != usize::MAX {
                assert(distance@[i] == d1[i]);
            }
        }
    }
}

/// Distance zero for every black cell, which is queued.
fn seed_queue(grid: &Grid, blacks: &Vec<usize>, distance: &mut Vec<usize>, queue: &mut Vec<usize>)
    requires
        grid.wf(),
        grid.size() < usize::MAX,
        old(distance)@.len() == grid.size(),
        forall|j: int| 0 <= j < old(distance)@.len() ==> #[trigger] old(distance)@[j] == usize::MAX,
        count_eq(old(distance)@, usize::MAX) == grid.size(),
        forall|j: int| 0 <= j < blacks@.len() ==> #[trigger] blacks@[j] < grid.size(),
        forall|a: int, b: int| 0 <= a < b < blacks@.len() ==> blacks@[a] != blacks@[b],
    ensures
        final(distance)@.len() == grid.size(),
        forall|j: int| 0 <= j < final(queue)@.len() ==> #[trigger] final(queue)@[j] < grid.size(),
        forall|j: int| 0 <= j < final(queue)@.len() ==> final(distance)@[#[trigger] final(queue)@[j] as int] <= j,
        forall|i: int| 0 <= i < grid.size() && #[trigger] final(distance)@[i] != usize::MAX ==> final(distance)@[i] < grid.size(),
        final(queue)@.len() + count_eq(final(distance)@, usize::MAX) == grid.size(),
        final(queue)@ == blacks@,
        forall|i: int| 0 <= i < grid.size() ==> (#[trigger] final(distance)@[i] != usize::MAX <==> listed(blacks@, i)),
        forall|i: int| 0 <= i < grid.size() && #[trigger] final(distance)@[i] != usize::MAX ==> final(distance)@[i] == 0,
{
    let n = grid.len();
    queue.clear();
    let mut b: usize = 0;
    while b < blacks.len()
        invariant
            n == grid.size(),
            n < usize::MAX,
            distance@.len() == n,
            b <= blacks@.len(),
            forall|j: int| 0 <= j < blacks@.len() ==> #[trigger] blacks@[j] < n,
            forall|x: int, y: int| 0 <= x < y < blacks@.len() ==> blacks@[x] != blacks@[y],
            queue@ == blacks@.take(b as int),
            forall|i: int|
                0 <= i < n ==> (#[trigger] distance@[i] != usize::MAX <==> exists|u: int|
                    0 <= u < b && blacks@[u] == i),
            forall|i: int| 0 <= i < n && #[trigger] distance@[i] != usize::MAX ==> distance@[i] == 0,
            queue@.len() + count_eq(distance@, usize::MAX) == n,
            forall|j: int| 0 <= j < queue@.len() ==> #[trigger] queue@[j] < n,
            forall|j: int| 0 <= j < queue@.len() ==> distance@[#[trigger] queue@[j] as int] <= j,
        decreases blacks@.len() - b,
    {
        let c = blacks[b];
        proof {
            assert(distance@[c as int] == usize::MAX) by {
                if distance@[c as int] != usize::MAX {
                    let u = choose|u: int| 0 <= u < b && blacks@[u] == c;
                }
            }
            let d2 = distance@.update(c as int, 0);
            assert(d2.update(c as int, usize::MAX) =~= distance@);
            lemma_count_eq_update(d2, c as int, usize::MAX);
        }
        distance.set(c, 0);
        queue.push(c);
        proof {
            assert(queue@ =~= blacks@.take(b + 1));
            assert forall|i: int|
                0 <= i < n implies (#[trigger] distance@[i] != usize::MAX <==> exists|u: int|
                    0 <= u < b + 1 && blacks@[u] == i) by {
                if i == c {
                    assert(blacks@[b as int] == i);
                }
            }
        }
        b = b + 1;
    }
    proof {
        assert(queue@ =~= blacks@);
    }
}

/// Cell `i` is one of the cells of `cells`.
pub open spec fn listed(cells: Seq<usize>, i: int) -> bool {
    exists|u: int| 0 <= u < cells.len() && cells[u] == i
}

/// The first `k` side neighbours of the reached cell `c` are reached, at most
/// one step further.
pub open spec fn spread_from(g: &Grid, d: Seq<usize>, c: int, k: int) -> bool {
    forall|kk: int|
        0 <= kk < k ==> match #[trigger] g.on(c, kk) {
            Some(x) => d[x as int] != usize::MAX && d[x as int] <= d[c] + 1,
            None => true,
        }
}

/// Every reached cell past the start is one step further than a reached
/// side neighbour.
pub open spec fn stepped(g: &Grid, d: Seq<usize>) -> bool {
    forall|i: int|
        0 <= i < d.len() && #[trigger] d[i] != usize::MAX && d[i] > 0 ==> exists|j: int|
            adjacent(g, i, j) && d[j] != usize::MAX && d[j] + 1 == d[i]
}

/// `d` counts, for every cell, the side steps to the nearest cell of `start`
/// (`usize::MAX` where none can be reached): the cells of `start` are at
/// zero, every other reached cell is one step further than a neighbour, and
/// no neighbour of a reached cell is more than one step further.
pub open spec fn step_distances(g: &Grid, start: Seq<usize>, d: Seq<usize>) -> bool {
    &&& d.len() == g.size()
    &&& forall|i: int| 0 <= i < g.size() ==> (#[trigger] d[i] == 0 <==> listed(start, i))
    &&& stepped(g, d)
    &&& forall|i: int, j: int|
        #[trigger] adjacent(g, i, j) && d[i] != usize::MAX ==> d[j] != usize::MAX && d[j] <= d[i] + 1
}

/// Breadth first spreading of the distances from the cells in the queue.
#[verifier::rlimit(40)]
fn spread(grid: &Grid, distance: &mut Vec<usize>, queue: &mut Vec<usize>)
    requires
        grid.wf(),
        grid.size() < usize::MAX,
        old(distance)@.len() == grid.size(),
        forall|j: int| 0 <= j < old(queue)@.len() ==> #[trigger] old(queue)@[j] < grid.size(),
        forall|j: int| 0 <= j < old(queue)@.len() ==> old(distance)@[#[trigger] old(queue)@[j] as int] <= j,
        forall|i: int| 0 <= i < grid.size() && #[trigger] old(distance)@[i] != usize::MAX ==> old(distance)@[i] < grid.size(),
        old(queue)@.len() + count_eq(old(distance)@, usize::MAX) == grid.size(),
        forall|i: int| 0 <= i < grid.size() ==> (#[trigger] old(distance)@[i] != usize::MAX <==> listed(old(queue)@, i)),
        forall|a: int, b: int|
            0 <= a <= b < old(queue)@.len() ==> old(distance)@[#[trigger] old(queue)@[a] as int] <= old(
                distance,
            )@[#[trigger] old(queue)@[b] as int],
        forall|j: int|
            0 <= j < old(queue)@.len() ==> old(distance)@[#[trigger] old(queue)@[j] as int] <= old(
                distance,
            )@[old(queue)@[0] as int] + 1,
        stepped(grid, old(distance)@),
    ensures
        final(distance)@.len() == grid.size(),
        forall|i: int|
            0 <= i < grid.size() && old(distance)@[i] != usize::MAX ==> #[trigger] final(distance)@[i] == old(
                distance,
            )@[i],
        forall|i: int|
            0 <= i < grid.size() && #[trigger] final(distance)@[i] != usize::MAX && old(distance)@[i]
                == usize::MAX ==> final(distance)@[i] >= 1,
        stepped(grid, final(distance)@),
        forall|i: int, j: int|
            #[trigger] adjacent(grid, i, j) && final(distance)@[i] != usize::MAX ==> final(distance)@[j]
                != usize::MAX && final(distance)@[j] <= final(distance)@[i] + 1,
{
    let n = grid.len();
    let ghost d0 = distance@;
    let mut head: usize = 0;
    while head < queue.len()
        invariant
            grid.wf(),
            n == grid.size(),
            n < usize::MAX,
            distance@.len() == n,
            d0.len() == n,
            head <= queue@.len(),
            forall|j: int| 0 <= j < queue@.len() ==> #[trigger] queue@[j] < n,
            forall|j: int| 0 <= j < queue@.len() ==> distance@[#[trigger] queue@[j] as int] <= j,
            forall|i: int| 0 <= i < n && #[trigger] distance@[i] != usize::MAX ==> distance@[i] < n,
            queue@.len() + count_eq(distance@, usize::MAX) == n,
            forall|i: int| 0 <= i < n ==> (#[trigger] distance@[i] != usize::MAX <==> listed(queue@, i)),
            forall|a: int, b: int|
                0 <= a <= b < queue@.len() ==> distance@[#[trigger] queue@[a] as int] <= distance@[#[trigger] queue@[b] as int],
            head < queue@.len() ==> forall|j: int|
                0 <= j < queue@.len() ==> distance@[#[trigger] queue@[j] as int] <= distance@[queue@[head as int] as int] + 1,
            stepped(grid, distance@),
            forall|j: int| 0 <= j < head ==> spread_from(grid, distance@, #[trigger] queue@[j] as int, 4),
            forall|i: int| 0 <= i < n && d0[i] != usize::MAX ==> #[trigger] distance@[i] == d0[i],
            forall|i: int| 0 <= i < n && #[trigger] distance@[i] != usize::MAX && d0[i] == usize::MAX ==> distance@[i] >= 1,
        decreases n - head,
    {
        proof {
            lemma_count_eq_bound(distance@, usize::MAX);
        }
        let c = queue[head];
        head = head + 1;
        let next = distance[c] + 1;
        let ghost dc = distance@[c as int];
        proof {
            assert(listed(queue@, c as int));
        }
        let ortho = grid.ortho(c);
        let mut k: usize = 0;
        while k < 4
            invariant
                grid.wf(),
                n == grid.size(),
                n < usize::MAX,
                c < n,
                distance@.len() == n,
                d0.len() == n,
                0 < head <= queue@.len(),
                c == queue@[head - 1],
                distance@[c as int] == dc,
                dc != usize::MAX,
                next == dc + 1,
                next <= head,
                forall|j: int| 0 <= j < 4 ==> #[trigger] ortho@[j] == grid.on(c as int, j),
                forall|j: int| 0 <= j < queue@.len() ==> #[trigger] queue@[j] < n,
                forall|j: int| 0 <= j < queue@.len() ==> distance@[#[trigger] queue@[j] as int] <= j,
                forall|i: int| 0 <= i < n && #[trigger] distance@[i] != usize::MAX ==> distance@[i] < n,
                queue@.len() + count_eq(distance@, usize::MAX) == n,
                k <= 4,
                forall|i: int| 0 <= i < n ==> (#[trigger] distance@[i] != usize::MAX <==> listed(queue@, i)),
                forall|a: int, b: int|
                    0 <= a <= b < queue@.len() ==> distance@[#[trigger] queue@[a] as int] <= distance@[#[trigger] queue@[b] as int],
                forall|j: int| 0 <= j < queue@.len() ==> distance@[#[trigger] queue@[j] as int] <= dc + 1,
                stepped(grid, distance@),
                forall|j: int| 0 <= j < head - 1 ==> spread_from(grid, distance@, #[trigger] queue@[j] as int, 4),
                spread_from(grid, distance@, c as int, k as int),
                forall|i: int| 0 <= i < n && d0[i] != usize::MAX ==> #[trigger] distance@[i] == d0[i],
                forall|i: int| 0 <= i < n && #[trigger] distance@[i] != usize::MAX && d0[i] == usize::MAX ==> distance@[i] >= 1,
            decreases 4 - k,
        {
            if let Some(nb) = ortho[k] {
                proof {
                    crate::model::lemma_nb_in_range(grid, c as int, k as int);
                }
                if distance[nb] == usize::MAX {
                    proof {
                        let d2 = distance@.update(nb as int, next);
                        assert(d2.update(nb as int, usize::MAX) =~= distance@);
                        lemma_count_eq_update(d2, nb as int, usize::MAX);
                        lemma_count_eq_bound(d2, usize::MAX);
                    }
                    let ghost q0 = queue@;
                    let ghost dd = distance@;
                    distance.set(nb, next);
                    queue.push(nb);
                    proof {
                        assert(distance@ == dd.update(nb as int, next));
                        assert(dd[c as int] != usize::MAX);
                        lemma_on_adjacent(grid, c as int, k as int);
                        lemma_adjacent_symmetric(grid, c as int, nb as int);
                        assert forall|j: int| 0 <= j < queue@.len() implies distance@[#[trigger] queue@[j] as int] <= j by {
                            if j < q0.len() {
                                assert(queue@[j] == q0[j]);
                            }
                        }
                        assert forall|i: int| 0 <= i < n implies (#[trigger] distance@[i] != usize::MAX <==> listed(queue@, i)) by {
                            if listed(q0, i) {
                                let u = choose|u: int| 0 <= u < q0.len() && q0[u] == i;
                                assert(queue@[u] == i);
                            }
                            if listed(queue@, i) && i != nb {
                                let u = choose|u: int| 0 <= u < queue@.len() && queue@[u] == i;
                                assert(u < q0.len());
                                assert(q0[u] == i);
                            }
                            if i == nb {
                                assert(queue@[q0.len() as int] == i);
                            }
                        }
                        assert forall|j: int| 0 <= j < q0.len() implies dd[#[trigger] q0[j] as int] != usize::MAX && q0[j] != nb by {
                            assert(listed(q0, q0[j] as int));
                        }
                        assert forall|a: int, b: int|
                            0 <= a <= b < queue@.len() implies distance@[#[trigger] queue@[a] as int] <= distance@[#[trigger] queue@[b] as int] by {
                            if b < q0.len() {
                                assert(queue@[a] == q0[a] && queue@[b] == q0[b]);
                            } else if a < q0.len() {
                                assert(queue@[a] == q0[a]);
                            }
                        }
                        assert forall|j: int| 0 <= j < queue@.len() implies distance@[#[trigger] queue@[j] as int] <= dc + 1 by {
                            if j < q0.len() {
                                assert(queue@[j] == q0[j]);
                            }
                        }
                        assert forall|i: int|
                            0 <= i < distance@.len() && #[trigger] distance@[i] != usize::MAX && distance@[i] > 0 implies exists|j: int|
                                adjacent(grid, i, j) && distance@[j] != usize::MAX && distance@[j] + 1 == distance@[i] by {
                            if i == nb {
                                assert(adjacent(grid, i, c as int) && distance@[c as int] != usize::MAX);
                            } else {
                                assert(dd[i] != usize::MAX && dd[i] > 0);
                                let j = choose|j: int| adjacent(grid, i, j) && dd[j] != usize::MAX && dd[j] + 1 == dd[i];
                                assert(adjacent(grid, i, j) && distance@[j] != usize::MAX && distance@[j] + 1 == distance@[i]);
                            }
                        }
                        assert forall|j: int| 0 <= j < head - 1 implies spread_from(grid, distance@, #[trigger] queue@[j] as int, 4) by {
                            let cj = queue@[j] as int;
                            assert(cj == q0[j]);
                            assert(spread_from(grid, dd, cj, 4));
                            assert forall|kk: int| 0 <= kk < 4 implies match #[trigger] grid.on(cj, kk) {
                                Some(x) => distance@[x as int] != usize::MAX && distance@[x as int] <= distance@[cj] + 1,
                                None => true,
                            } by {
                                assert(dd[cj] != usize::MAX);
                                crate::model::lemma_nb_in_range(grid, cj, kk);
                                if let Some(x) = grid.on(cj, kk) {
                                    assert(dd[x as int] != usize::MAX);
                                    assert(x != nb);
                                    assert(distance@[x as int] == dd[x as int]);
                                }
                            }
                        }
                        assert forall|kk: int| 0 <= kk < k + 1 implies match #[trigger] grid.on(c as int, kk) {
                            Some(x) => distance@[x as int] != usize::MAX && distance@[x as int] <= distance@[c as int] + 1,
                            None => true,
                        } by {
                            crate::model::lemma_nb_in_range(grid, c as int, kk);
                            assert(c != nb);
                            if kk < k {
                                assert(spread_from(grid, dd, c as int, k as int));
                                if let Some(x) = grid.on(c as int, kk) {
                                    assert(dd[x as int] != usize::MAX);
                                    assert(x != nb);
                                    assert(distance@[x as int] == dd[x as int]);
                                }
                            }
                        }
                    }
                } else {
                    proof {
                        assert(listed(queue@, nb as int));
                        let u = choose|u: int| 0 <= u < queue@.len() && queue@[u] == nb;
                        assert(distance@[queue@[u] as int] <= dc + 1);
                        assert forall|kk: int| 0 <= kk < k + 1 implies match #[trigger] grid.on(c as int, kk) {
                            Some(x) => distance@[x as int] != usize::MAX && distance@[x as int] <= distance@[c as int] + 1,
                            None => true,
                        } by {
                            if kk < k {
                                assert(spread_from(grid, distance@, c as int, k as int));
                            }
                        }
                    }
                }
            } else {
                proof {
                    assert forall|kk: int| 0 <= kk < k + 1 implies match #[trigger] grid.on(c as int, kk) {
                        Some(x) => distance@[x as int] != usize::MAX && distance@[x as int] <= distance@[c as int] + 1,
                        None => true,
                    } by {
                        if kk < k {
                            assert(spread_from(grid, distance@, c as int, k as int));
                        }
                    }
                }
            }
            k = k + 1;
        }
        proof {
            assert forall|j: int| 0 <= j < head implies spread_from(grid, distance@, #[trigger] queue@[j] as int, 4) by {
                if j == head - 1 {
                    assert(queue@[j] == c);
                }
            }
            if head < queue@.len() {
                assert(distance@[queue@[head - 1] as int] <= distance@[queue@[head as int] as int]);
            }
        }
    }
    proof {
        assert forall|i: int, j: int|
            #[trigger] adjacent(grid, i, j) && distance@[i] != usize::MAX implies distance@[j] != usize::MAX
                && distance@[j] <= distance@[i] + 1 by {
            assert(listed(queue@, i));
            let u = choose|u: int| 0 <= u < queue@.len() && queue@[u] == i;
            assert(spread_from(grid, distance@, queue@[u] as int, 4));
            lemma_adjacent_on(grid, i, j);
            let kk = choose|kk: int| 0 <= kk < 4 && #[trigger] grid.on(i, kk) == Some(j as usize);
        }
    }
}

/// Every entry equals `v`.
proof fn lemma_count_eq_all(s: Seq<usize>, v: usize)
    requires
        forall|j: int| 0 <= j < s.len() ==> #[trigger] s[j] == v,
    ensures
        count_eq(s, v) == s.len(),
    decreases s.len(),
{
    if s.len() > 0 {
        lemma_count_eq_all(s.drop_last(), v);
    }
}

/// Side neighbour `k` of cell `i` sits one step along `ortho_delta(k)`.
proof fn lemma_on_coords(g: &Grid, i: int, k: int)
    requires
        g.wf(),
        0 <= i < g.size(),
        0 <= k < 4,
    ensures
        g.on(i, k) matches Some(y) ==> {
            &&& 0 <= y < g.size()
            &&& col(g.w as int, y as int) == col(g.w as int, i) + crate::grid::ortho_delta(k).0
            &&& row(g.w as int, y as int) == row(g.w as int, i) + crate::grid::ortho_delta(k).1
        },
        (0 <= col(g.w as int, i) + crate::grid::ortho_delta(k).0 < g.w && 0 <= row(g.w as int, i)
            + crate::grid::ortho_delta(k).1 < g.h) ==> g.on(i, k) is Some,
{
    let w = g.w as int;
    let h = g.h as int;
    lemma_cell_coords(w, h, i);
    let d = crate::grid::ortho_delta(k);
    let x = col(w, i) + d.0;
    let y = row(w, i) + d.1;
    if 0 <= x < w && 0 <= y < h {
        crate::grid::lemma_idx_coords(w, h, x, y);
    }
}

/// An entry of `s[..n]` with the largest row.
proof fn lemma_lowest(w: int, s: Seq<usize>, n: int) -> (u: int)
    requires
        1 <= n <= s.len(),
    ensures
        0 <= u < n,
        forall|v: int| 0 <= v < n ==> row(w, #[trigger] s[v] as int) <= row(w, s[u] as int),
    decreases n,
{
    if n == 1 {
        0
    } else {
        let u = lemma_lowest(w, s, n - 1);
        if row(w, s[n - 1] as int) > row(w, s[u] as int) {
            n - 1
        } else {
            u
        }
    }
}

/// An entry of `s[..n]` with the smallest row.
proof fn lemma_highest(w: int, s: Seq<usize>, n: int) -> (u: int)
    requires
        1 <= n <= s.len(),
    ensures
        0 <= u < n,
        forall|v: int| 0 <= v < n ==> row(w, #[trigger] s[v] as int) >= row(w, s[u] as int),
    decreases n,
{
    if n == 1 {
        0
    } else {
        let u = lemma_highest(w, s, n - 1);
        if row(w, s[n - 1] as int) < row(w, s[u] as int) {
            n - 1
        } else {
            u
        }
    }
}

/// A path climbing from one row to another passes through every row in
/// between.
proof fn lemma_path_rows(g: &Grid, keep: Seq<bool>, p: Seq<int>, r: int)
    requires
        crate::region::is_path(g, keep, p),
        row(g.w as int, p[0]) <= r <= row(g.w as int, p.last()),
    ensures
        exists|i: int| 0 <= i < p.len() && row(g.w as int, #[trigger] p[i]) == r,
    decreases p.len(),
{
    let w = g.w as int;
    if row(w, p[0]) == r {
        assert(row(w, p[0]) == r);
    } else {
        assert(p.len() > 1);
        assert(adjacent(g, p[0], p[1]));
        let q = p.drop_first();
        assert forall|i: int| 0 <= i < q.len() implies 0 <= #[trigger] q[i] < g.size() && keep[q[i]] by {
            assert(q[i] == p[i + 1]);
        }
        assert forall|i: int| 0 <= i < q.len() - 1 implies adjacent(g, #[trigger] q[i], q[i + 1]) by {
            assert(q[i] == p[i + 1] && q[i + 1] == p[i + 2]);
        }
        assert(q.last() == p.last());
        lemma_path_rows(g, keep, q, r);
        let i = choose|i: int| 0 <= i < q.len() && row(w, #[trigger] q[i]) == r;
        assert(p[i + 1] == q[i]);
    }
}

/// Every two walls are joined by walls.
#[verifier::opaque]
spec fn walls_joined(g: &Grid, cells: Seq<u8>) -> bool {
    forall|a: int, b: int|
        0 <= a < cells.len() && 0 <= b < cells.len() && #[trigger] cells[a] == BLACK
            && #[trigger] cells[b] == BLACK ==> connected(g, walls(cells), a, b)
}

/// A connected set of walls that reaches both the top and the bottom row
/// holds at least one wall per row.
proof fn lemma_tall_tree(g: &Grid, cells: Seq<u8>, blacks: Seq<usize>, a: int, b: int)
    requires
        g.wf(),
        cells.len() == g.size(),
        walls_joined(g, cells),
        forall|i: int| 0 <= i < g.size() && #[trigger] cells[i] == BLACK ==> listed(blacks, i),
        0 <= a < g.size(),
        0 <= b < g.size(),
        cells[a] == BLACK,
        cells[b] == BLACK,
        row(g.w as int, a) == 0,
        row(g.w as int, b) == g.h - 1,
    ensures
        g.h <= blacks.len(),
{
    let w = g.w as int;
    let h = g.h as int;
    assert(connected(g, walls(cells), a, b)) by {
        reveal(walls_joined);
    }
    let p = choose|p: Seq<int>| #[trigger] crate::region::is_path(g, walls(cells), p) && p[0] == a && p.last() == b;
    let f = |c: usize| row(w, c as int);
    let bs = blacks.to_set();
    let rows = bs.map(f);
    let range = vstd::set_lib::set_int_range(0, h);
    assert forall|r: int| range.contains(r) implies rows.contains(r) by {
        lemma_path_rows(g, walls(cells), p, r);
        let i = choose|i: int| 0 <= i < p.len() && row(w, #[trigger] p[i]) == r;
        let c = p[i];
        assert(walls(cells)[c]);
        assert(cells[c] == BLACK);
        assert(listed(blacks, c));
        let u = choose|u: int| 0 <= u < blacks.len() && blacks[u] == c;
        assert(blacks.contains(blacks[u]));
        assert(bs.contains(blacks[u]));
        assert(f(blacks[u]) == r);
    }
    vstd::seq_lib::seq_to_set_is_finite(blacks);
    blacks.lemma_cardinality_of_set();
    vstd::set_lib::lemma_map_size_bound(bs, rows, f);
    vstd::set_lib::lemma_int_range(0, h);
    vstd::set_lib::lemma_len_subset(range, rows);
}

/// A board of `n` cells with exactly the cells of `order` walls.
pub open spec fn blacks_of(n: nat, order: Seq<usize>) -> Seq<u8> {
    Seq::new(n, |i: int| if listed(order, i) { BLACK } else { WHITE })
}

/// The walls listed in `order` were laid one by one, each one after the first
/// beside exactly one wall laid before it: they form a tree of side steps,
/// with no loop.
#[verifier::opaque]
pub open spec fn laid_as_tree(g: &Grid, order: Seq<usize>) -> bool {
    &&& forall|a: int, b: int| 0 <= a < b < order.len() ==> order[a] != order[b]
    &&& forall|k: int|
        1 <= k < order.len() ==> ortho_blacks(
            g,
            blacks_of(g.size() as nat, order.take(k)),
            #[trigger] order[k] as int,
            4,
        ) == 1
}

proof fn lemma_laid_as_tree_push(g: &Grid, order: Seq<usize>, x: usize)
    requires
        laid_as_tree(g, order),
        !listed(order, x as int),
        order.len() >= 1 ==> ortho_blacks(g, blacks_of(g.size() as nat, order), x as int, 4) == 1,
    ensures
        laid_as_tree(g, order.push(x)),
{
    reveal(laid_as_tree);
    let o2 = order.push(x);
    assert forall|a: int, b: int| 0 <= a < b < o2.len() implies o2[a] != o2[b] by {
        if b == order.len() {
            if o2[a] == o2[b] {
                assert(order[a] == x);
            }
        }
    }
    assert forall|k: int| 1 <= k < o2.len() implies ortho_blacks(
        g,
        blacks_of(g.size() as nat, o2.take(k)),
        #[trigger] o2[k] as int,
        4,
    ) == 1 by {
        if k < order.len() {
            assert(o2.take(k) =~= order.take(k));
            assert(o2[k] == order[k]);
        } else {
            assert(o2.take(k) =~= order);
        }
    }
}

/// All eight neighbours of cell `c` are on the board and are walls.
pub open spec fn ring_of_walls(g: &Grid, s: Seq<u8>, c: int) -> bool {
    forall|k: int| 0 <= k < 8 ==> ((#[trigger] g.nb(c, k)) matches Some(j) && s[j as int] == BLACK)
}

/// Stepping from neighbour `m` of `c` by side step `d` lands on neighbour `m2`.
proof fn lemma_ring_step(g: &Grid, c: int, m: int, m2: int, d: int)
    requires
        g.wf(),
        0 <= c < g.size(),
        g.nb(c, m) is Some,
        g.nb(c, m2) is Some,
        neighbor_delta(m).0 + ortho_delta(d).0 == neighbor_delta(m2).0,
        neighbor_delta(m).1 + ortho_delta(d).1 == neighbor_delta(m2).1,
    ensures
        g.on(g.nb(c, m)->Some_0 as int, d) == g.nb(c, m2),
{
    let w = g.w as int;
    let h = g.h as int;
    lemma_cell_coords(w, h, c);
    let x = col(w, c) + neighbor_delta(m).0;
    let y = row(w, c) + neighbor_delta(m).1;
    lemma_idx_coords(w, h, x, y);
    let x2 = col(w, c) + neighbor_delta(m2).0;
    let y2 = row(w, c) + neighbor_delta(m2).1;
    lemma_idx_coords(w, h, x2, y2);
    assert(g.nb(c, m)->Some_0 as int == y * w + x);
}

/// The neighbour with the latest position among the first `k + 1`.
spec fn latest_upto(p: Seq<int>, k: int) -> int
    decreases k,
{
    if k <= 0 {
        0
    } else if p[k] > p[latest_upto(p, k - 1)] {
        k
    } else {
        latest_upto(p, k - 1)
    }
}

proof fn lemma_latest_upto(p: Seq<int>, k: int)
    requires
        0 <= k < p.len(),
    ensures
        0 <= latest_upto(p, k) <= k,
        forall|j: int| 0 <= j <= k ==> #[trigger] p[j] <= p[latest_upto(p, k)],
    decreases k,
{
    if k > 0 {
        lemma_latest_upto(p, k - 1);
    }
}

/// Walls laid as a tree never close a loop, so no cell, wall or empty, is
/// ringed by eight walls (which would also be a clue of 8).
/// The cell of neighbour `k` of `c`.
spec fn ring_cell(g: &Grid, c: int, k: int) -> int {
    g.nb(c, k)->Some_0 as int
}

pub proof fn law_tree_leaves_no_ring(g: &Grid, order: Seq<usize>, c: int)
    requires
        g.wf(),
        laid_as_tree(g, order),
        0 <= c < g.size(),
    ensures
        !ring_of_walls(g, blacks_of(g.size() as nat, order), c),
{
    let s = blacks_of(g.size() as nat, order);
    if ring_of_walls(g, s, c) {
        reveal(laid_as_tree);
        assert forall|k: int| 0 <= k < 8 implies listed(order, #[trigger] ring_cell(g, c, k)) && 0 <= ring_cell(g, c, k) < g.size() by {
            assert(g.nb(c, k) matches Some(j) && s[j as int] == BLACK);
            lemma_nb_in_range(g, c, k);
        }
        let pos = Seq::new(8, |k: int| choose|u: int| 0 <= u < order.len() && order[u] == ring_cell(g, c, k));
        assert forall|k: int| 0 <= k < 8 implies 0 <= #[trigger] pos[k] < order.len() && order[pos[k]] == ring_cell(g, c, k) by {
            assert(listed(order, ring_cell(g, c, k)));
        }
        lemma_latest_upto(pos, 7);
        let m = latest_upto(pos, 7);
        let prev = if m == 0 { 7int } else { m - 1 };
        let next = if m == 7 { 0int } else { m + 1 };
        // different neighbours are different cells, so they sit at different positions
        let w = g.w as int;
        lemma_cell_coords(w, g.h as int, c);
        assert forall|a: int, b: int| 0 <= a < 8 && 0 <= b < 8 && a != b implies #[trigger] ring_cell(g, c, a) != #[trigger] ring_cell(g, c, b) by {
            assert(g.nb(c, a) is Some && g.nb(c, b) is Some);
            lemma_idx_coords(w, g.h as int, col(w, c) + neighbor_delta(a).0, row(w, c) + neighbor_delta(a).1);
            lemma_idx_coords(w, g.h as int, col(w, c) + neighbor_delta(b).0, row(w, c) + neighbor_delta(b).1);
        }
        assert(pos[prev] <= pos[m] && pos[next] <= pos[m]);
        assert(pos[prev] != pos[m] && pos[next] != pos[m]);
        let k = pos[m];
        let before = blacks_of(g.size() as nat, order.take(k));
        assert(order.take(k)[pos[prev]] == ring_cell(g, c, prev));
        assert(order.take(k)[pos[next]] == ring_cell(g, c, next));
        assert(listed(order.take(k), ring_cell(g, c, prev)));
        assert(listed(order.take(k), ring_cell(g, c, next)));
        assert(before[ring_cell(g, c, prev)] == BLACK && before[ring_cell(g, c, next)] == BLACK);
        let x = ring_cell(g, c, m);
        let (dp, dn) = if m == 0 {
            (2int, 1int)
        } else if m == 1 {
            (3int, 1int)
        } else if m == 2 {
            (3int, 2int)
        } else if m == 3 {
            (0int, 2int)
        } else if m == 4 {
            (0int, 3int)
        } else if m == 5 {
            (1int, 3int)
        } else if m == 6 {
            (1int, 0int)
        } else {
            (2int, 0int)
        };
        lemma_ring_step(g, c, m, prev, dp);
        lemma_ring_step(g, c, m, next, dn);
        lemma_two_ortho_blacks(g, before, x, dp, dn);
        assert(ortho_blacks(g, before, order[k] as int, 4) == 1);
    }
}

/// A board of walls and empty cells whose walls are exactly those listed.
proof fn lemma_blacks_of_cells(cells: Seq<u8>, order: Seq<usize>)
    requires
        forall|i: int| 0 <= i < cells.len() ==> #[trigger] cells[i] == BLACK || cells[i] == WHITE,
        forall|j: int| 0 <= j < order.len() ==> #[trigger] order[j] < cells.len() && cells[order[j] as int] == BLACK,
        forall|i: int| 0 <= i < cells.len() && #[trigger] cells[i] == BLACK ==> listed(order, i),
    ensures
        cells == blacks_of(cells.len(), order),
{
    assert forall|i: int| 0 <= i < cells.len() implies cells[i] == #[trigger] blacks_of(cells.len(), order)[i] by {
        if listed(order, i) {
            let u = choose|u: int| 0 <= u < order.len() && order[u] == i;
            assert(cells[order[u] as int] == BLACK);
        }
    }
    assert(cells =~= blacks_of(cells.len(), order));
}

/// Side neighbour `k` of cell `b` is an empty cell with a single wall beside
/// it, so the walls can grow there.
pub open spec fn can_grow(g: &Grid, cells: Seq<u8>, b: int, k: int) -> bool {
    g.on(b, k) matches Some(x) && cells[x as int] == WHITE && ortho_blacks(g, cells, x as int, 4) == 1
}

/// A tree of walls shorter than the board is tall can always grow: past its
/// lowest wall when that is above the bottom row, else past its highest one.
#[verifier::spinoff_prover]
proof fn lemma_room_to_grow(g: &Grid, cells: Seq<u8>, blacks: Seq<usize>) -> (r: (int, int))
    requires
        g.wf(),
        cells.len() == g.size(),
        forall|i: int| 0 <= i < g.size() ==> #[trigger] cells[i] == BLACK || cells[i] == WHITE,
        walls_joined(g, cells),
        forall|i: int| 0 <= i < g.size() && #[trigger] cells[i] == BLACK ==> listed(blacks, i),
        forall|j: int| 0 <= j < blacks.len() ==> #[trigger] blacks[j] < g.size() && cells[blacks[j] as int] == BLACK,
        1 <= blacks.len() < g.h,
    ensures
        0 <= r.0 < blacks.len(),
        0 <= r.1 < 4,
        can_grow(g, cells, blacks[r.0] as int, r.1),
{
    let w = g.w as int;
    let h = g.h as int;
    let lo = lemma_lowest(w, blacks, blacks.len() as int);
    let hi = lemma_highest(w, blacks, blacks.len() as int);
    let bl = blacks[lo] as int;
    let bh = blacks[hi] as int;
    lemma_walls_between(g, cells, blacks, lo, hi);
    assert(cells[bl] == BLACK && cells[bh] == BLACK);
    assert(0 <= bl < g.size() && 0 <= bh < g.size());
    lemma_cell_coords(w, h, bl);
    lemma_cell_coords(w, h, bh);
    if row(w, bl) < h - 1 {
        lemma_grow_below(g, cells, bl);
        (lo, 2)
    } else if row(w, bh) > 0 {
        lemma_grow_above(g, cells, bh);
        (hi, 0)
    } else {
        lemma_tall_tree(g, cells, blacks, bh, bl);
        (0, 0)
    }
}

/// Every wall lies between the rows of walls `blacks[hi]` and `blacks[lo]`
/// when those are the highest and the lowest listed ones.
proof fn lemma_walls_between(g: &Grid, cells: Seq<u8>, blacks: Seq<usize>, lo: int, hi: int)
    requires
        forall|i: int| 0 <= i < g.size() && #[trigger] cells[i] == BLACK ==> listed(blacks, i),
        0 <= lo < blacks.len(),
        0 <= hi < blacks.len(),
        forall|v: int| 0 <= v < blacks.len() ==> row(g.w as int, #[trigger] blacks[v] as int) <= row(g.w as int, blacks[lo] as int),
        forall|v: int| 0 <= v < blacks.len() ==> row(g.w as int, #[trigger] blacks[v] as int) >= row(g.w as int, blacks[hi] as int),
    ensures
        forall|i: int|
            0 <= i < g.size() && #[trigger] cells[i] == BLACK ==> row(g.w as int, blacks[hi] as int) <= row(
                g.w as int,
                i,
            ) <= row(g.w as int, blacks[lo] as int),
{
    let w = g.w as int;
    assert forall|i: int| 0 <= i < g.size() && #[trigger] cells[i] == BLACK implies row(w, blacks[hi] as int) <= row(w, i)
        <= row(w, blacks[lo] as int) by {
        let u = choose|u: int| 0 <= u < blacks.len() && blacks[u] == i;
        assert(row(w, blacks[u] as int) <= row(w, blacks[lo] as int));
        assert(row(w, blacks[u] as int) >= row(w, blacks[hi] as int));
    }
}

/// Below the lowest wall, when that is not on the bottom row, the walls can
/// grow.
proof fn lemma_grow_below(g: &Grid, cells: Seq<u8>, b: int)
    requires
        g.wf(),
        cells.len() == g.size(),
        0 <= b < g.size(),
        cells[b] == BLACK,
        row(g.w as int, b) < g.h - 1,
        forall|i: int| 0 <= i < g.size() && #[trigger] cells[i] == BLACK ==> row(g.w as int, i) <= row(g.w as int, b),
        forall|i: int| 0 <= i < g.size() ==> #[trigger] cells[i] == BLACK || cells[i] == WHITE,
    ensures
        can_grow(g, cells, b, 2),
{
    let w = g.w as int;
    let h = g.h as int;
    lemma_cell_coords(w, h, b);
    lemma_on_coords(g, b, 2);
    let x = g.on(b, 2)->Some_0 as int;
    assert(row(w, x) == row(w, b) + 1);
    assert(cells[x] != BLACK);
    lemma_on_coords(g, x, 0);
    let y = g.on(x, 0)->Some_0 as int;
    lemma_cell_coords(w, h, x);
    lemma_cell_coords(w, h, y);
    assert(y == b);
    lemma_lone_wall(g, cells, x, 0, b, row(w, b));
}

/// Above the highest wall, when that is not on the top row, the walls can
/// grow.
proof fn lemma_grow_above(g: &Grid, cells: Seq<u8>, b: int)
    requires
        g.wf(),
        cells.len() == g.size(),
        0 <= b < g.size(),
        cells[b] == BLACK,
        row(g.w as int, b) > 0,
        forall|i: int| 0 <= i < g.size() && #[trigger] cells[i] == BLACK ==> row(g.w as int, i) >= row(g.w as int, b),
        forall|i: int| 0 <= i < g.size() ==> #[trigger] cells[i] == BLACK || cells[i] == WHITE,
    ensures
        can_grow(g, cells, b, 0),
{
    let w = g.w as int;
    let h = g.h as int;
    lemma_cell_coords(w, h, b);
    lemma_on_coords(g, b, 0);
    let x = g.on(b, 0)->Some_0 as int;
    assert(row(w, x) == row(w, b) - 1);
    assert(cells[x] != BLACK);
    lemma_on_coords(g, x, 2);
    let y = g.on(x, 2)->Some_0 as int;
    lemma_cell_coords(w, h, x);
    lemma_cell_coords(w, h, y);
    assert(y == b);
    lemma_lone_wall_above(g, cells, x, b, row(w, b));
}

/// A cell in the row below every wall, right under wall `b`, has that wall
/// as its only wall beside it.
proof fn lemma_lone_wall(g: &Grid, cells: Seq<u8>, x: int, k: int, b: int, rmax: int)
    requires
        g.wf(),
        cells.len() == g.size(),
        0 <= x < g.size(),
        k == 0,
        0 <= b < g.size(),
        g.on(x, 0) == Some(b as usize),
        cells[b] == BLACK,
        row(g.w as int, x) == rmax + 1,
        forall|i: int| 0 <= i < g.size() && #[trigger] cells[i] == BLACK ==> row(g.w as int, i) <= rmax,
    ensures
        ortho_blacks(g, cells, x, 4) == 1,
{
    lemma_on_coords(g, x, 1);
    lemma_on_coords(g, x, 2);
    lemma_on_coords(g, x, 3);
    assert(ortho_blacks(g, cells, x, 0) == 0);
    assert(ortho_blacks(g, cells, x, 1) == 1);
    assert(ortho_blacks(g, cells, x, 2) == 1);
    assert(ortho_blacks(g, cells, x, 3) == 1);
}

/// A cell in the row above every wall, right over wall `b`, has that wall
/// as its only wall beside it.
proof fn lemma_lone_wall_above(g: &Grid, cells: Seq<u8>, x: int, b: int, rmin: int)
    requires
        g.wf(),
        cells.len() == g.size(),
        0 <= x < g.size(),
        0 <= b < g.size(),
        g.on(x, 2) == Some(b as usize),
        cells[b] == BLACK,
        row(g.w as int, x) == rmin - 1,
        forall|i: int| 0 <= i < g.size() && #[trigger] cells[i] == BLACK ==> row(g.w as int, i) >= rmin,
    ensures
        ortho_blacks(g, cells, x, 4) == 1,
{
    lemma_on_coords(g, x, 0);
    lemma_on_coords(g, x, 1);
    lemma_on_coords(g, x, 3);
    assert(ortho_blacks(g, cells, x, 0) == 0);
    assert(ortho_blacks(g, cells, x, 1) == 0);
    assert(ortho_blacks(g, cells, x, 2) == 0);
    assert(ortho_blacks(g, cells, x, 3) == 1);
}

/// The walls of a tree shape listed in `blacks`, fewer than the board is
/// tall, can grow somewhere.
proof fn lemma_can_grow_now(g: &Grid, cells: Seq<u8>, blacks: Seq<usize>) -> (r: (int, int))
    requires
        g.wf(),
        cells.len() == g.size(),
        forall|i: int| 0 <= i < g.size() ==> #[trigger] cells[i] == BLACK || cells[i] == WHITE,
        tree_shape(g, cells),
        forall|i: int| 0 <= i < g.size() && #[trigger] cells[i] == BLACK ==> listed(blacks, i),
        forall|j: int| 0 <= j < blacks.len() ==> #[trigger] blacks[j] < g.size() && cells[blacks[j] as int] == BLACK,
        1 <= blacks.len() < g.h,
    ensures
        0 <= r.0 < blacks.len(),
        0 <= r.1 < 4,
        can_grow(g, cells, blacks[r.0] as int, r.1),
{
    assert(walls_joined(g, cells)) by {
        reveal(walls_joined);
    }
    lemma_room_to_grow(g, cells, blacks)
}

/// The Chebyshev distance between two cells is less than the number of
/// cells.
proof fn lemma_chebyshev_small(g: &Grid, a: int, b: int)
    requires
        g.wf(),
        0 <= a < g.size(),
        0 <= b < g.size(),
    ensures
        crate::grid::chebyshev_distance(g, a, b) < g.size(),
{
    let w = g.w as int;
    let h = g.h as int;
    lemma_cell_coords(w, h, a);
    lemma_cell_coords(w, h, b);
    assert(w <= w * h && h <= w * h) by (nonlinear_arith)
        requires
            0 <= a < w * h,
            w >= 0,
            h >= 0,
    ;
}

/// Grow a random solution whose black cells form a **tree**.
///
/// Each new black cell must touch the existing region on exactly one side, so
/// the black cells are an acyclic connected set (a tree in the grid graph).
/// That single rule buys every structural constraint Tapa needs for free:
/// a 2x2 block, a black cell surrounded by black cells and a white cell ringed
/// by black cells (a clue of 8) all contain a cycle, so none of them can occur.
///
/// The growth is aimed at whatever white area is currently furthest from the
/// tree, so the tree reaches into every corner instead of leaving one big
/// empty patch behind.
fn random_solution(rng: &mut Rng, grid: &Grid, target: usize) -> (r: Option<Vec<u8>>)
    requires
        grid.wf(),
        0 < grid.size() < usize::MAX,
    ensures
        r matches Some(cells) ==> {
            &&& cells@.len() == grid.size()
            &&& forall|i: int| 0 <= i < cells@.len() ==> #[trigger] cells@[i] == BLACK || cells@[i] == WHITE
            &&& tree_shape(grid, cells@)
            &&& count_value(cells@, BLACK) >= 6
            &&& exists|order: Seq<usize>| cells@ == blacks_of(grid.size() as nat, order) && #[trigger] laid_as_tree(grid, order)
            &&& forall|c: int| 0 <= c < grid.size() ==> !#[trigger] ring_of_walls(grid, cells@, c)
            &&& 4 * count_value(cells@, BLACK) >= 3 * target
            &&& count_value(cells@, BLACK) <= if target >= 1 {
                target as int
            } else {
                1
            }
        },
        6 <= target <= grid.h ==> r is Some,
{
    let n = grid.len();
    let mut cells: Vec<u8> = vec![WHITE; n];
    let mut blacks: Vec<usize> = Vec::new();
    let mut distance: Vec<usize> = vec![usize::MAX; n];
    let mut queue: Vec<usize> = Vec::new();

    let start = rng.below(n);
    proof {
        lemma_count_all(cells@, WHITE);
        lemma_count_value_update(cells@, start as int, WHITE, BLACK);
    }
    cells.set(start, BLACK);
    blacks.push(start);
    proof {
        reveal(laid_as_tree);
        assert(laid_as_tree(grid, blacks@));
    }
    proof {
        let c = cells@;
        assert forall|t: int| !#[trigger] black_block(grid, c, t) by {
            if black_block(grid, c, t) {
                crate::propagation::lemma_block_in_range(grid, t);
                assert(c[t] == BLACK && c[t + 1] == BLACK);
            }
        }
        assert forall|a: int, b: int|
            0 <= a < c.len() && 0 <= b < c.len() && #[trigger] c[a] == BLACK && #[trigger] c[b] == BLACK
                implies connected(grid, walls(c), a, b) by {
            lemma_connected_refl(grid, walls(c), a);
        }
        assert forall|i: int| 0 <= i < n && #[trigger] c[i] == BLACK implies listed(blacks@, i) by {
            assert(i == start);
            assert(blacks@[0] == start);
        }
    }
    while blacks.len() < target
        invariant
            grid.wf(),
            n == grid.size(),
            0 < n < usize::MAX,
            cells@.len() == n,
            distance@.len() == n,
            forall|i: int| 0 <= i < n ==> #[trigger] cells@[i] == BLACK || cells@[i] == WHITE,
            forall|j: int| 0 <= j < blacks@.len() ==> #[trigger] blacks@[j] < n && cells@[blacks@[j] as int] == BLACK,
            forall|a: int, b: int| 0 <= a < b < blacks@.len() ==> blacks@[a] != blacks@[b],
            tree_shape(grid, cells@),
            blacks@.len() + count_value(cells@, WHITE) == n,
            blacks@.len() <= if target >= 1 {
                target as int
            } else {
                1
            },
            blacks@.len() >= 1,
            forall|i: int| 0 <= i < n && #[trigger] cells@[i] == BLACK ==> listed(blacks@, i),
            laid_as_tree(grid, blacks@),
        ensures
            cells@.len() == n,
            laid_as_tree(grid, blacks@),
            forall|j: int| 0 <= j < blacks@.len() ==> #[trigger] blacks@[j] < n && cells@[blacks@[j] as int] == BLACK,
            forall|i: int| 0 <= i < n && #[trigger] cells@[i] == BLACK ==> listed(blacks@, i),
            forall|i: int| 0 <= i < n ==> #[trigger] cells@[i] == BLACK || cells@[i] == WHITE,
            tree_shape(grid, cells@),
            blacks@.len() + count_value(cells@, WHITE) == n,
            blacks@.len() <= if target >= 1 {
                target as int
            } else {
                1
            },
            6 <= target <= grid.h ==> blacks@.len() >= target,
        decreases count_value(cells@, WHITE),
    {
        distances(grid, &blacks, &mut distance, &mut queue);

        // the white cell that is furthest away decides where to grow next
        let mut goal: Option<usize> = None;
        let mut best_distance: usize = 0;
        let mut i: usize = 0;
        while i < n
            invariant
                n == cells@.len(),
                n == distance@.len(),
                i <= n,
                goal matches Some(gl) ==> gl < n,
                goal is None ==> best_distance == 0 && forall|i2: int|
                    0 <= i2 < i ==> !(#[trigger] cells@[i2] == WHITE && distance@[i2] != usize::MAX && distance@[i2] > 0),
            decreases n - i,
        {
            if cells[i] == WHITE && distance[i] != usize::MAX && distance[i] > best_distance {
                best_distance = distance[i];
                goal = Some(i);
            }
            i = i + 1;
        }
        let goal = match goal {
            Some(gl) => gl,
            None => {
                proof {
                    if 6 <= target && target <= grid.h {
                        let (u, k) = lemma_can_grow_now(grid, cells@, blacks@);
                        let b = blacks@[u] as int;
                        let x = grid.on(b, k)->Some_0 as int;
                        lemma_on_adjacent(grid, b, k);
                        assert(listed(blacks@, b));
                        assert(distance@[b] == 0);
                        assert(distance@[x] != usize::MAX);
                        if listed(blacks@, x) {
                            let v = choose|v: int| 0 <= v < blacks@.len() && blacks@[v] == x;
                            assert(cells@[blacks@[v] as int] == BLACK);
                        }
                        assert(cells@[x] == WHITE && distance@[x] > 0);
                    }
                }
                break;
            },
        };

        // among the legal tree extensions, take the one closest to that goal
        let mut choice: Option<usize> = None;
        let mut best_gap: usize = usize::MAX;
        let mut bi: usize = 0;
        while bi < blacks.len()
            invariant
                grid.wf(),
                n == grid.size(),
                cells@.len() == n,
                goal < n,
                forall|j: int| 0 <= j < blacks@.len() ==> #[trigger] blacks@[j] < n,
                bi <= blacks@.len(),
                choice matches Some(c) ==> c < n && cells@[c as int] == WHITE && ortho_blacks(
                    grid,
                    cells@,
                    c as int,
                    4,
                ) == 1,
                choice is None ==> best_gap == usize::MAX,
                choice is None ==> forall|bj: int, kk: int|
                    0 <= bj < bi && 0 <= kk < 4 ==> !#[trigger] can_grow(grid, cells@, blacks@[bj] as int, kk),
            decreases blacks@.len() - bi,
        {
            let b = blacks[bi];
            let ortho = grid.ortho(b);
            let mut k: usize = 0;
            while k < 4
                invariant
                    grid.wf(),
                    n == grid.size(),
                    cells@.len() == n,
                    goal < n,
                    b < n,
                    forall|j: int| 0 <= j < 4 ==> #[trigger] ortho@[j] == grid.on(b as int, j),
                    k <= 4,
                    choice matches Some(c) ==> c < n && cells@[c as int] == WHITE && ortho_blacks(
                        grid,
                        cells@,
                        c as int,
                        4,
                    ) == 1,
                    b == blacks@[bi as int],
                    bi < blacks@.len(),
                    choice is None ==> best_gap == usize::MAX,
                    choice is None ==> forall|bj: int, kk: int|
                        0 <= bj < bi && 0 <= kk < 4 ==> !#[trigger] can_grow(grid, cells@, blacks@[bj] as int, kk),
                    choice is None ==> forall|kk: int| 0 <= kk < k ==> !#[trigger] can_grow(grid, cells@, b as int, kk),
                decreases 4 - k,
            {
                if let Some(nb) = ortho[k] {
                    proof {
                        crate::model::lemma_nb_in_range(grid, b as int, k as int);
                    }
                    if cells[nb] == WHITE && black_neighbors(&cells, grid, nb) == 1 {
                        let gap = chebyshev(grid, nb, goal);
                        proof {
                            lemma_chebyshev_small(grid, nb as int, goal as int);
                        }
                        let better = if gap < best_gap {
                            true
                        } else if gap == best_gap {
                            rng.below(3) == 0
                        } else {
                            false
                        };
                        if better {
                            best_gap = gap;
                            choice = Some(nb);
                        }
                    }
                }
                k = k + 1;
            }
            bi = bi + 1;
        }
        let cell = match choice {
            Some(c) => c,
            None => {
                proof {
                    if 6 <= target && target <= grid.h {
                        let (u, k) = lemma_can_grow_now(grid, cells@, blacks@);
                        assert(can_grow(grid, cells@, blacks@[u] as int, k));
                    }
                }
                break;
            },
        };
        proof {
            lemma_grow_tree(grid, cells@, cell as int);
            lemma_count_value_update(cells@, cell as int, WHITE, BLACK);
        }
        let ghost before = blacks@;
        let ghost cells_before = cells@;
        proof {
            lemma_blacks_of_cells(cells@, blacks@);
            if listed(blacks@, cell as int) {
                let u = choose|u: int| 0 <= u < blacks@.len() && blacks@[u] == cell;
                assert(cells@[blacks@[u] as int] == BLACK);
            }
            lemma_laid_as_tree_push(grid, blacks@, cell);
        }
        cells.set(cell, BLACK);
        blacks.push(cell);
        proof {
            assert forall|i: int| 0 <= i < n && #[trigger] cells@[i] == BLACK implies listed(blacks@, i) by {
                if i == cell {
                    assert(blacks@[before.len() as int] == i);
                } else {
                    assert(cells_before[i] == BLACK);
                    assert(listed(before, i));
                    let v = choose|v: int| 0 <= v < before.len() && before[v] == i;
                    assert(blacks@[v] == i);
                }
            }
            assert forall|a: int, b: int| 0 <= a < b < blacks@.len() implies blacks@[a] != blacks@[b] by {
                if b == before.len() {
                    assert(cells@[before[a] as int] == BLACK) by {
                        assert(blacks@[a] == before[a]);
                    }
                }
            }
        }
    }
    if (blacks.len() as u128) * 4 < (target as u128) * 3 || blacks.len() < 6 {
        return None;
    }
    proof {
        lemma_count_black_white(cells@);
        lemma_blacks_of_cells(cells@, blacks@);
        assert(cells@ == blacks_of(grid.size() as nat, blacks@) && laid_as_tree(grid, blacks@));
        assert forall|c: int| 0 <= c < grid.size() implies !#[trigger] ring_of_walls(grid, cells@, c) by {
            law_tree_leaves_no_ring(grid, blacks@, c);
        }
    }
    Some(cells)
}

/// The cells and numbers of the candidates whose flag is set, in order.
pub open spec fn kept(c: Seq<(usize, Clue)>, keep: Seq<bool>, k: int) -> Seq<(usize, Seq<u8>)>
    decreases k,
{
    if k <= 0 {
        Seq::empty()
    } else if keep[k - 1] {
        kept(c, keep, k - 1).push((c[k - 1].0, c[k - 1].1@))
    } else {
        kept(c, keep, k - 1)
    }
}

/// `e` is the cell and numbers of one of the first `k` candidates.
pub open spec fn among(c: Seq<(usize, Clue)>, k: int, e: (usize, Seq<u8>)) -> bool {
    exists|u: int| 0 <= u < k && c[u].0 == e.0 && #[trigger] c[u].1@ == e.1
}

/// Every kept entry is one of the first `k` candidates.
proof fn lemma_kept_member(c: Seq<(usize, Clue)>, keep: Seq<bool>, k: int)
    requires
        0 <= k <= c.len(),
    ensures
        forall|t: int| 0 <= t < kept(c, keep, k).len() ==> among(c, k, #[trigger] kept(c, keep, k)[t]),
    decreases k,
{
    if k > 0 {
        lemma_kept_member(c, keep, k - 1);
        let prev = kept(c, keep, k - 1);
        let cur = kept(c, keep, k);
        assert forall|t: int| 0 <= t < cur.len() implies among(c, k, #[trigger] cur[t]) by {
            if t < prev.len() {
                assert(cur[t] == prev[t]);
                assert(among(c, k - 1, prev[t]));
                let u = choose|u: int| 0 <= u < k - 1 && c[u].0 == prev[t].0 && #[trigger] c[u].1@ == prev[t].1;
                assert(c[u].0 == cur[t].0 && c[u].1@ == cur[t].1);
            } else {
                assert(keep[k - 1]);
                assert(cur[t] == (c[k - 1].0, c[k - 1].1@));
                assert(c[k - 1].1@ == cur[t].1);
            }
        }
    }
}

/// Flags that agree on the first `k` candidates keep the same entries.
proof fn lemma_kept_same(c: Seq<(usize, Clue)>, a: Seq<bool>, b: Seq<bool>, k: int)
    requires
        0 <= k,
        forall|j: int| 0 <= j < k ==> a[j] == b[j],
    ensures
        kept(c, a, k) == kept(c, b, k),
    decreases k,
{
    if k > 0 {
        lemma_kept_same(c, a, b, k - 1);
    }
}

/// The candidates whose flag is set, in order.
fn select_clues(candidates: &[(usize, Clue)], keep: &Vec<bool>) -> (clues: Vec<(usize, Clue)>)
    requires
        keep@.len() == candidates@.len(),
    ensures
        crate::solver::clue_views(clues@) == kept(candidates@, keep@, candidates@.len() as int),
{
    let mut clues: Vec<(usize, Clue)> = Vec::new();
    let mut k: usize = 0;
    while k < candidates.len()
        invariant
            keep@.len() == candidates@.len(),
            k <= candidates@.len(),
            crate::solver::clue_views(clues@) == kept(candidates@, keep@, k as int),
        decreases candidates@.len() - k,
    {
        if keep[k] {
            let clue = candidates[k].1.clone();
            proof {
                assert(clue@ =~= candidates@[k as int].1@);
            }
            let ghost before = clues@;
            clues.push((candidates[k].0, clue));
            proof {
                assert(crate::solver::clue_views(clues@) =~= crate::solver::clue_views(before).push(
                    (candidates@[k as int].0, candidates@[k as int].1@),
                ));
            }
        }
        k = k + 1;
    }
    clues
}

/// The clues to keep and the statistics of the minimisation.
fn finish(
    candidates: &[(usize, Clue)],
    keep: Vec<bool>,
    nodes: u64,
    solve_time: Duration,
    checks: usize,
    max_check_nodes: u64,
) -> (r: (Vec<(usize, Clue)>, usize, u64, Duration, usize, u64))
    requires
        keep@.len() == candidates@.len(),
    ensures
        crate::solver::clue_views(r.0@) == kept(candidates@, keep@, candidates@.len() as int),
        r.1 + r.0@.len() == candidates@.len(),
        r.2 == nodes,
        r.4 == checks,
        r.5 == max_check_nodes,
{
    let clues = select_clues(candidates, &keep);
    proof {
        lemma_kept_len(candidates@, keep@, candidates@.len() as int);
        assert(crate::solver::clue_views(clues@).len() == clues@.len());
    }
    // every candidate that was not kept was removed
    let removals = candidates.len() - clues.len();
    (clues, removals, nodes, solve_time, checks, max_check_nodes)
}

/// No more entries are kept than there are flags.
proof fn lemma_kept_len(c: Seq<(usize, Clue)>, keep: Seq<bool>, k: int)
    requires
        0 <= k,
    ensures
        kept(c, keep, k).len() <= k,
    decreases k,
{
    if k > 0 {
        lemma_kept_len(c, keep, k - 1);
    }
}

/// Every clue of `c` appears, by cell and numbers, in `views`.
pub open spec fn within(c: Seq<(usize, Clue)>, views: Seq<(usize, Seq<u8>)>) -> bool {
    forall|t: int| 0 <= t < c.len() ==> views.contains(((#[trigger] c[t]).0, c[t].1@))
}

/// More flags keep every entry that fewer flags keep.
proof fn lemma_kept_sub(c: Seq<(usize, Clue)>, a: Seq<bool>, b: Seq<bool>, k: int)
    requires
        0 <= k <= c.len(),
        forall|j: int| 0 <= j < k && #[trigger] a[j] ==> b[j],
    ensures
        forall|t: int| 0 <= t < kept(c, a, k).len() ==> kept(c, b, k).contains(#[trigger] kept(c, a, k)[t]),
    decreases k,
{
    if k > 0 {
        lemma_kept_sub(c, a, b, k - 1);
        let pa = kept(c, a, k - 1);
        let pb = kept(c, b, k - 1);
        let ka = kept(c, a, k);
        let kb = kept(c, b, k);
        assert forall|t: int| 0 <= t < ka.len() implies kb.contains(#[trigger] ka[t]) by {
            if t < pa.len() {
                assert(ka[t] == pa[t]);
                assert(pb.contains(pa[t]));
                let t2 = choose|t2: int| 0 <= t2 < pb.len() && pb[t2] == pa[t];
                if b[k - 1] {
                    assert(kb[t2] == pb[t2]);
                } else {
                    assert(kb == pb);
                }
            } else {
                assert(a[k - 1]);
                assert(b[k - 1]);
                assert(kb[pb.len() as int] == ka[t]);
            }
        }
    }
}

/// With every flag set, every candidate is kept.
proof fn lemma_kept_all(c: Seq<(usize, Clue)>, keep: Seq<bool>, k: int)
    requires
        0 <= k <= c.len(),
        forall|j: int| 0 <= j < k ==> #[trigger] keep[j],
    ensures
        kept(c, keep, k) == clue_views(c).take(k),
    decreases k,
{
    if k > 0 {
        lemma_kept_all(c, keep, k - 1);
        assert(clue_views(c).take(k) =~= clue_views(c).take(k - 1).push((c[k - 1].0, c[k - 1].1@)));
    }
}

/// Solutions of a clue set satisfy every subset of it: so a set within
/// another with at most one solution has at most one solution too.
proof fn lemma_at_most_one_within(g: &Grid, small: Seq<(usize, Clue)>, big: Seq<(usize, Clue)>)
    requires
        at_most_one(g, small),
        within(small, clue_views(big)),
    ensures
        at_most_one(g, big),
{
    assert forall|s1: Seq<u8>, s2: Seq<u8>|
        #[trigger] is_solution(g, s1, big) && #[trigger] is_solution(g, s2, big) implies s1 == s2 by {
        crate::solver::lemma_solution_subset(g, s1, big, small);
        crate::solver::lemma_solution_subset(g, s2, big, small);
    }
}

/// Two different boards meet the rules with these clues.
pub open spec fn ambiguous(g: &Grid, clues: Seq<(usize, Clue)>) -> bool {
    exists|s1: Seq<u8>, s2: Seq<u8>|
        s1 != s2 && #[trigger] is_solution(g, s1, clues) && #[trigger] is_solution(g, s2, clues)
}

/// Some ambiguous clue set holds every clue of `views`, so `views` leaves
/// the puzzle ambiguous too.
pub open spec fn loose(g: &Grid, views: Seq<(usize, Seq<u8>)>) -> bool {
    exists|c: Seq<(usize, Clue)>|
        #[trigger] ambiguous(g, c) && forall|t: int| 0 <= t < views.len() ==> clue_views(c).contains(
            #[trigger] views[t],
        )
}

/// Fewer clues leave an ambiguous puzzle ambiguous.
proof fn lemma_loose_sub(g: &Grid, big: Seq<(usize, Seq<u8>)>, small: Seq<(usize, Seq<u8>)>)
    requires
        loose(g, big),
        forall|t: int| 0 <= t < small.len() ==> big.contains(#[trigger] small[t]),
    ensures
        loose(g, small),
{
    let c = choose|c: Seq<(usize, Clue)>|
        #[trigger] ambiguous(g, c) && forall|t: int| 0 <= t < big.len() ==> clue_views(c).contains(
            #[trigger] big[t],
        );
    assert forall|t: int| 0 <= t < small.len() implies clue_views(c).contains(#[trigger] small[t]) by {
        let u = choose|u: int| 0 <= u < big.len() && big[u] == small[t];
        assert(clue_views(c).contains(big[u]));
    }
}

/// A clue list whose clues leave the puzzle ambiguous is ambiguous.
proof fn lemma_loose_ambiguous(g: &Grid, d: Seq<(usize, Clue)>)
    requires
        loose(g, clue_views(d)),
    ensures
        ambiguous(g, d),
{
    let views = clue_views(d);
    let c = choose|c: Seq<(usize, Clue)>|
        #[trigger] ambiguous(g, c) && forall|t: int| 0 <= t < views.len() ==> clue_views(c).contains(
            #[trigger] views[t],
        );
    let (s1, s2) = choose|s1: Seq<u8>, s2: Seq<u8>|
        s1 != s2 && #[trigger] is_solution(g, s1, c) && #[trigger] is_solution(g, s2, c);
    assert forall|t: int| 0 <= t < d.len() implies clue_views(c).contains(
        ((#[trigger] d[t]).0, d[t].1@),
    ) by {
        assert(views[t] == (d[t].0, d[t].1@));
    }
    crate::solver::lemma_solution_subset(g, s1, c, d);
    crate::solver::lemma_solution_subset(g, s2, c, d);
}

/// Dropping kept entry `t` is clearing the flag of one candidate, `i`.
proof fn lemma_kept_remove(c: Seq<(usize, Clue)>, keep: Seq<bool>, k: int, t: int) -> (i: int)
    requires
        0 <= k <= c.len(),
        k <= keep.len(),
        0 <= t < kept(c, keep, k).len(),
    ensures
        0 <= i < k,
        keep[i],
        kept(c, keep, k).remove(t) == kept(c, keep.update(i, false), k),
    decreases k,
{
    let prev = kept(c, keep, k - 1);
    let cur = kept(c, keep, k);
    if keep[k - 1] && t == prev.len() {
        lemma_kept_same(c, keep, keep.update(k - 1, false), k - 1);
        assert(cur.remove(t) =~= prev);
        k - 1
    } else {
        let i = lemma_kept_remove(c, keep, k - 1, t);
        assert(keep.update(i, false)[k - 1] == keep[k - 1]);
        if keep[k - 1] {
            assert(cur.remove(t) =~= prev.remove(t).push((c[k - 1].0, c[k - 1].1@)));
        } else {
            assert(cur.remove(t) =~= prev.remove(t));
        }
        i
    }
}

/// The board that the candidates were read off meets every candidate.
proof fn lemma_candidates_met(g: &Grid, cells: Seq<u8>, candidates: Seq<(usize, Clue)>)
    requires
        g.wf(),
        cells.len() == g.size(),
        forall|i: int| 0 <= i < cells.len() ==> #[trigger] cells[i] == BLACK || cells[i] == WHITE,
        tree_shape(g, cells),
        forall|t: int| 0 <= t < candidates.len() ==> candidate_of(g, cells, #[trigger] candidates[t]),
    ensures
        is_solution(g, cells, candidates),
{
    assert forall|t: int| 0 <= t < candidates.len() implies cells[(#[trigger] candidates[t]).0 as int]
        == WHITE && crate::model::feasible(
        g,
        candidates[t].0 as int,
        candidates[t].1@,
        cell_mask(g, cells, candidates[t].0 as int),
    ) by {
        let c = candidates[t];
        assert(candidate_of(g, cells, c));
        let m = cell_mask(g, cells, c.0 as int);
        crate::model::law_runs_meet_their_clue(m);
        crate::model::lemma_cell_mask_bits(g, cells, c.0 as int);
        assert forall|k: int| 0 <= k < 8 implies g.nb(c.0 as int, k) is Some || !#[trigger] crate::model::bit(
            m,
            k as u8,
        ) by {
            assert(crate::model::bit(m, k as u8) == crate::model::black_nb(g, cells, c.0 as int, k));
        }
    }
    assert(crate::model::is_filled(cells));
}

/// A check on clues that a board meets, which neither proved the solution
/// unique nor gave up: the clues are ambiguous.
proof fn lemma_ambiguous_outcome(
    solver: &Solver,
    g: &Grid,
    start: Seq<u8>,
    solutions: Seq<Vec<u8>>,
    sol: Seq<u8>,
)
    requires
        solver.wf(),
        solver.grid.w == g.w,
        solver.grid.h == g.h,
        start.len() == solver.grid.size(),
        forall|i: int| 0 <= i < start.len() ==> #[trigger] start[i] == UNKNOWN,
        solutions.len() <= 2,
        solutions.len() != 1,
        solutions.len() < 2 ==> forall|s: Seq<u8>|
            #[trigger] is_solution(&solver.grid, s, solver.clues@) && crate::model::agrees(s, start)
                ==> exists|j: int| 0 <= j < solutions.len() && (#[trigger] solutions[j])@ == s,
        forall|j: int|
            0 <= j < solutions.len() ==> is_solution(&solver.grid, (#[trigger] solutions[j])@, solver.clues@),
        forall|i: int, j: int|
            0 <= i < j < solutions.len() ==> (#[trigger] solutions[i])@ != (#[trigger] solutions[j])@,
        is_solution(g, sol, solver.clues@),
    ensures
        ambiguous(g, solver.clues@),
{
    crate::solver::lemma_solution_grid(g, &solver.grid, sol, solver.clues@);
    if solutions.len() == 0 {
        assert(crate::model::agrees(sol, start));
        assert(false);
    }
    let s1 = solutions[0]@;
    let s2 = solutions[1]@;
    assert(is_solution(&solver.grid, s1, solver.clues@));
    assert(is_solution(&solver.grid, s2, solver.clues@));
    crate::solver::lemma_solution_grid(g, &solver.grid, s1, solver.clues@);
    crate::solver::lemma_solution_grid(g, &solver.grid, s2, solver.clues@);
    assert(s1 != s2);
}

/// A proof of uniqueness by the search: at most one solution.
proof fn lemma_unique_outcome(
    solver: &Solver,
    g: &Grid,
    start: Seq<u8>,
    solutions: Seq<Vec<u8>>,
)
    requires
        solver.wf(),
        solver.grid.w == g.w,
        solver.grid.h == g.h,
        start.len() == solver.grid.size(),
        forall|i: int| 0 <= i < start.len() ==> #[trigger] start[i] == UNKNOWN,
        solutions.len() == 1,
        forall|s: Seq<u8>|
            #[trigger] is_solution(&solver.grid, s, solver.clues@) && crate::model::agrees(s, start)
                ==> exists|j: int| 0 <= j < solutions.len() && (#[trigger] solutions[j])@ == s,
    ensures
        at_most_one(g, solver.clues@),
{
    assert forall|s1: Seq<u8>, s2: Seq<u8>|
        #[trigger] is_solution(g, s1, solver.clues@) && #[trigger] is_solution(g, s2, solver.clues@)
            implies s1 == s2 by {
        crate::solver::lemma_solution_grid(g, &solver.grid, s1, solver.clues@);
        crate::solver::lemma_solution_grid(g, &solver.grid, s2, solver.clues@);
        assert(crate::model::agrees(s1, start));
        assert(crate::model::agrees(s2, start));
        let j1 = choose|j: int| 0 <= j < solutions.len() && (#[trigger] solutions[j])@ == s1;
        let j2 = choose|j: int| 0 <= j < solutions.len() && (#[trigger] solutions[j])@ == s2;
    }
}

/// One greedy pass over the clue candidates in random order: a clue is dropped
/// whenever the puzzle still has exactly one solution. Because every kept clue
/// was tested against a superset of the final clue set, the result is
/// *inclusion-minimal* - no single clue of it can be removed any more.
///
/// Each proof draws an adaptive share of the shared budget. A proof that runs
/// out is not judged for good: the clue stays in and is retried once at the end
/// with whatever budget is left, so a near miss is not treated like a hopeless
/// case.
///
/// Returns the kept clues, how many were removed, the nodes used and the time
/// spent inside the solver.
fn minimise(
    grid: &Grid,
    candidates: &[(usize, Clue)],
    start: &[u8],
    cfg: &GenConfig,
    rng: &mut Rng,
    budget: &mut Budget,
    sol: Ghost<Seq<u8>>,
) -> (r: (Vec<(usize, Clue)>, usize, u64, Duration, usize, u64, bool))
    requires
        grid.wf(),
        grid.size() < u32::MAX,
        forall|t: int| 0 <= t < candidates@.len() ==> (#[trigger] candidates@[t]).0 < grid.size(),
        start@.len() == grid.size(),
        forall|i: int| 0 <= i < start@.len() ==> #[trigger] start@[i] == UNKNOWN,
        at_most_one(grid, candidates@),
        is_solution(grid, sol@, candidates@),
    ensures
        at_most_one(grid, r.0@),
        // the kept clues, in the order of the candidates, and the removed ones
        exists|keep: Seq<bool>|
            keep.len() == candidates@.len() && #[trigger] clue_views(r.0@) == kept(
                candidates@,
                keep,
                candidates@.len() as int,
            ),
        r.1 + r.0@.len() == candidates@.len(),
        forall|t: int|
            0 <= t < r.0@.len() ==> among(
                candidates@,
                candidates@.len() as int,
                ((#[trigger] r.0@[t]).0, r.0@[t].1@),
            ),
        !r.6 ==> forall|t: int| 0 <= t < r.0@.len() ==> ambiguous(grid, #[trigger] r.0@.remove(t)),
        r.2 + final(budget).nodes == old(budget).nodes,
        final(budget).deadline == old(budget).deadline,
        final(budget).slack == old(budget).slack,
        final(budget).min_nodes == old(budget).min_nodes,
        r.6 && old(budget).deadline is None && old(budget).min_nodes == u64::MAX ==> final(budget).nodes == 0,
        // with no clock and room for every proof to finish, none gives up
        old(budget).deadline is None && old(budget).min_nodes >= pow2(grid.size() as nat + 1) && old(
            budget,
        ).nodes >= (candidates@.len() + 1) * pow2(grid.size() as nat + 1) ==> !r.6 && r.2 <= candidates@.len()
            * pow2(grid.size() as nat + 1),
{
    let ghost b0 = *budget;
    let len = candidates.len();
    let ghost big = pow2(grid.size() as nat + 1);
    let ghost roomy = b0.deadline is None && b0.min_nodes >= big && b0.nodes >= (len + 1) * big;
    proof {
        vstd::arithmetic::power2::lemma_pow2_pos(grid.size() as nat + 1);
        lemma_open_within(start@);
    }
    let mut keep: Vec<bool> = vec![true; len];
    let mut order: Vec<usize> = Vec::new();
    let mut k: usize = 0;
    while k < len
        invariant
            k <= len,
            order@.len() == k,
            forall|j: int| 0 <= j < k ==> #[trigger] order@[j] == j,
        decreases len - k,
    {
        order.push(k);
        k = k + 1;
    }
    let ghost order0 = order@;
    rng.shuffle(&mut order);
    proof {
        assert forall|j: int| 0 <= j < order@.len() implies #[trigger] order@[j] < len by {
            let x = order@[j];
            assert(order@.contains(x));
            vstd::seq_lib::to_multiset_contains(order@, x);
            vstd::seq_lib::to_multiset_contains(order0, x);
            let u = choose|u: int| 0 <= u < order0.len() && order0[u] == x;
        }
        assert forall|i: int| 0 <= i < len implies #[trigger] order@.contains(i as usize) by {
            assert(order0[i] == i);
            assert(order0.contains(i as usize));
            vstd::seq_lib::to_multiset_contains(order0, i as usize);
            vstd::seq_lib::to_multiset_contains(order@, i as usize);
        }
        assert(order0.no_duplicates());
        vstd::seq_lib::to_multiset_len(order0);
        vstd::seq_lib::to_multiset_len(order@);
        order0.lemma_multiset_has_no_duplicates();
        order@.lemma_multiset_has_no_duplicates_conv();
        lemma_kept_all(candidates@, keep@, len as int);
        assert(clue_views(candidates@).take(len as int) =~= clue_views(candidates@));
        assert forall|t: int| 0 <= t < candidates@.len() implies clue_views(candidates@).contains(
            ((#[trigger] candidates@[t]).0, candidates@[t].1@),
        ) by {
            assert(clue_views(candidates@)[t] == (candidates@[t].0, candidates@[t].1@));
        }
    }
    let ghost mut current: Seq<(usize, Clue)> = candidates@;
    let ghost mut tried: Seq<bool> = Seq::new(len as nat, |i: int| false);
    let mut gave_up = false;
    let ghost mut all_tried = false;

    let mut nodes: u64 = 0;
    let mut solve_time = no_time();
    let mut checks: usize = 0;
    let mut max_check_nodes: u64 = 0;
    let mut retry: Vec<usize> = Vec::new();

    // `rounds` runs the queue once; the second round only retries the clues
    // whose proof ran out of budget the first time.
    let mut round: usize = 0;
    while round < 2
        invariant_except_break
            round == 0 ==> forall|i: int| 0 <= i < len ==> #[trigger] keep@[i],
            !all_tried,
            roomy ==> round == 0 && nodes == 0,
        invariant
            b0 == *old(budget),
            big == pow2(grid.size() as nat + 1),
            big >= 1,
            roomy == (b0.deadline is None && b0.min_nodes >= big && b0.nodes >= (len + 1) * big),
            roomy ==> !gave_up && nodes <= len * big,
            pow2(count_open(start@) + 1) <= big,
            tree_size(count_open(start@)) < big,
            nodes + budget.nodes == b0.nodes,
            budget.deadline == b0.deadline,
            budget.slack == b0.slack,
            budget.min_nodes == b0.min_nodes,
            gave_up && b0.deadline is None && b0.min_nodes == u64::MAX ==> budget.nodes == 0,
            grid.wf(),
            grid.size() < u32::MAX,
            len == candidates@.len(),
            keep@.len() == len,
            forall|t: int| 0 <= t < candidates@.len() ==> (#[trigger] candidates@[t]).0 < grid.size(),
            start@.len() == grid.size(),
            forall|i: int| 0 <= i < start@.len() ==> #[trigger] start@[i] == UNKNOWN,
            forall|j: int| 0 <= j < order@.len() ==> #[trigger] order@[j] < len,
            forall|j: int| 0 <= j < retry@.len() ==> #[trigger] retry@[j] < len,
            at_most_one(grid, current),
            within(current, kept(candidates@, keep@, len as int)),
            is_solution(grid, sol@, candidates@),
            order@.len() == len,
            order@.no_duplicates(),
            forall|i: int| 0 <= i < len ==> #[trigger] order@.contains(i as usize),
            tried.len() == len,
            !gave_up ==> retry@.len() == 0,
            round >= 1 ==> gave_up,
            round <= 2,
            !gave_up ==> forall|j: int|
                0 <= j < len && #[trigger] keep@[j] && tried[j] ==> loose(
                    grid,
                    kept(candidates@, keep@.update(j, false), len as int),
                ),
            all_tried ==> forall|j: int| 0 <= j < len && #[trigger] keep@[j] ==> tried[j],
        ensures
            !gave_up ==> all_tried,
        decreases 2 - round,
    {
        let mut queue: Vec<usize> = Vec::new();
        if round == 0 {
            let mut q: usize = 0;
            while q < order.len()
                invariant
                    queue@ == order@.take(q as int),
                    q <= order@.len(),
                decreases order@.len() - q,
            {
                queue.push(order[q]);
                proof {
                    assert(order@.take(q + 1) =~= order@.take(q as int).push(order@[q as int]));
                }
                q = q + 1;
            }
            proof {
                assert(order@.take(order@.len() as int) =~= order@);
            }
        } else {
            std::mem::swap(&mut queue, &mut retry);
        }
        let mut left = queue.len();
        let mut qi: usize = 0;
        while qi < queue.len()
            invariant
                b0 == *old(budget),
                big == pow2(grid.size() as nat + 1),
                big >= 1,
                roomy == (b0.deadline is None && b0.min_nodes >= big && b0.nodes >= (len + 1) * big),
                roomy ==> !gave_up && round == 0 && nodes <= qi * big,
                pow2(count_open(start@) + 1) <= big,
                tree_size(count_open(start@)) < big,
                nodes + budget.nodes == b0.nodes,
                budget.deadline == b0.deadline,
                budget.slack == b0.slack,
                budget.min_nodes == b0.min_nodes,
                gave_up && b0.deadline is None && b0.min_nodes == u64::MAX ==> budget.nodes == 0,
                grid.wf(),
                grid.size() < u32::MAX,
                len == candidates@.len(),
                keep@.len() == len,
                forall|t: int| 0 <= t < candidates@.len() ==> (#[trigger] candidates@[t]).0 < grid.size(),
                start@.len() == grid.size(),
                forall|i: int| 0 <= i < start@.len() ==> #[trigger] start@[i] == UNKNOWN,
                forall|j: int| 0 <= j < order@.len() ==> #[trigger] order@[j] < len,
                forall|j: int| 0 <= j < retry@.len() ==> #[trigger] retry@[j] < len,
                forall|j: int| 0 <= j < queue@.len() ==> #[trigger] queue@[j] < len,
                qi <= queue@.len(),
                left + qi == queue@.len(),
                at_most_one(grid, current),
                within(current, kept(candidates@, keep@, len as int)),
                is_solution(grid, sol@, candidates@),
                order@.len() == len,
                order@.no_duplicates(),
                forall|i: int| 0 <= i < len ==> #[trigger] order@.contains(i as usize),
                tried.len() == len,
                !gave_up ==> retry@.len() == 0,
                round == 1 ==> gave_up,
                round <= 1,
                round == 0 ==> queue@ == order@,
                round == 0 ==> forall|u: int| qi <= u < queue@.len() ==> #[trigger] keep@[queue@[u] as int],
                round == 0 && !gave_up ==> forall|u: int|
                    0 <= u < qi && #[trigger] keep@[queue@[u] as int] ==> tried[queue@[u] as int],
                !gave_up ==> forall|j: int|
                    0 <= j < len && #[trigger] keep@[j] && tried[j] ==> loose(
                        grid,
                        kept(candidates@, keep@.update(j, false), len as int),
                    ),
            decreases queue@.len() - qi,
        {
            proof {
                if roomy {
                    assert(qi < len);
                    assert(b0.nodes - qi * big >= 2 * big) by (nonlinear_arith)
                        requires
                            b0.nodes >= (len + 1) * big,
                            qi < len,
                            big >= 1,
                    ;
                    assert(nodes <= qi * big);
                    assert(budget.nodes >= 2 * big);
                }
            }
            if budget.exhausted() {
                let r = finish(candidates, keep, nodes, solve_time, checks, max_check_nodes);
                proof {
                    lemma_finish(grid, candidates@, keep@, current, r.0@);
                }
                return (r.0, r.1, r.2, r.3, r.4, r.5, true);
            }
            let i = queue[qi];
            left = left - 1;
            let ghost keep_before = keep@;
            keep.set(i, false);
            let ghost keep_trial = keep@;
            let trial = select_clues(candidates, &keep);
            proof {
                lemma_kept_member(candidates@, keep@, len as int);
                assert forall|t: int| 0 <= t < trial@.len() implies (#[trigger] trial@[t]).0 < grid.size() by {
                    assert(clue_views(trial@)[t] == (trial@[t].0, trial@[t].1@));
                    assert(among(candidates@, len as int, kept(candidates@, keep@, len as int)[t]));
                }
            }
            let solver = Solver::new(Grid::new(grid.w, grid.h), &trial);
            let t0 = Timer::start();
            let limits = budget.share(left + 1);
            proof {
                if roomy {
                    lemma_share_floor(budget.nodes, budget.slack, budget.min_nodes, if left + 1 < 1 {
                        1
                    } else {
                        (left + 1) as u64
                    }, big as int);
                }
            }
            let outcome = solver.solve(start, &limits);
            proof {
                lemma_share_within(budget.nodes, budget.slack, budget.min_nodes, if left + 1 < 1 {
                    1
                } else {
                    (left + 1) as u64
                });
            }
            proof {
                if roomy {
                    assert(!outcome.aborted);
                    assert(nodes + outcome.nodes <= (qi + 1) * big) by (nonlinear_arith)
                        requires
                            nodes <= qi * big,
                            outcome.nodes < big,
                    ;
                    assert((qi + 1) * big <= len * big) by (nonlinear_arith)
                        requires
                            qi < len,
                            big >= 1,
                    ;
                    assert(len * big <= b0.nodes) by (nonlinear_arith)
                        requires
                            b0.nodes >= (len + 1) * big,
                            big >= 1,
                    ;
                }
            }
            solve_time = duration_sum(solve_time, t0.elapsed());
            nodes = nodes.saturating_add(outcome.nodes);
            budget.spend(outcome.nodes);
            checks = checks.saturating_add(1);
            if outcome.nodes > max_check_nodes {
                max_check_nodes = outcome.nodes;
            }
            proof {
                assert forall|t: int| 0 <= t < trial@.len() implies clue_views(candidates@).contains(
                    ((#[trigger] trial@[t]).0, trial@[t].1@),
                ) by {
                    assert(clue_views(trial@)[t] == (trial@[t].0, trial@[t].1@));
                    assert(among(candidates@, len as int, kept(candidates@, keep@, len as int)[t]));
                    let u = choose|u: int|
                        0 <= u < len && candidates@[u].0 == trial@[t].0 && #[trigger] candidates@[u].1@
                            == trial@[t].1@;
                    assert(clue_views(candidates@)[u] == (candidates@[u].0, candidates@[u].1@));
                }
                crate::solver::lemma_solution_subset(grid, sol@, candidates@, trial@);
                assert forall|x: int| 0 <= x < start@.len() implies !#[trigger] black_block(
                    &solver.grid,
                    start@,
                    x,
                ) by {
                }
                assert(well_marked(start@));
            }
            if outcome.is_unique() {
                proof {
                    if !gave_up {
                        assert forall|j: int|
                            0 <= j < len && #[trigger] keep@[j] && tried[j] implies loose(
                            grid,
                            kept(candidates@, keep@.update(j, false), len as int),
                        ) by {
                            lemma_kept_sub(
                                candidates@,
                                keep@.update(j, false),
                                keep_before.update(j, false),
                                len as int,
                            );
                            lemma_loose_sub(
                                grid,
                                kept(candidates@, keep_before.update(j, false), len as int),
                                kept(candidates@, keep@.update(j, false), len as int),
                            );
                        }
                    }
                    lemma_unique_outcome(&solver, grid, start@, outcome.solutions@);
                    current = trial@;
                    assert forall|t: int| 0 <= t < current.len() implies kept(candidates@, keep@, len as int).contains(
                        ((#[trigger] current[t]).0, current[t].1@),
                    ) by {
                        assert(clue_views(trial@)[t] == (trial@[t].0, trial@[t].1@));
                    }
                }
            } else {
                keep.set(i, true);
                proof {
                    lemma_kept_sub(candidates@, keep_before, keep@, len as int);
                    assert forall|t: int| 0 <= t < current.len() implies kept(candidates@, keep@, len as int).contains(
                        ((#[trigger] current[t]).0, current[t].1@),
                    ) by {
                        let e = ((current[t]).0, current[t].1@);
                        assert(kept(candidates@, keep_before, len as int).contains(e));
                        let t1 = choose|t1: int| 0 <= t1 < kept(candidates@, keep_before, len as int).len()
                            && kept(candidates@, keep_before, len as int)[t1] == e;
                        assert(kept(candidates@, keep@, len as int).contains(kept(candidates@, keep_before, len as int)[t1]));
                    }
                }
                if round == 0 {
                    assert(keep@ =~= keep_before);
                }
                if outcome.aborted {
                    gave_up = true;
                } else {
                    proof {
                        lemma_ambiguous_outcome(&solver, grid, start@, outcome.solutions@, sol@);
                        assert(keep@.update(i as int, false) =~= keep_trial);
                        assert(clue_views(trial@) == kept(candidates@, keep@.update(i as int, false), len as int));
                        assert forall|t: int| 0 <= t < clue_views(trial@).len() implies clue_views(
                            trial@,
                        ).contains(#[trigger] clue_views(trial@)[t]) by {
                        }
                        assert(loose(grid, clue_views(trial@)));
                        tried = tried.update(i as int, true);
                    }
                }
                if outcome.aborted && round == 0 {
                    retry.push(i);
                }
            }
            qi = qi + 1;
        }
        proof {
            if round == 0 && !gave_up {
                assert forall|j: int| 0 <= j < len && #[trigger] keep@[j] implies tried[j] by {
                    assert(order@.contains(j as usize));
                    let u = choose|u: int| 0 <= u < order@.len() && order@[u] == j as usize;
                    assert(queue@[u] == j);
                }
                all_tried = true;
            }
        }
        if retry.len() == 0 {
            break;
        }
        round = round + 1;
    }
    let r = finish(candidates, keep, nodes, solve_time, checks, max_check_nodes);
    proof {
        lemma_finish(grid, candidates@, keep@, current, r.0@);
        if !gave_up {
            assert forall|t: int| 0 <= t < r.0@.len() implies ambiguous(grid, #[trigger] r.0@.remove(t)) by {
                let i = lemma_kept_remove(candidates@, keep@, len as int, t);
                assert(tried[i]);
                assert(clue_views(r.0@.remove(t)) =~= clue_views(r.0@).remove(t));
                lemma_loose_ambiguous(grid, r.0@.remove(t));
            }
        }
    }
    (r.0, r.1, r.2, r.3, r.4, r.5, gave_up)
}

/// The clues handed back keep at most one solution and come from the
/// candidates.
proof fn lemma_finish(
    grid: &Grid,
    candidates: Seq<(usize, Clue)>,
    keep: Seq<bool>,
    current: Seq<(usize, Clue)>,
    result: Seq<(usize, Clue)>,
)
    requires
        at_most_one(grid, current),
        within(current, kept(candidates, keep, candidates.len() as int)),
        clue_views(result) == kept(candidates, keep, candidates.len() as int),
    ensures
        at_most_one(grid, result),
        forall|t: int|
            0 <= t < result.len() ==> among(
                candidates,
                candidates.len() as int,
                ((#[trigger] result[t]).0, result[t].1@),
            ),
{
    lemma_at_most_one_within(grid, current, result);
    lemma_kept_member(candidates, keep, candidates.len() as int);
    assert forall|t: int| 0 <= t < result.len() implies among(
        candidates,
        candidates.len() as int,
        ((#[trigger] result[t]).0, result[t].1@),
    ) by {
        assert(clue_views(result)[t] == (result[t].0, result[t].1@));
    }
}

/// A candidate clue of the solution `cells`: a white cell's own clue, one
/// the generator is willing to show.
pub open spec fn candidate_of(g: &Grid, cells: Seq<u8>, c: (usize, Clue)) -> bool {
    &&& c.0 < g.size()
    &&& cells[c.0 as int] == WHITE
    &&& c.1@ == mask_runs(cell_mask(g, cells, c.0 as int))
    &&& showable_clue(c.1@)
}

/// How many of the first `k` cells of `cells` are empty and show a clue: the
/// size of the maximal clue set of a solution.
pub open spec fn showable_cells(g: &Grid, cells: Seq<u8>, k: int) -> nat
    decreases k,
{
    if k <= 0 {
        0
    } else {
        showable_cells(g, cells, k - 1) + if cells[k - 1] == WHITE && showable_clue(
            mask_runs(cell_mask(g, cells, k - 1)),
        ) {
            1nat
        } else {
            0nat
        }
    }
}

/// No more cells show a clue than there are cells.
proof fn lemma_showable_cells_within(g: &Grid, cells: Seq<u8>, k: int)
    requires
        0 <= k,
    ensures
        showable_cells(g, cells, k) <= k,
    decreases k,
{
    if k > 0 {
        lemma_showable_cells_within(g, cells, k - 1);
    }
}

/// Two boards of the same size count the same clue cells.
proof fn lemma_showable_cells_grid(a: &Grid, b: &Grid, cells: Seq<u8>, k: int)
    requires
        a.wf(),
        b.wf(),
        a.w == b.w,
        a.h == b.h,
        cells.len() == a.size(),
        k <= a.size(),
    ensures
        showable_cells(a, cells, k) == showable_cells(b, cells, k),
    decreases k,
{
    if k > 0 {
        lemma_showable_cells_grid(a, b, cells, k - 1);
        crate::solver::lemma_mask_upto_grid(a, b, cells, k - 1, 8);
    }
}

/// Generate a puzzle: grow a solution, take every clue it shows, check that
/// they pin it down, then drop clues while the solution stays unique.
///
/// A puzzle handed back has exactly one solution, the one it stores, shows
/// at each clue cell exactly the runs of walls around it, and never shows a
/// clue of 8. Unless a proof gave up, no clue can be dropped. With no clock
/// and the floor of a proof at the whole node budget, a proof is only given
/// up once the whole node budget is spent.
///
/// Every proof visits fewer than `2^(n + 1)` nodes on a board of `n` cells,
/// so with no clock, a floor of that many nodes per proof and room in the
/// pool for all of them over every attempt, no proof gives up and the clues
/// handed back are minimal.
///
/// When no puzzle comes out, the statistics of the failed run come back
/// instead: with no clock, every allowed attempt was made or the whole node
/// budget was spent.
pub fn generate_with(rng: &mut Rng, cfg: &GenConfig) -> (r: Result<GenResult, GenStats>)
    requires
        cfg.w * cfg.h > 0,
        cfg.w * cfg.h < u32::MAX,
    ensures
        cfg.max_attempts == 0 ==> r is Err,
        r matches Err(st) ==> {
            &&& st.attempts <= cfg.max_attempts
            &&& st.nodes <= cfg.node_budget
            &&& st.clue_count == 0
            &&& st.black_count == 0
            &&& st.removals == 0
            &&& !st.gave_up
            &&& cfg.deadline is None && cfg.time_budget_ms == 0 ==> st.attempts == cfg.max_attempts
                || st.nodes == cfg.node_budget
        },
        r matches Ok(res) ==> res.drawn_from() == old(rng).state && stats_describe(res),
        r matches Ok(res) ==> {
            &&& res.puzzle.wf()
            &&& res.puzzle.grid.w == cfg.w
            &&& res.puzzle.grid.h == cfg.h
            &&& is_solution(&res.puzzle.grid, res.puzzle.solution@, res.puzzle.clues@)
            &&& forall|s: Seq<u8>|
                #[trigger] is_solution(&res.puzzle.grid, s, res.puzzle.clues@) ==> s
                    == res.puzzle.solution@
            &&& forall|t: int|
                0 <= t < res.puzzle.clues@.len() ==> showable_clue(
                    (#[trigger] res.puzzle.clues@[t]).1@,
                )
            &&& forall|t: int|
                0 <= t < res.puzzle.clues@.len() ==> (#[trigger] res.puzzle.clues@[t]).1@ == mask_runs(
                    cell_mask(&res.puzzle.grid, res.puzzle.solution@, res.puzzle.clues@[t].0 as int),
                )
            &&& res.stats.clue_count == res.puzzle.clues@.len()
            &&& res.stats.removals + res.stats.clue_count == showable_cells(
                &res.puzzle.grid,
                res.puzzle.solution@,
                res.puzzle.grid.size(),
            )
            &&& 1 <= res.stats.attempts <= cfg.max_attempts
            &&& res.stats.black_count == count_value(res.puzzle.solution@, BLACK)
            &&& res.stats.black_count >= 6
            &&& res.stats.clueless_region == largest_region_size(
                &res.puzzle.grid,
                clueless_cells(&res.puzzle.grid, res.puzzle.solution@),
            )
            &&& res.stats.clueless_region <= cfg.max_clueless_region
            &&& res.stats.blank_region == largest_region_size(
                &res.puzzle.grid,
                blank_cells(res.puzzle.solution@, clue_cells_of(res.puzzle.grid.size(), res.puzzle.clues@)),
            )
            &&& res.stats.nodes <= cfg.node_budget
            &&& cfg.deadline is None && cfg.time_budget_ms == 0 && cfg.check_min_nodes >= pow2(
                (cfg.w * cfg.h) as nat + 1,
            ) && cfg.node_budget >= (cfg.max_attempts + 1) * (cfg.w * cfg.h + 1) * pow2(
                (cfg.w * cfg.h) as nat + 1,
            ) ==> !res.stats.gave_up
            &&& cfg.deadline is None && cfg.time_budget_ms == 0 && cfg.check_min_nodes == u64::MAX
                && res.stats.gave_up ==> res.stats.nodes == cfg.node_budget
            &&& !res.stats.gave_up ==> forall|t: int|
                0 <= t < res.puzzle.clues@.len() ==> ambiguous(
                    &res.puzzle.grid,
                    #[trigger] res.puzzle.clues@.remove(t),
                )
        },
{
    let ghost rng_start = rng.state;
    let started = Timer::start();
    let grid = Grid::new(cfg.w, cfg.h);
    let n = grid.len();
    let mut attempts: usize = 0;
    // one pool for the whole generation, shared adaptively between proofs
    let mut budget = Budget::new(cfg);
    let mut spent_nodes: u64 = 0;
    let mut spent_time = no_time();
    let ghost big = pow2(n as nat + 1);
    let ghost roomy = cfg.deadline is None && cfg.time_budget_ms == 0 && cfg.check_min_nodes >= big
        && cfg.node_budget >= (cfg.max_attempts + 1) * (n + 1) * big;
    proof {
        vstd::arithmetic::power2::lemma_pow2_pos(n as nat + 1);
    }

    while attempts < cfg.max_attempts
        invariant
            rng_start == old(rng).state,
            big == pow2(n as nat + 1),
            big >= 1,
            roomy == (cfg.deadline is None && cfg.time_budget_ms == 0 && cfg.check_min_nodes >= big
                && cfg.node_budget >= (cfg.max_attempts + 1) * (n + 1) * big),
            roomy ==> spent_nodes <= attempts * (n + 1) * big,
            grid.wf(),
            grid.w == cfg.w,
            grid.h == cfg.h,
            n == grid.size(),
            0 < n < u32::MAX,
            attempts <= cfg.max_attempts,
            spent_nodes + budget.nodes == cfg.node_budget,
            budget.min_nodes == if cfg.check_min_nodes < 1 { 1 } else { cfg.check_min_nodes },
            cfg.deadline is None && cfg.time_budget_ms == 0 ==> budget.deadline is None,
        decreases cfg.max_attempts - attempts,
    {
        if budget.exhausted() {
            return Err(failed_run(attempts, spent_nodes, started.elapsed(), spent_time));
        }
        attempts = attempts + 1;
        proof {
            if roomy {
                assert((attempts - 1) * (n + 1) * big <= attempts * (n + 1) * big) by (nonlinear_arith)
                    requires
                        attempts >= 1,
                        big >= 1,
                ;
            }
        }

        let lo = cfg.black_lo as u64;
        let hi = cfg.black_hi as u64;
        let pick = rng.below(1000) as u64;
        proof {
            assert(pick < 1000);
            assert(lo <= u16::MAX && hi <= u16::MAX);
            if hi >= lo {
                assert((hi - lo) * pick <= (hi - lo) * 1000) by (nonlinear_arith)
                    requires
                        pick < 1000,
                        hi >= lo,
                ;
            } else {
                assert((lo - hi) * pick <= lo * 1000) by (nonlinear_arith)
                    requires
                        pick < 1000,
                        lo > hi,
                ;
            }
        }
        // the density in millionths: the per-mille bounds, interpolated by
        // the draw in thousandths
        let millionths: u64 = if hi >= lo {
            lo * 1000 + (hi - lo) * pick
        } else {
            lo * 1000 - (lo - hi) * pick
        };
        proof {
            assert(millionths <= 1000 * u16::MAX);
            assert((n as u64) * millionths <= u32::MAX as int * (1000 * u16::MAX)) by (nonlinear_arith)
                requires
                    n < u32::MAX,
                    millionths <= 1000 * u16::MAX,
            ;
        }
        let target = ((n as u64) * millionths / 1_000_000) as usize;
        let solution = match random_solution(rng, &grid, target) {
            Some(cells) => cells,
            None => {
                continue;
            },
        };
        // no large patches that would carry no clue at all
        let board = Grid::new(cfg.w, cfg.h);
        let clueless = largest_clueless_region(&board, &solution);
        if clueless > cfg.max_clueless_region {
            continue;
        }

        // (2) maximal clue set: every white cell with at least one black
        // neighbour, except the ones whose clue would be 8
        let mut candidates: Vec<(usize, Clue)> = Vec::new();
        let mut i: usize = 0;
        while i < n
            invariant
                grid.wf(),
                n == grid.size(),
                solution@.len() == n,
                i <= n,
                forall|t: int| 0 <= t < candidates@.len() ==> candidate_of(&grid, solution@, #[trigger] candidates@[t]),
                candidates@.len() == showable_cells(&grid, solution@, i as int),
            decreases n - i,
        {
            if solution[i] == WHITE {
                let clue = clue_of(&solution, &grid, i);
                if clue_is_showable(&clue) {
                    candidates.push((i, clue));
                }
            }
            i = i + 1;
        }
        if candidates.len() == 0 {
            continue;
        }
        let ghost before_shuffle = candidates@;
        rng.shuffle(&mut candidates);
        proof {
            vstd::seq_lib::to_multiset_len(candidates@);
            vstd::seq_lib::to_multiset_len(before_shuffle);
            assert(candidates@.len() == showable_cells(&grid, solution@, n as int));
            assert forall|t: int| 0 <= t < candidates@.len() implies candidate_of(&grid, solution@, #[trigger] candidates@[t]) by {
                let x = candidates@[t];
                assert(candidates@.contains(x));
                vstd::seq_lib::to_multiset_contains(candidates@, x);
                vstd::seq_lib::to_multiset_contains(before_shuffle, x);
                let u = choose|u: int| 0 <= u < before_shuffle.len() && before_shuffle[u] == x;
                assert(candidate_of(&grid, solution@, before_shuffle[u]));
            }
        }

        // (3) the maximal clue set must already pin the solution down. This is
        // only a shape filter, so it draws a small share of the pool: a shape
        // that cannot be pinned down quickly is dropped instead of burning time.
        let start = vec![UNKNOWN; n];
        let shape_limits = budget.share(10);
        let solver = Solver::new(Grid::new(cfg.w, cfg.h), &candidates);
        let t0 = Timer::start();
        let outcome = solver.solve(&start, &shape_limits);
        proof {
            lemma_share_within(budget.nodes, budget.slack, budget.min_nodes, 10);
        }
        spent_time = duration_sum(spent_time, t0.elapsed());
        let ghost spent_before = spent_nodes;
        budget.spend(outcome.nodes);
        spent_nodes = spent_nodes.saturating_add(outcome.nodes);
        proof {
            if roomy {
                lemma_open_within(start@);
                assert(spent_nodes <= spent_before + outcome.nodes);
                assert((attempts - 1) * (n + 1) * big + big <= attempts * (n + 1) * big) by (nonlinear_arith)
                    requires
                        attempts >= 1,
                        big >= 1,
                ;
            }
        }
        if !outcome.is_unique() {
            continue;
        }
        proof {
            lemma_unique_outcome(&solver, &grid, start@, outcome.solutions@);
        }

        // (4) strip clues from the maximal set down to a minimal one: a clue is
        // dropped whenever the puzzle still has exactly one solution, so no
        // single clue of the result can be removed any more.
        //
        // This is the dual of "start blank and add random clues until the
        // solution is unique", and it reaches the minimal set far more cheaply:
        // the intermediate puzzles are dense, so refuting them is quick, while
        // the adding direction spends its time on near-unique puzzles, which is
        // exactly where the search is expensive.
        proof {
            lemma_candidates_met(&grid, solution@, candidates@);
        }
        proof {
            if roomy {
                lemma_showable_cells_within(&grid, solution@, n as int);
                let len = candidates@.len();
                assert(len <= n);
                assert(cfg.node_budget - ((attempts - 1) * (n + 1) * big + big) >= (len + 1) * big) by (nonlinear_arith)
                    requires
                        cfg.node_budget >= (cfg.max_attempts + 1) * (n + 1) * big,
                        1 <= attempts <= cfg.max_attempts,
                        len <= n,
                        big >= 1,
                ;
                assert(budget.nodes >= (len + 1) * big);
            }
        }
        let ghost spent_mid = spent_nodes;
        let (clues, removals, nodes_used, solve_time, checks, max_check_nodes, gave_up) = minimise(
            &grid,
            &candidates,
            &start,
            cfg,
            rng,
            &mut budget,
            Ghost(solution@),
        );
        proof {
            assert forall|t: int| 0 <= t < clues@.len() implies candidate_of(&grid, solution@, #[trigger] clues@[t]) by {
                assert(among(candidates@, candidates@.len() as int, (clues@[t].0, clues@[t].1@)));
                let u = choose|u: int|
                    0 <= u < candidates@.len() && candidates@[u].0 == clues@[t].0 && #[trigger] candidates@[u].1@
                        == clues@[t].1@;
                assert(candidate_of(&grid, solution@, candidates@[u]));
            }
        }
        spent_nodes = spent_nodes.saturating_add(nodes_used);
        proof {
            if roomy {
                let len = candidates@.len();
                assert(!gave_up);
                assert(nodes_used <= len * big);
                assert(spent_nodes <= spent_mid + nodes_used);
                assert((attempts - 1) * (n + 1) * big + big + len * big <= attempts * (n + 1) * big) by (nonlinear_arith)
                    requires
                        attempts >= 1,
                        len <= n,
                        big >= 1,
                ;
            }
        }
        spent_time = duration_sum(spent_time, solve_time);
        let clue_count = clues.len();
        let mut black_count: usize = 0;
        let mut j: usize = 0;
        while j < n
            invariant
                solution@.len() == n,
                j <= n,
                black_count == count_value(solution@.take(j as int), BLACK),
                black_count <= j,
            decreases n - j,
        {
            proof {
                assert(solution@.take(j + 1).drop_last() =~= solution@.take(j as int));
            }
            if solution[j] == BLACK {
                black_count = black_count + 1;
            }
            j = j + 1;
        }
        proof {
            assert(solution@.take(n as int) =~= solution@);
        }
        let ghost sol = solution@;
        let ghost clue_seq = clues@;
        let puzzle = Puzzle::new(board, clues, solution, 0);
        let blank = blank_region(&puzzle.grid, &puzzle.solution, &puzzle.clues);
        proof {
            assert forall|t: int| 0 <= t < puzzle.clues@.len() implies candidate_of(&grid, sol, #[trigger] puzzle.clues@[t]) by {
                let x = puzzle.clues@[t];
                assert(puzzle.clues@.contains(x));
                vstd::seq_lib::to_multiset_contains(puzzle.clues@, x);
                vstd::seq_lib::to_multiset_contains(clue_seq, x);
                let u = choose|u: int| 0 <= u < clue_seq.len() && clue_seq[u] == x;
                assert(candidate_of(&grid, sol, clue_seq[u]));
            }
            assert forall|t: int, d: int|
                0 <= t < puzzle.clues@.len() && 0 <= d < puzzle.clues@[t].1@.len() implies #[trigger] puzzle.clues@[t].1@[d]
                    <= 207 by {
                assert(candidate_of(&grid, sol, puzzle.clues@[t]));
            }
            assert forall|t: int| 0 <= t < puzzle.clues@.len() implies (#[trigger] puzzle.clues@[t]).1@ == mask_runs(
                cell_mask(&puzzle.grid, puzzle.solution@, puzzle.clues@[t].0 as int),
            ) by {
                assert(candidate_of(&grid, sol, puzzle.clues@[t]));
                crate::solver::lemma_mask_upto_grid(&grid, &puzzle.grid, sol, puzzle.clues@[t].0 as int, 8);
            }
        }

        // Safety net: the stored solution must satisfy the rules. Uniqueness was
        // already proven by the minimisation loop - the clue set it returns is
        // always one whose uniqueness check succeeded.
        let errors = validate(&puzzle.grid, &puzzle.solution, &puzzle.clues);
        if errors.len() != 0 {
            continue;
        }
        proof {
            assert(puzzle.wf());
            assert forall|i: int| 0 <= i < puzzle.solution@.len() implies #[trigger] puzzle.solution@[i] == UNKNOWN
                || puzzle.solution@[i] == BLACK || puzzle.solution@[i] == WHITE by {
                assert(sol[i] == BLACK || sol[i] == WHITE);
            }
            crate::solver::lemma_validate_iff_solution(&puzzle.grid, puzzle.solution@, puzzle.clues@);
            if !gave_up {
                assert forall|t: int| 0 <= t < puzzle.clues@.len() implies ambiguous(
                    &puzzle.grid,
                    #[trigger] puzzle.clues@.remove(t),
                ) by {
                    let x = puzzle.clues@[t];
                    assert(puzzle.clues@.contains(x));
                    vstd::seq_lib::to_multiset_contains(puzzle.clues@, x);
                    vstd::seq_lib::to_multiset_contains(clue_seq, x);
                    let u = choose|u: int| 0 <= u < clue_seq.len() && clue_seq[u] == x;
                    vstd::seq_lib::to_multiset_remove(puzzle.clues@, t);
                    vstd::seq_lib::to_multiset_remove(clue_seq, u);
                    assert(ambiguous(&grid, clue_seq.remove(u)));
                    let (s1, s2) = choose|s1: Seq<u8>, s2: Seq<u8>|
                        s1 != s2 && #[trigger] is_solution(&grid, s1, clue_seq.remove(u))
                            && #[trigger] is_solution(&grid, s2, clue_seq.remove(u));
                    crate::solver::lemma_solution_multiset(&grid, s1, clue_seq.remove(u), puzzle.clues@.remove(t));
                    crate::solver::lemma_solution_multiset(&grid, s2, clue_seq.remove(u), puzzle.clues@.remove(t));
                    crate::solver::lemma_solution_grid(&grid, &puzzle.grid, s1, puzzle.clues@.remove(t));
                    crate::solver::lemma_solution_grid(&grid, &puzzle.grid, s2, puzzle.clues@.remove(t));
                }
            }
            assert(is_solution(&puzzle.grid, puzzle.solution@, puzzle.clues@));
            vstd::seq_lib::to_multiset_len(puzzle.clues@);
            vstd::seq_lib::to_multiset_len(clue_seq);
            assert(clue_count == puzzle.clues@.len());
            assert(removals + clue_count == showable_cells(&grid, sol, n as int));
            lemma_showable_cells_grid(&grid, &puzzle.grid, sol, n as int);
            assert forall|s: Seq<u8>| #[trigger] is_solution(&puzzle.grid, s, puzzle.clues@) implies s
                == puzzle.solution@ by {
                crate::solver::lemma_solution_multiset(&puzzle.grid, s, puzzle.clues@, clue_seq);
                crate::solver::lemma_solution_grid(&puzzle.grid, &grid, s, clue_seq);
                crate::solver::lemma_solution_multiset(&puzzle.grid, sol, puzzle.clues@, clue_seq);
                crate::solver::lemma_solution_grid(&puzzle.grid, &grid, sol, clue_seq);
            }
        }
        return Ok(
            GenResult {
                puzzle,
                stats: GenStats {
                    attempts,
                    clue_count,
                    black_count,
                    elapsed: started.elapsed(),
                    removals,
                    nodes: spent_nodes,
                    solve_time: spent_time,
                    blank_region: blank,
                    clueless_region: clueless,
                    checks,
                    max_check_nodes,
                    gave_up,
                },
                seeded: Ghost(rng_start),
            },
        );
    }
    Err(failed_run(attempts, spent_nodes, started.elapsed(), spent_time))
}

/// The statistics of a run that produced no puzzle.
fn failed_run(attempts: usize, nodes: u64, elapsed: Duration, solve_time: Duration) -> (st: GenStats)
    ensures
        st.attempts == attempts,
        st.nodes == nodes,
        st.clue_count == 0,
        st.black_count == 0,
        st.removals == 0,
        !st.gave_up,
{
    GenStats {
        attempts,
        clue_count: 0,
        black_count: 0,
        elapsed,
        removals: 0,
        nodes,
        solve_time,
        blank_region: 0,
        clueless_region: 0,
        checks: 0,
        max_check_nodes: 0,
        gave_up: false,
    }
}

} // verus!
