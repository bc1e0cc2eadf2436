//! Rule checks on a (partially) filled board: wall groups, blank regions,
//! full validation and the live feedback shown while playing.

use vstd::prelude::*;

use crate::grid::{chebyshev_distance, col, row, Grid};
use crate::model::{
    black_nb, cell_mask, clue_allows, clue_chars, clue_of, clue_satisfiable, clue_text, decimal,
    is_rotation_of, lemma_nb_in_range, mask_runs, push_decimal, satisfiable, Clue, BLACK, UNKNOWN,
    WHITE,
};
use crate::region::count_pred;
use vstd::string::StringExecFns;
use crate::region::{
    connected, fill, is_path, labels_closed, largest_region_size, largest_upto, lemma_connected_ends,
    lemma_connected_symmetric, lemma_connected_trans, lemma_count_pred_bound,
    lemma_region_size_connected, region_size,
};

verus! {

/// The cells that are walls.
pub open spec fn walls(marks: Seq<u8>) -> Seq<bool> {
    Seq::new(marks.len(), |i: int| marks[i] == BLACK)
}

/// The cells that could still become walls: everything not marked empty.
pub open spec fn potential(marks: Seq<u8>) -> Seq<bool> {
    Seq::new(marks.len(), |i: int| marks[i] != WHITE)
}

/// Flood fill labels for every kept cell: equal labels exactly for
/// connected cells, numbered in the order of each region's first cell.
pub open spec fn is_labelling(
    g: &Grid,
    keep: Seq<bool>,
    id: Seq<usize>,
    count: int,
    starts: Seq<int>,
) -> bool {
    &&& id.len() == g.size()
    &&& 0 <= count <= g.size()
    &&& starts.len() == count
    &&& forall|i: int| 0 <= i < g.size() ==> ((#[trigger] id[i] == usize::MAX) == !keep[i])
    &&& forall|i: int| 0 <= i < g.size() && keep[i] ==> #[trigger] id[i] < count
    &&& forall|i: int, j: int|
        0 <= i < g.size() && 0 <= j < g.size() && keep[i] && keep[j] ==> ((#[trigger] id[i]
            == #[trigger] id[j]) == connected(g, keep, i, j))
    &&& forall|p: int|
        0 <= p < count ==> 0 <= #[trigger] starts[p] < g.size() && keep[starts[p]] && id[starts[p]]
            == p
    &&& forall|i: int| 0 <= i < g.size() && keep[i] ==> starts[id[i] as int] <= i
    &&& forall|p: int, q: int| 0 <= p < q < count ==> starts[p] < starts[q]
}

/// Flood fill orthogonal components over the cells where `keep` holds.
/// `id[i]` is set to the component number, or `usize::MAX` for skipped cells.
pub(crate) fn components(grid: &Grid, keep: &Vec<bool>, id: &mut Vec<usize>) -> (r: (usize, Ghost<Seq<int>>))
    requires
        grid.wf(),
        keep@.len() == grid.size(),
        old(id)@.len() == grid.size(),
    ensures
        is_labelling(grid, keep@, final(id)@, r.0 as int, r.1@),
{
    let n = grid.len();
    let mut i: usize = 0;
    while i < n
        invariant
            n == grid.size(),
            id@.len() == n,
            i <= n,
            forall|j: int| 0 <= j < i ==> #[trigger] id@[j] == usize::MAX,
        decreases n - i,
    {
        id.set(i, usize::MAX);
        i = i + 1;
    }
    let ghost kp = keep@;
    let ghost mut starts: Seq<int> = Seq::empty();
    let mut count: usize = 0;
    let mut start: usize = 0;
    while start < n
        invariant
            grid.wf(),
            kp == keep@,
            n == grid.size(),
            kp.len() == n,
            id@.len() == n,
            start <= n,
            count <= start,
            starts.len() == count,
            labels_closed(grid, kp, id@),
            forall|j: int| 0 <= j < n && j < start && kp[j] ==> #[trigger] id@[j] != usize::MAX,
            forall|j: int| 0 <= j < n && id@[j] != usize::MAX ==> #[trigger] id@[j] < count,
            forall|j: int| 0 <= j < n && id@[j] != usize::MAX ==> j < start || kp[j],
            forall|a: int, b: int|
                0 <= a < n && 0 <= b < n && #[trigger] id@[a] != usize::MAX ==> ((id@[a]
                    == #[trigger] id@[b]) == connected(grid, kp, a, b)),
            forall|p: int|
                0 <= p < count ==> 0 <= #[trigger] starts[p] < start && kp[starts[p]] && id@[starts[p]]
                    == p,
            forall|j: int| 0 <= j < n && #[trigger] id@[j] != usize::MAX ==> starts[id@[j] as int] <= j,
            forall|p: int, q: int| 0 <= p < q < count ==> starts[p] < starts[q],
        decreases n - start,
    {
        if id[start] == usize::MAX && keep[start] {
            let ghost old_id = id@;
            let _size = fill(grid, keep, start, id, count);
            proof {
                let s = start as int;
                let c = count as int;
                lemma_connected_refl_pub(grid, kp, s);
                starts = starts.push(s);
                assert forall|a: int, b: int|
                    0 <= a < n && 0 <= b < n && #[trigger] id@[a] != usize::MAX implies ((id@[a]
                        == #[trigger] id@[b]) == connected(grid, kp, a, b)) by {
                    if connected(grid, kp, s, a) {
                        lemma_connected_symmetric(grid, kp, s, a);
                        if connected(grid, kp, s, b) {
                            lemma_connected_trans(grid, kp, a, s, b);
                        }
                        if connected(grid, kp, a, b) {
                            lemma_connected_trans(grid, kp, s, a, b);
                        }
                    } else {
                        assert(old_id[a] != usize::MAX);
                        if connected(grid, kp, s, b) {
                            assert(old_id[b] == usize::MAX);
                            if connected(grid, kp, a, b) {
                                assert(old_id[a] == old_id[b]);
                            }
                        }
                    }
                }
                assert forall|j: int| 0 <= j < n && #[trigger] id@[j] != usize::MAX implies starts[id@[j]
                    as int] <= j by {
                    if connected(grid, kp, s, j) {
                        assert(old_id[j] == usize::MAX);
                        lemma_connected_ends(grid, kp, s, j);
                    }
                }
                assert forall|p: int|
                    0 <= p < c + 1 implies 0 <= #[trigger] starts[p] < start + 1 && kp[starts[p]]
                    && id@[starts[p]] == p by {
                    if p == c {
                        lemma_connected_refl_pub(grid, kp, s);
                    } else {
                        assert(old_id[starts[p]] == p);
                        if connected(grid, kp, s, starts[p]) {
                            assert(old_id[starts[p]] == usize::MAX);
                        }
                    }
                }
                assert forall|j: int| 0 <= j < n && id@[j] != usize::MAX implies j < start + 1
                    || kp[j] by {
                    if connected(grid, kp, s, j) {
                        lemma_connected_ends(grid, kp, s, j);
                    }
                }
            }
            count = count + 1;
        } else {
            proof {
                if kp[start as int] {
                    assert(id@[start as int] != usize::MAX);
                }
            }
        }
        start = start + 1;
    }
    proof {
        assert forall|i: int| 0 <= i < n implies ((#[trigger] id@[i] == usize::MAX) == !kp[i]) by {
            if id@[i] != usize::MAX {
                assert(labels_closed(grid, kp, id@));
            }
        }
        assert forall|i: int, j: int|
            0 <= i < n && 0 <= j < n && kp[i] && kp[j] implies ((#[trigger] id@[i] == #[trigger] id@[j])
            == connected(grid, kp, i, j)) by {
            assert(id@[i] != usize::MAX);
        }
    }
    (count, Ghost(starts))
}

proof fn lemma_connected_refl_pub(g: &Grid, keep: Seq<bool>, a: int)
    requires
        0 <= a < g.size(),
        keep.len() == g.size(),
        keep[a],
    ensures
        connected(g, keep, a, a),
{
    let p = seq![a];
    assert(is_path(g, keep, p));
    assert(p[0] == a && p.last() == a);
}

/// The orthogonally connected wall group containing `start`.
pub fn wall_component(grid: &Grid, marks: &[u8], start: usize) -> (group: Vec<bool>)
    requires
        grid.wf(),
        marks@.len() == grid.size(),
        start < grid.size(),
    ensures
        group@.len() == grid.size(),
        forall|i: int|
            0 <= i < grid.size() ==> #[trigger] group@[i] == (marks@[start as int] == BLACK
                && connected(grid, walls(marks@), start as int, i)),
{
    let n = grid.len();
    let mut out: Vec<bool> = vec![false; n];
    if marks[start] != BLACK {
        return out;
    }
    let keep = wall_mask(marks);
    let mut labels: Vec<usize> = vec![usize::MAX; n];
    proof {
        assert(labels_closed(grid, keep@, labels@));
    }
    let _size = fill(grid, &keep, start, &mut labels, 0);
    let mut i: usize = 0;
    while i < n
        invariant
            n == grid.size(),
            out@.len() == n,
            labels@.len() == n,
            i <= n,
            forall|j: int|
                0 <= j < n ==> #[trigger] labels@[j] == if connected(
                    grid,
                    walls(marks@),
                    start as int,
                    j,
                ) {
                    0
                } else {
                    usize::MAX
                },
            forall|j: int|
                0 <= j < i ==> #[trigger] out@[j] == connected(grid, walls(marks@), start as int, j),
        decreases n - i,
    {
        out.set(i, labels[i] == 0);
        i = i + 1;
    }
    out
}

/// Which cells are walls, as a vector.
fn wall_mask(marks: &[u8]) -> (keep: Vec<bool>)
    ensures
        keep@ == walls(marks@),
{
    let mut keep: Vec<bool> = Vec::new();
    let mut i: usize = 0;
    while i < marks.len()
        invariant
            i <= marks@.len(),
            keep@ == walls(marks@).take(i as int),
        decreases marks@.len() - i,
    {
        keep.push(marks[i] == BLACK);
        proof {
            assert(keep@ =~= walls(marks@).take(i + 1));
        }
        i = i + 1;
    }
    proof {
        assert(walls(marks@).take(marks@.len() as int) =~= walls(marks@));
    }
    keep
}

/// Which cells could still become walls, as a vector.
pub(crate) fn potential_mask(marks: &[u8]) -> (keep: Vec<bool>)
    ensures
        keep@ == potential(marks@),
{
    let mut keep: Vec<bool> = Vec::new();
    let mut i: usize = 0;
    while i < marks.len()
        invariant
            i <= marks@.len(),
            keep@ == potential(marks@).take(i as int),
        decreases marks@.len() - i,
    {
        keep.push(marks[i] != WHITE);
        proof {
            assert(keep@ =~= potential(marks@).take(i + 1));
        }
        i = i + 1;
    }
    proof {
        assert(potential(marks@).take(marks@.len() as int) =~= potential(marks@));
    }
    keep
}

/// Largest orthogonally connected group of cells accepted by `keep`.
fn largest_region(grid: &Grid, keep: &Vec<bool>) -> (largest: usize)
    requires
        grid.wf(),
        keep@.len() == grid.size(),
    ensures
        largest == largest_region_size(grid, keep@),
{
    let n = grid.len();
    let ghost kp = keep@;
    let mut labels: Vec<usize> = vec![usize::MAX; n];
    let mut largest: usize = 0;
    let mut start: usize = 0;
    while start < n
        invariant
            grid.wf(),
            kp == keep@,
            n == grid.size(),
            kp.len() == n,
            labels@.len() == n,
            start <= n,
            largest == largest_upto(grid, kp, start as int),
            labels_closed(grid, kp, labels@),
            forall|j: int| 0 <= j < n && j < start && kp[j] ==> #[trigger] labels@[j] != usize::MAX,
            forall|j: int| 0 <= j < n && #[trigger] labels@[j] != usize::MAX ==> labels@[j] < start,
            forall|j: int|
                0 <= j < n && #[trigger] labels@[j] != usize::MAX ==> region_size(grid, kp, j)
                    <= largest,
            forall|a: int, b: int|
                0 <= a < n && 0 <= b < n && #[trigger] labels@[a] != usize::MAX ==> ((labels@[a]
                    == #[trigger] labels@[b]) == connected(grid, kp, a, b)),
        decreases n - start,
    {
        let s = start;
        if labels[s] == usize::MAX && keep[s] {
            let ghost old_labels = labels@;
            let size = fill(grid, keep, s, &mut labels, s);
            proof {
                lemma_connected_refl_pub(grid, kp, s as int);
                lemma_count_pred_bound(n as int, |j: int| connected(grid, kp, s as int, j));
                assert forall|j: int|
                    0 <= j < n && #[trigger] labels@[j] != usize::MAX implies region_size(
                    grid,
                    kp,
                    j,
                ) <= if size > largest {
                    size
                } else {
                    largest
                } by {
                    if connected(grid, kp, s as int, j) {
                        lemma_region_size_connected(grid, kp, s as int, j);
                    }
                }
                assert forall|a: int, b: int|
                    0 <= a < n && 0 <= b < n && #[trigger] labels@[a] != usize::MAX implies ((
                    labels@[a] == #[trigger] labels@[b]) == connected(grid, kp, a, b)) by {
                    if connected(grid, kp, s as int, a) {
                        lemma_connected_symmetric(grid, kp, s as int, a);
                        if connected(grid, kp, s as int, b) {
                            lemma_connected_trans(grid, kp, a, s as int, b);
                        }
                        if connected(grid, kp, a, b) {
                            lemma_connected_trans(grid, kp, s as int, a, b);
                        }
                    } else {
                        assert(old_labels[a] != usize::MAX);
                        if connected(grid, kp, s as int, b) {
                            assert(old_labels[b] == usize::MAX);
                            if connected(grid, kp, a, b) {
                                assert(old_labels[a] == old_labels[b]);
                            }
                        }
                    }
                }
                assert forall|j: int| 0 <= j < n && #[trigger] labels@[j] != usize::MAX implies labels@[j]
                    < start + 1 by {
                    if connected(grid, kp, s as int, j) {
                    }
                }
            }
            if size > largest {
                largest = size;
            }
        } else {
            proof {
                if kp[s as int] {
                    assert(labels@[s as int] != usize::MAX);
                }
            }
        }
        start = start + 1;
    }
    largest
}

/// The cells that show nothing: not a clue and not a wall.
pub open spec fn blank_cells(cells: Seq<u8>, is_clue: Seq<bool>) -> Seq<bool> {
    Seq::new(cells.len(), |i: int| cells[i] != BLACK && !is_clue[i])
}

/// The white cells without a single black neighbour.
pub open spec fn clueless_cells(g: &Grid, cells: Seq<u8>) -> Seq<bool> {
    Seq::new(
        cells.len(),
        |i: int| cells[i] == WHITE && forall|k: int| 0 <= k < 8 ==> !#[trigger] black_nb(g, cells, i, k),
    )
}

/// Largest orthogonally connected group of cells that show nothing: not a clue
/// and not a wall. This is what a player perceives as an empty patch of board.
pub fn largest_blank_region(grid: &Grid, cells: &[u8], is_clue: &[bool]) -> (r: usize)
    requires
        grid.wf(),
        cells@.len() == grid.size(),
        is_clue@.len() == grid.size(),
    ensures
        r == largest_region_size(grid, blank_cells(cells@, is_clue@)),
{
    let mut keep: Vec<bool> = Vec::new();
    let mut i: usize = 0;
    while i < cells.len()
        invariant
            i <= cells@.len(),
            is_clue@.len() == cells@.len(),
            keep@ == blank_cells(cells@, is_clue@).take(i as int),
        decreases cells@.len() - i,
    {
        keep.push(cells[i] != BLACK && !is_clue[i]);
        proof {
            assert(keep@ =~= blank_cells(cells@, is_clue@).take(i + 1));
        }
        i = i + 1;
    }
    proof {
        assert(blank_cells(cells@, is_clue@).take(cells@.len() as int) =~= blank_cells(
            cells@,
            is_clue@,
        ));
    }
    largest_region(grid, &keep)
}

/// Largest orthogonally connected group of white cells that have no black
/// neighbour at all. Such cells produce no clue, so big groups of them are the
/// blank patches the generator tries to avoid.
pub fn largest_clueless_region(grid: &Grid, cells: &[u8]) -> (r: usize)
    requires
        grid.wf(),
        cells@.len() == grid.size(),
    ensures
        r == largest_region_size(grid, clueless_cells(grid, cells@)),
{
    let n = grid.len();
    let mut keep: Vec<bool> = Vec::new();
    let mut i: usize = 0;
    while i < n
        invariant
            grid.wf(),
            n == grid.size(),
            cells@.len() == n,
            i <= n,
            keep@ == clueless_cells(grid, cells@).take(i as int),
        decreases n - i,
    {
        let nbs = grid.neighbors(i);
        let mut quiet = cells[i] == WHITE;
        let mut k: usize = 0;
        while k < 8
            invariant
                grid.wf(),
                n == grid.size(),
                cells@.len() == n,
                i < n,
                k <= 8,
                forall|j: int| 0 <= j < 8 ==> #[trigger] nbs@[j] == grid.nb(i as int, j),
                quiet == (cells@[i as int] == WHITE && forall|j: int|
                    0 <= j < k ==> !#[trigger] black_nb(grid, cells@, i as int, j)),
            decreases 8 - k,
        {
            let ghost before = quiet;
            proof {
                assert(nbs@[k as int] == grid.nb(i as int, k as int));
            }
            if let Some(nb) = nbs[k] {
                proof {
                    lemma_nb_in_range(grid, i as int, k as int);
                }
                if cells[nb] == BLACK {
                    quiet = false;
                }
            }
            proof {
                let bk = black_nb(grid, cells@, i as int, k as int);
                assert(quiet == (before && !bk));
                if quiet {
                    assert forall|j: int| 0 <= j < k + 1 implies !#[trigger] black_nb(
                        grid,
                        cells@,
                        i as int,
                        j,
                    ) by {
                        if j < k {
                        }
                    }
                }
            }
            k = k + 1;
        }
        keep.push(quiet);
        proof {
            assert(keep@ =~= clueless_cells(grid, cells@).take(i + 1));
        }
        i = i + 1;
    }
    proof {
        assert(clueless_cells(grid, cells@).take(n as int) =~= clueless_cells(grid, cells@));
    }
    largest_region(grid, &keep)
}

// ---------------------------------------------------------------------------
// Validation
// ---------------------------------------------------------------------------

/// `t` is the top-left cell of a 2x2 block on the board.
pub open spec fn block_at(g: &Grid, t: int) -> bool {
    &&& 0 <= t < g.size()
    &&& col(g.w as int, t) + 1 < g.w
    &&& row(g.w as int, t) + 1 < g.h
}

/// The 2x2 block with top-left cell `t` is all walls.
pub open spec fn black_block(g: &Grid, cells: Seq<u8>, t: int) -> bool {
    let w = g.w as int;
    &&& block_at(g, t)
    &&& cells[t] == BLACK
    &&& cells[t + 1] == BLACK
    &&& cells[t + w] == BLACK
    &&& cells[t + w + 1] == BLACK
}

/// `(x,y)` of cell `i`.
pub open spec fn at_text(w: int, i: int) -> Seq<char> {
    "("@ + decimal(col(w, i) as nat) + ","@ + decimal(row(w, i) as nat) + ")"@
}

pub open spec fn empty_cell_text(w: int, i: int) -> Seq<char> {
    "cell "@ + at_text(w, i) + " is empty"@
}

pub open spec fn clue_cell_text(w: int, i: int) -> Seq<char> {
    "clue cell "@ + at_text(w, i) + " must be empty"@
}

pub open spec fn mismatch_text(w: int, i: int, clue: Seq<u8>, actual: Seq<u8>) -> Seq<char> {
    "clue at "@ + at_text(w, i) + " is '"@ + clue_chars(clue) + "' but the grid gives '"@ + clue_chars(
        actual,
    ) + "'"@
}

pub open spec fn block_text(w: int, t: int) -> Seq<char> {
    "2x2 black block at "@ + at_text(w, t)
}

pub open spec fn disconnected_text(reached: nat, total: nat) -> Seq<char> {
    "black cells are not connected ("@ + decimal(reached) + " of "@ + decimal(total)
        + " reachable)"@
}

/// One message per undecided cell among `0..k`.
pub open spec fn empty_messages(g: &Grid, cells: Seq<u8>, k: int) -> Seq<Seq<char>>
    decreases k,
{
    if k <= 0 {
        Seq::empty()
    } else if cells[k - 1] == UNKNOWN {
        empty_messages(g, cells, k - 1).push(empty_cell_text(g.w as int, k - 1))
    } else {
        empty_messages(g, cells, k - 1)
    }
}

/// The messages of the clue entries `0..t`: a clue cell that is not empty,
/// and a clue that the walls around it do not match.
pub open spec fn clue_messages(g: &Grid, cells: Seq<u8>, clues: Seq<(usize, Clue)>, t: int) -> Seq<
    Seq<char>,
>
    decreases t,
{
    if t <= 0 {
        Seq::empty()
    } else {
        let prev = clue_messages(g, cells, clues, t - 1);
        let i = clues[t - 1].0 as int;
        let clue = clues[t - 1].1@;
        let w = g.w as int;
        let with_white = if cells[i] != WHITE {
            prev.push(clue_cell_text(w, i))
        } else {
            prev
        };
        let actual = mask_runs(cell_mask(g, cells, i));
        if !is_rotation_of(actual, clue) {
            with_white.push(mismatch_text(w, i, clue, actual))
        } else {
            with_white
        }
    }
}

/// One message per all-black 2x2 block whose top-left cell is among `0..k`.
pub open spec fn block_messages(g: &Grid, cells: Seq<u8>, k: int) -> Seq<Seq<char>>
    decreases k,
{
    if k <= 0 {
        Seq::empty()
    } else if black_block(g, cells, k - 1) {
        block_messages(g, cells, k - 1).push(block_text(g.w as int, k - 1))
    } else {
        block_messages(g, cells, k - 1)
    }
}

/// First wall among the cells `k..`, or the board size when there is none.
pub open spec fn first_wall_from(cells: Seq<u8>, k: int) -> int
    decreases cells.len() - k,
{
    if k >= cells.len() {
        cells.len() as int
    } else if cells[k] == BLACK {
        k
    } else {
        first_wall_from(cells, k + 1)
    }
}

pub open spec fn wall_count(cells: Seq<u8>) -> nat {
    count_pred(cells.len() as int, |i: int| cells[i] == BLACK)
}

/// The connectivity message: how many walls the first wall reaches.
pub open spec fn connectivity_messages(g: &Grid, cells: Seq<u8>) -> Seq<Seq<char>> {
    let first = first_wall_from(cells, 0);
    if first >= cells.len() {
        Seq::empty()
    } else if region_size(g, walls(cells), first) != wall_count(cells) {
        seq![disconnected_text(region_size(g, walls(cells), first), wall_count(cells))]
    } else {
        Seq::empty()
    }
}

/// All rule violations of a board, in the order they are reported: the
/// undecided cells if there are any, otherwise the clue problems, the 2x2
/// blocks and the connectivity of the walls.
pub open spec fn validation_messages(g: &Grid, cells: Seq<u8>, clues: Seq<(usize, Clue)>) -> Seq<
    Seq<char>,
> {
    let empty = empty_messages(g, cells, cells.len() as int);
    if empty.len() > 0 {
        empty
    } else {
        clue_messages(g, cells, clues, clues.len() as int) + block_messages(
            g,
            cells,
            cells.len() as int,
        ) + connectivity_messages(g, cells)
    }
}

/// `(x,y)` of cell `i`, appended.
pub(crate) fn push_at(s: &mut String, grid: &Grid, i: usize)
    requires
        grid.wf(),
        i < grid.size(),
    ensures
        final(s)@ == old(s)@ + at_text(grid.w as int, i as int),
{
    let (x, y) = grid.xy(i);
    s.append("(");
    push_decimal(s, x);
    s.append(",");
    push_decimal(s, y);
    s.append(")");
    proof {
        assert(final(s)@ =~= old(s)@ + at_text(grid.w as int, i as int));
    }
}

fn wall_total(cells: &[u8]) -> (r: usize)
    ensures
        r == wall_count(cells@),
{
    let mut total: usize = 0;
    let mut i: usize = 0;
    while i < cells.len()
        invariant
            i <= cells@.len(),
            total == count_pred(i as int, |j: int| cells@[j] == BLACK),
            total <= i,
        decreases cells@.len() - i,
    {
        if cells[i] == BLACK {
            total = total + 1;
        }
        i = i + 1;
    }
    total
}

/// Check a fully or partially filled grid against the rules.
/// Returns a list of human readable rule violations (empty = everything fine).
pub fn validate(grid: &Grid, cells: &[u8], clues: &[(usize, Clue)]) -> (errors: Vec<String>)
    requires
        grid.wf(),
        cells@.len() == grid.size(),
        forall|t: int| 0 <= t < clues@.len() ==> (#[trigger] clues@[t]).0 < grid.size(),
        forall|t: int, j: int|
            0 <= t < clues@.len() && 0 <= j < clues@[t].1@.len() ==> #[trigger] clues@[t].1@[j]
                <= 207,
    ensures
        errors@.len() == validation_messages(grid, cells@, clues@).len(),
        forall|e: int|
            0 <= e < errors@.len() ==> #[trigger] errors@[e]@ == validation_messages(
                grid,
                cells@,
                clues@,
            )[e],
{
    let n = grid.len();
    let w = grid.w;
    let mut errors: Vec<String> = Vec::new();
    let ghost mut msgs: Seq<Seq<char>> = Seq::empty();

    let mut i: usize = 0;
    while i < n
        invariant
            grid.wf(),
            n == grid.size(),
            w == grid.w,
            cells@.len() == n,
            i <= n,
            msgs == empty_messages(grid, cells@, i as int),
            errors@.len() == msgs.len(),
            forall|e: int| 0 <= e < errors@.len() ==> #[trigger] errors@[e]@ == msgs[e],
        decreases n - i,
    {
        if cells[i] == UNKNOWN {
            let mut text = String::from_str("cell ");
            push_at(&mut text, grid, i);
            text.append(" is empty");
            proof {
                assert(text@ =~= empty_cell_text(w as int, i as int));
                msgs = msgs.push(text@);
            }
            errors.push(text);
        }
        i = i + 1;
    }
    if errors.len() > 0 {
        return errors;
    }
    let ghost empty_part = msgs;

    let mut t: usize = 0;
    while t < clues.len()
        invariant
            grid.wf(),
            n == grid.size(),
            w == grid.w,
            cells@.len() == n,
            forall|t: int| 0 <= t < clues@.len() ==> (#[trigger] clues@[t]).0 < grid.size(),
            forall|t: int, j: int|
                0 <= t < clues@.len() && 0 <= j < clues@[t].1@.len() ==> #[trigger] clues@[t].1@[j]
                    <= 207,
            t <= clues@.len(),
            msgs == clue_messages(grid, cells@, clues@, t as int),
            errors@.len() == msgs.len(),
            forall|e: int| 0 <= e < errors@.len() ==> #[trigger] errors@[e]@ == msgs[e],
        decreases clues@.len() - t,
    {
        let idx = clues[t].0;
        let clue = &clues[t].1;
        if cells[idx] != WHITE {
            let mut text = String::from_str("clue cell ");
            push_at(&mut text, grid, idx);
            text.append(" must be empty");
            proof {
                assert(text@ =~= clue_cell_text(w as int, idx as int));
                msgs = msgs.push(text@);
            }
            errors.push(text);
        }
        let actual = clue_of(cells, grid, idx);
        let ok = crate::model::matches_rotation_pub(actual.as_slice(), clue.as_slice());
        if !ok {
            proof {
                crate::model::lemma_mask_runs_small(cell_mask(grid, cells@, idx as int));
            }
            let mut text = String::from_str("clue at ");
            push_at(&mut text, grid, idx);
            text.append(" is '");
            let ct = clue_text(clue.as_slice());
            text.append(ct.as_str());
            text.append("' but the grid gives '");
            let at = clue_text(actual.as_slice());
            text.append(at.as_str());
            text.append("'");
            proof {
                assert(text@ =~= mismatch_text(w as int, idx as int, clue@, actual@));
                msgs = msgs.push(text@);
            }
            errors.push(text);
        }
        t = t + 1;
    }
    let ghost clue_part = msgs;
    proof {
        msgs = Seq::empty();
    }
    let mut blocks: Vec<String> = Vec::new();
    let mut k: usize = 0;
    while k < n
        invariant
            grid.wf(),
            n == grid.size(),
            w == grid.w,
            cells@.len() == n,
            k <= n,
            msgs == block_messages(grid, cells@, k as int),
            blocks@.len() == msgs.len(),
            forall|e: int| 0 <= e < blocks@.len() ==> #[trigger] blocks@[e]@ == msgs[e],
        decreases n - k,
    {
        let (x, y) = grid.xy(k);
        if x + 1 < grid.w && y + 1 < grid.h {
            proof {
                crate::grid::lemma_cell_coords(grid.w as int, grid.h as int, k as int);
                assert(k + w + 1 < n) by (nonlinear_arith)
                    requires
                        k == y * w + x,
                        x + 1 < w,
                        y + 1 < grid.h,
                        n == w * grid.h,
                ;
            }
            if cells[k] == BLACK && cells[k + 1] == BLACK && cells[k + w] == BLACK && cells[k + w
                + 1] == BLACK {
                let mut text = String::from_str("2x2 black block at ");
                push_at(&mut text, grid, k);
                proof {
                    assert(text@ =~= block_text(w as int, k as int));
                    msgs = msgs.push(text@);
                }
                blocks.push(text);
            }
        }
        k = k + 1;
    }
    let ghost block_part = msgs;
    let mut b: usize = 0;
    while b < blocks.len()
        invariant
            b <= blocks@.len(),
            errors@.len() == clue_part.len() + b,
            blocks@.len() == block_part.len(),
            forall|e: int| 0 <= e < blocks@.len() ==> #[trigger] blocks@[e]@ == block_part[e],
            forall|e: int|
                0 <= e < errors@.len() ==> #[trigger] errors@[e]@ == (clue_part + block_part)[e],
        decreases blocks@.len() - b,
    {
        let text = blocks[b].clone();
        errors.push(text);
        b = b + 1;
    }

    // Connectivity of the black cells.
    let mut first: usize = 0;
    while first < n && cells[first] != BLACK
        invariant
            n == cells@.len(),
            first <= n,
            first_wall_from(cells@, 0) == first_wall_from(cells@, first as int),
        decreases n - first,
    {
        first = first + 1;
    }
    let ghost mut conn_part: Seq<Seq<char>> = Seq::empty();
    if first < n {
        let keep = wall_mask(cells);
        let mut labels: Vec<usize> = vec![usize::MAX; n];
        proof {
            assert(labels_closed(grid, keep@, labels@));
        }
        let reached = fill(grid, &keep, first, &mut labels, 0);
        let total = wall_total(cells);
        if reached != total {
            let mut text = String::from_str("black cells are not connected (");
            push_decimal(&mut text, reached);
            text.append(" of ");
            push_decimal(&mut text, total);
            text.append(" reachable)");
            proof {
                assert(text@ =~= disconnected_text(reached as nat, total as nat));
                conn_part = seq![text@];
            }
            errors.push(text);
        }
    }
    proof {
        assert(empty_part.len() == 0);
        assert(connectivity_messages(grid, cells@) =~= conn_part);
        assert(validation_messages(grid, cells@, clues@) =~= clue_part + block_part + conn_part);
    }
    errors
}

// ---------------------------------------------------------------------------
// Lines
// ---------------------------------------------------------------------------

/// Cells `a` and `b` are different and touch, at a side or a corner.
pub open spec fn king_step(g: &Grid, a: int, b: int) -> bool {
    let w = g.w as int;
    &&& a != b
    &&& -1 <= col(w, a) - col(w, b) <= 1
    &&& -1 <= row(w, a) - row(w, b) <= 1
}

/// One step of the line drawing from offset `a` on a line `dx` across and
/// `dy` down: with the error term `dx - dy` corrected for the steps taken,
/// step across when twice the error exceeds `-dy`, and down when it is
/// below `dx`.
pub open spec fn line_step(dx: int, dy: int, a: (int, int)) -> (int, int) {
    let err = dx - dy - a.0 * dy + a.1 * dx;
    (a.0 + if 2 * err > -dy {
        1int
    } else {
        0int
    }, a.1 + if 2 * err < dx {
        1int
    } else {
        0int
    })
}

/// The offset, across and down, of point `e` of the line drawing.
#[verifier::opaque]
pub open spec fn line_offset(dx: int, dy: int, e: nat) -> (int, int)
    decreases e,
{
    if e == 0 {
        (0, 0)
    } else {
        line_step(dx, dy, line_offset(dx, dy, (e - 1) as nat))
    }
}

proof fn lemma_line_advance(dx: int, dy: int, n: nat, ax0: int, ay0: int, ax: int, ay: int, e2: int)
    requires
        (ax0, ay0) == line_offset(dx, dy, n),
        e2 == 2 * (dx - dy - ax0 * dy + ay0 * dx),
        ax == ax0 + if e2 > -dy {
            1int
        } else {
            0int
        },
        ay == ay0 + if e2 < dx {
            1int
        } else {
            0int
        },
    ensures
        (ax, ay) == line_offset(dx, dy, n + 1),
{
    reveal_with_fuel(line_offset, 2);
}

proof fn lemma_line_cell_at(
    g: &Grid,
    from: int,
    to: int,
    e: nat,
    x0: int,
    y0: int,
    dx: int,
    dy: int,
    sx: int,
    sy: int,
    ax: int,
    ay: int,
)
    requires
        col(g.w as int, from) == x0,
        row(g.w as int, from) == y0,
        dx == (if col(g.w as int, to) >= x0 {
            col(g.w as int, to) - x0
        } else {
            x0 - col(g.w as int, to)
        }),
        dy == (if row(g.w as int, to) >= y0 {
            row(g.w as int, to) - y0
        } else {
            y0 - row(g.w as int, to)
        }),
        sx == (if x0 < col(g.w as int, to) {
            1int
        } else {
            -1int
        }),
        sy == (if y0 < row(g.w as int, to) {
            1int
        } else {
            -1int
        }),
        (ax, ay) == line_offset(dx, dy, e),
    ensures
        line_cell(g, from, to, e) == (y0 + sy * ay) * g.w + (x0 + sx * ax),
{
    reveal(line_cell);
}

/// Point `e` of the line drawn from cell `from` towards cell `to`.
#[verifier::opaque]
pub open spec fn line_cell(g: &Grid, from: int, to: int, e: nat) -> int {
    let w = g.w as int;
    let x0 = col(w, from);
    let y0 = row(w, from);
    let x1 = col(w, to);
    let y1 = row(w, to);
    let dx = if x1 >= x0 {
        x1 - x0
    } else {
        x0 - x1
    };
    let dy = if y1 >= y0 {
        y1 - y0
    } else {
        y0 - y1
    };
    let sx = if x0 < x1 {
        1int
    } else {
        -1int
    };
    let sy = if y0 < y1 {
        1int
    } else {
        -1int
    };
    let o = line_offset(dx, dy, e);
    (y0 + sy * o.1) * w + (x0 + sx * o.0)
}

/// Cells on the line between two cells, inclusive of both ends. Used so a
/// quick drag paints every cell the cursor crossed instead of leaving gaps.
///
/// The line is a shortest chain of touching cells from one end to the other,
/// stepped by Bresenham's rule ([`line_step`]).
#[verifier::rlimit(100)]
#[verifier::spinoff_prover]
pub fn line_cells(grid: &Grid, from: usize, to: usize) -> (out: Vec<usize>)
    requires
        grid.wf(),
        from < grid.size(),
        to < grid.size(),
        grid.w <= i32::MAX,
        grid.h <= i32::MAX,
    ensures
        out@.len() >= 1,
        out@[0] == from,
        out@.last() == to,
        forall|e: int| 0 <= e < out@.len() ==> #[trigger] out@[e] < grid.size(),
        forall|e: int|
            0 <= e < out@.len() - 1 ==> king_step(grid, #[trigger] out@[e] as int, out@[e + 1] as int),
        out@.len() == chebyshev_distance(grid, from as int, to as int) + 1,
        forall|e: int| 0 <= e < out@.len() ==> out@[e] == #[trigger] line_cell(grid, from as int, to as int, e as nat),
{
    let (x0, y0) = grid.xy(from);
    let (x1, y1) = grid.xy(to);
    proof {
        crate::grid::lemma_cell_coords(grid.w as int, grid.h as int, from as int);
        crate::grid::lemma_cell_coords(grid.w as int, grid.h as int, to as int);
    }
    let ghost w = grid.w as int;
    let ghost h = grid.h as int;
    let mut x: i64 = x0 as i64;
    let mut y: i64 = y0 as i64;
    let tx: i64 = x1 as i64;
    let ty: i64 = y1 as i64;
    let dx: i64 = if tx >= x {
        tx - x
    } else {
        x - tx
    };
    let dy: i64 = if ty >= y {
        ty - y
    } else {
        y - ty
    };
    let sx: i64 = if x < tx {
        1
    } else {
        -1
    };
    let sy: i64 = if y < ty {
        1
    } else {
        -1
    };
    let mut err: i64 = dx - dy;
    let ghost mut ax: int = 0;
    let ghost mut ay: int = 0;
    proof {
        reveal_with_fuel(line_offset, 1);
    }
    let mut out: Vec<usize> = Vec::new();
    loop
        invariant_except_break
            grid.wf(),
            w == grid.w,
            h == grid.h,
            0 <= x0 < w,
            0 <= y0 < h,
            0 <= tx < w,
            0 <= ty < h,
            w <= i32::MAX,
            h <= i32::MAX,
            from == y0 * w + x0,
            to == ty * w + tx,
            col(w, to as int) == tx,
            row(w, to as int) == ty,
            0 <= dx < w,
            0 <= dy < h,
            sx == 1 || sx == -1,
            sy == 1 || sy == -1,
            tx == x0 + sx * dx,
            ty == y0 + sy * dy,
            0 <= ax <= dx,
            0 <= ay <= dy,
            x == x0 + sx * ax,
            y == y0 + sy * ay,
            err == dx - dy - ax * dy + ay * dx,
            out@.len() == 0 ==> ax == 0 && ay == 0,
            out@.len() == if dx >= dy {
                ax
            } else {
                ay
            },
            dx >= dy && dx > 0 ==> dy - 2 * dx < 2 * (err - dx + dy) < 2 * dx - dy,
            dy > dx ==> dx - 2 * dy < 2 * (err - dx + dy) < 2 * dy - dx,
            chebyshev_distance(grid, from as int, to as int) == if dx >= dy {
                dx
            } else {
                dy
            },
            out@.len() >= 1 ==> out@[0] == from,
            (ax, ay) == line_offset(dx as int, dy as int, out@.len() as nat),
            col(w, from as int) == x0,
            row(w, from as int) == y0,
            sx == if x0 < tx { 1int } else { -1int },
            sy == if y0 < ty { 1int } else { -1int },
            dx == if tx >= x0 { tx - x0 } else { x0 - tx },
            dy == if ty >= y0 { ty - y0 } else { y0 - ty },
            forall|e: int| 0 <= e < out@.len() ==> out@[e] == #[trigger] line_cell(grid, from as int, to as int, e as nat),
            out@.len() >= 1 ==> king_step(grid, out@.last() as int, y * w + x),
            forall|e: int| 0 <= e < out@.len() ==> #[trigger] out@[e] < grid.size(),
            forall|e: int|
                0 <= e < out@.len() - 1 ==> king_step(grid, #[trigger] out@[e] as int, out@[e + 1] as int),
        ensures
            out@.len() >= 1,
            out@[0] == from,
            out@.last() == to,
            forall|e: int| 0 <= e < out@.len() ==> #[trigger] out@[e] < grid.size(),
            forall|e: int|
                0 <= e < out@.len() - 1 ==> king_step(grid, #[trigger] out@[e] as int, out@[e + 1] as int),
            out@.len() == chebyshev_distance(grid, from as int, to as int) + 1,
            forall|e: int| 0 <= e < out@.len() ==> out@[e] == #[trigger] line_cell(grid, from as int, to as int, e as nat),
        decreases dx - ax + dy - ay,
    {
        proof {
            assert(0 <= x < w && 0 <= y < h) by (nonlinear_arith)
                requires
                    0 <= x0 < w,
                    0 <= tx < w,
                    tx == x0 + sx * dx,
                    x == x0 + sx * ax,
                    0 <= ax <= dx,
                    sx == 1 || sx == -1,
                    0 <= y0 < h,
                    0 <= ty < h,
                    ty == y0 + sy * dy,
                    y == y0 + sy * ay,
                    0 <= ay <= dy,
                    sy == 1 || sy == -1,
            ;
            crate::grid::lemma_idx_coords(w, h, x as int, y as int);
        }
        let ghost prev = out@;
        let cell = grid.idx(x as usize, y as usize);
        out.push(cell);
        let ghost ax0 = ax;
        let ghost ay0 = ay;
        let ghost err0 = err as int;
        proof {
            lemma_line_cell_at(
                grid,
                from as int,
                to as int,
                prev.len(),
                x0 as int,
                y0 as int,
                dx as int,
                dy as int,
                sx as int,
                sy as int,
                ax,
                ay,
            );
            assert(cell == y * w + x);
            assert(out@[prev.len() as int] == line_cell(grid, from as int, to as int, prev.len()));
            assert forall|e: int|
                0 <= e < out@.len() - 1 implies king_step(grid, #[trigger] out@[e] as int, out@[e + 1] as int) by {
                if e < prev.len() - 1 {
                    assert(out@[e] == prev[e] && out@[e + 1] == prev[e + 1]);
                } else {
                    assert(out@[e] == prev.last());
                }
            }
            assert forall|e: int| 0 <= e < out@.len() implies out@[e] == #[trigger] line_cell(
                grid,
                from as int,
                to as int,
                e as nat,
            ) by {
                if e < prev.len() {
                    assert(out@[e] == prev[e]);
                }
            }
        }
        if x == tx && y == ty {
            proof {
                assert(cell == to);
                assert(ax == dx && ay == dy) by (nonlinear_arith)
                    requires
                        x == tx,
                        y == ty,
                        tx == x0 + sx * dx,
                        ty == y0 + sy * dy,
                        x == x0 + sx * ax,
                        y == y0 + sy * ay,
                        sx == 1 || sx == -1,
                        sy == 1 || sy == -1,
                ;
            }
            break;
        }
        proof {
            // not at the target yet, so the remaining distance is positive
            assert(ax < dx || ay < dy) by (nonlinear_arith)
                requires
                    !(x == tx && y == ty),
                    tx == x0 + sx * dx,
                    ty == y0 + sy * dy,
                    x == x0 + sx * ax,
                    y == y0 + sy * ay,
                    0 <= ax <= dx,
                    0 <= ay <= dy,
            ;
            assert(-(dy * (dx + 1)) <= err <= dx * (dy + 1)) by (nonlinear_arith)
                requires
                    err == dx - dy - ax * dy + ay * dx,
                    0 <= ax <= dx,
                    0 <= ay <= dy,
            ;
            assert(dx * (dy + 1) < 0x4000_0000_0000_0000 && dy * (dx + 1) < 0x4000_0000_0000_0000)
                by (nonlinear_arith)
                requires
                    0 <= dx < 0x7fff_ffff,
                    0 <= dy < 0x7fff_ffff,
            ;
        }
        let e2 = 2 * err;
        proof {
            assert(e2 > -dy || e2 < dx);
            // the longer direction moves at every step
            assert(dx >= dy ==> e2 > -dy);
            assert(dy > dx ==> e2 < dx);
        }
        let ghost (x_before, y_before) = (x, y);
        if e2 > -dy {
            proof {
                // no step past the target column
                assert(ax < dx) by (nonlinear_arith)
                    requires
                        2 * err > -dy,
                        err == dx - dy - ax * dy + ay * dx,
                        ax < dx || ay < dy,
                        0 <= ax <= dx,
                        0 <= ay <= dy,
                ;
                assert(err - dy == dx - dy - (ax + 1) * dy + ay * dx) by (nonlinear_arith)
                    requires
                        err == dx - dy - ax * dy + ay * dx,
                ;
                assert(x + sx == x0 + sx * (ax + 1)) by (nonlinear_arith)
                    requires
                        x == x0 + sx * ax,
                ;
                ax = ax + 1;
            }
            err = err - dy;
            x = x + sx;
        }
        if e2 < dx {
            proof {
                assert(ay < dy) by (nonlinear_arith)
                    requires
                        2 * (err + (if x_before != x {
                            dy
                        } else {
                            0
                        })) < dx,
                        err + (if x_before != x {
                            dy
                        } else {
                            0
                        }) == dx - dy - (ax - (if x_before != x {
                            1int
                        } else {
                            0
                        })) * dy + ay * dx,
                        0 <= ax <= dx,
                        0 <= ay <= dy,
                        x_before != x ==> ax >= 1,
                        ax - (if x_before != x {
                            1int
                        } else {
                            0
                        }) < dx || ay < dy,
                ;
                assert(err + dx == dx - dy - ax * dy + (ay + 1) * dx) by (nonlinear_arith)
                    requires
                        err == dx - dy - ax * dy + ay * dx,
                ;
                assert(y + sy == y0 + sy * (ay + 1)) by (nonlinear_arith)
                    requires
                        y == y0 + sy * ay,
                ;
                ay = ay + 1;
            }
            err = err + dx;
            y = y + sy;
        }
        proof {
            // at least one coordinate moved
            assert(x != x_before || y != y_before);
            assert(0 <= x < w && 0 <= y < h) by (nonlinear_arith)
                requires
                    0 <= x0 < w,
                    0 <= tx < w,
                    tx == x0 + sx * dx,
                    x == x0 + sx * ax,
                    0 <= ax <= dx,
                    sx == 1 || sx == -1,
                    0 <= y0 < h,
                    0 <= ty < h,
                    ty == y0 + sy * dy,
                    y == y0 + sy * ay,
                    0 <= ay <= dy,
                    sy == 1 || sy == -1,
            ;
            crate::grid::lemma_idx_coords(w, h, x as int, y as int);
            crate::grid::lemma_idx_coords(w, h, x_before as int, y_before as int);
            assert(out@.last() as int == y_before * w + x_before);
            assert(err0 == dx - dy - ax0 * dy + ay0 * dx);
            assert(ax == ax0 + if e2 > -dy { 1int } else { 0int });
            assert(ay == ay0 + if e2 < dx { 1int } else { 0int });
            lemma_line_advance(dx as int, dy as int, prev.len(), ax0, ay0, ax, ay, e2 as int);
        }
    }
    out
}

// ---------------------------------------------------------------------------
// Live feedback
// ---------------------------------------------------------------------------

/// Cell `i` lies in an all-black 2x2 block.
pub open spec fn in_black_block(g: &Grid, marks: Seq<u8>, i: int) -> bool {
    let w = g.w as int;
    exists|t: int|
        #[trigger] black_block(g, marks, t) && (i == t || i == t + 1 || i == t + w || i == t + w + 1)
}

/// Some clue at cell `i` can no longer be met.
pub open spec fn unsatisfied_at(g: &Grid, marks: Seq<u8>, clues: Seq<(usize, Clue)>, i: int) -> bool {
    exists|t: int|
        0 <= t < clues.len() && (#[trigger] clues[t]).0 == i && !satisfiable(
            g,
            marks,
            i,
            clues[t].1@,
        )
}

/// The first cell from `k` on whose region has the largest size.
pub open spec fn first_largest_from(g: &Grid, keep: Seq<bool>, k: int) -> int
    decreases g.size() - k,
{
    if k >= g.size() {
        g.size()
    } else if keep[k] && region_size(g, keep, k) == largest_region_size(g, keep) {
        k
    } else {
        first_largest_from(g, keep, k + 1)
    }
}

/// A cell of the main play area: the largest region, where a tie prefers the
/// region of the cell the player just touched, and otherwise the region that
/// starts first.
pub open spec fn main_cell(g: &Grid, keep: Seq<bool>, focus: Option<usize>) -> int {
    match focus {
        Some(f) => if (f as int) < g.size() && keep[f as int] && region_size(g, keep, f as int)
            == largest_region_size(g, keep) {
            f as int
        } else {
            first_largest_from(g, keep, 0)
        },
        None => first_largest_from(g, keep, 0),
    }
}

/// A wall that can never join the main play area: every way to it is
/// blocked by cells marked empty.
pub open spec fn sealed(g: &Grid, marks: Seq<u8>, focus: Option<usize>, i: int) -> bool {
    marks[i] == BLACK && !connected(
        g,
        potential(marks),
        main_cell(g, potential(marks), focus),
        i,
    )
}

/// Live feedback while the player is still filling the board.
pub struct LiveErrors {
    /// Cells that break a rule right now (drawn with a red outline).
    pub cells: Vec<bool>,
    /// Clue cells whose numbers can no longer be met (drawn in red).
    pub clues: Vec<bool>,
}

impl LiveErrors {
    pub fn any(&self) -> (r: bool)
        ensures
            r == exists|i: int| 0 <= i < self.cells@.len() && #[trigger] self.cells@[i],
    {
        let mut i: usize = 0;
        while i < self.cells.len()
            invariant
                i <= self.cells@.len(),
                forall|j: int| 0 <= j < i ==> !#[trigger] self.cells@[j],
            decreases self.cells@.len() - i,
        {
            if self.cells[i] {
                return true;
            }
            i = i + 1;
        }
        false
    }
}

/// Largest entry of `sz[0..p]`.
pub open spec fn max_prefix(sz: Seq<usize>, p: int) -> int
    decreases p,
{
    if p <= 0 {
        0
    } else if sz[p - 1] as int > max_prefix(sz, p - 1) {
        sz[p - 1] as int
    } else {
        max_prefix(sz, p - 1)
    }
}

proof fn lemma_max_prefix(sz: Seq<usize>, p: int)
    requires
        0 <= p <= sz.len(),
    ensures
        forall|q: int| 0 <= q < p ==> #[trigger] sz[q] <= max_prefix(sz, p),
        p > 0 ==> exists|q: int| 0 <= q < p && #[trigger] sz[q] == max_prefix(sz, p),
        max_prefix(sz, p) >= 0,
    decreases p,
{
    if p > 0 {
        lemma_max_prefix(sz, p - 1);
        if sz[p - 1] as int > max_prefix(sz, p - 1) || p == 1 {
            assert(sz[p - 1] == max_prefix(sz, p));
        } else {
            let q = choose|q: int| 0 <= q < p - 1 && #[trigger] sz[q] == max_prefix(sz, p - 1);
            assert(sz[q] == max_prefix(sz, p));
        }
    }
}

/// Every kept cell's region is no bigger than the largest, and some kept
/// cell's region is exactly the largest unless nothing is kept.
proof fn lemma_largest_upto(g: &Grid, keep: Seq<bool>, k: int)
    requires
        0 <= k <= keep.len(),
    ensures
        forall|c: int| 0 <= c < k && keep[c] ==> #[trigger] region_size(g, keep, c) <= largest_upto(g, keep, k),
        largest_upto(g, keep, k) == 0 || exists|c: int|
            0 <= c < k && keep[c] && #[trigger] region_size(g, keep, c) == largest_upto(g, keep, k),
    decreases k,
{
    if k > 0 {
        lemma_largest_upto(g, keep, k - 1);
    }
}

proof fn lemma_first_largest(g: &Grid, keep: Seq<bool>, k: int)
    requires
        0 <= k <= g.size(),
    ensures
        k <= first_largest_from(g, keep, k) <= g.size(),
        first_largest_from(g, keep, k) < g.size() ==> keep[first_largest_from(g, keep, k)]
            && region_size(g, keep, first_largest_from(g, keep, k)) == largest_region_size(g, keep),
        forall|c: int|
            k <= c < first_largest_from(g, keep, k) ==> !(keep[c] && #[trigger] region_size(g, keep, c)
                == largest_region_size(g, keep)),
    decreases g.size() - k,
{
    if k < g.size() {
        lemma_first_largest(g, keep, k + 1);
    }
}

/// Rules the player has already broken beyond repair.
///
/// Three things are reported:
///   * a 2x2 block of walls,
///   * a clue whose surrounding walls can no longer match its numbers,
///   * a wall group that can never join the main wall group any more, because
///     the cells between them are all marked empty. Groups that are merely
///     separate *for now* (undecided cells still connect them) are not flagged.
pub fn live_errors(grid: &Grid, marks: &[u8], clues: &[(usize, Clue)], focus: Option<usize>) -> (errors:
    LiveErrors)
    requires
        grid.wf(),
        marks@.len() == grid.size(),
        forall|t: int| 0 <= t < clues@.len() ==> (#[trigger] clues@[t]).0 < grid.size(),
    ensures
        errors.cells@.len() == grid.size(),
        errors.clues@.len() == grid.size(),
        forall|i: int|
            0 <= i < grid.size() ==> #[trigger] errors.clues@[i] == unsatisfied_at(
                grid,
                marks@,
                clues@,
                i,
            ),
        forall|i: int|
            0 <= i < grid.size() ==> #[trigger] errors.cells@[i] == (in_black_block(grid, marks@, i)
                || unsatisfied_at(grid, marks@, clues@, i) || sealed(grid, marks@, focus, i)),
{
    let n = grid.len();
    let w = grid.w;
    let mut cells: Vec<bool> = vec![false; n];
    let mut clue_flags: Vec<bool> = vec![false; n];

    // 2x2 walls
    let mut k: usize = 0;
    while k < n
        invariant
            grid.wf(),
            n == grid.size(),
            w == grid.w,
            marks@.len() == n,
            cells@.len() == n,
            k <= n,
            forall|i: int|
                0 <= i < n ==> #[trigger] cells@[i] == exists|t: int|
                    0 <= t < k && #[trigger] black_block(grid, marks@, t) && (i == t || i == t + 1 || i
                        == t + w || i == t + w + 1),
        decreases n - k,
    {
        let (x, y) = grid.xy(k);
        if x + 1 < grid.w && y + 1 < grid.h {
            proof {
                crate::grid::lemma_cell_coords(grid.w as int, grid.h as int, k as int);
                assert(k + w + 1 < n) by (nonlinear_arith)
                    requires
                        k == y * w + x,
                        x + 1 < w,
                        y + 1 < grid.h,
                        n == w * grid.h,
                ;
            }
            if marks[k] == BLACK && marks[k + 1] == BLACK && marks[k + w] == BLACK && marks[k + w
                + 1] == BLACK {
                let ghost before = cells@;
                cells.set(k, true);
                cells.set(k + 1, true);
                cells.set(k + w, true);
                cells.set(k + w + 1, true);
                proof {
                    assert(black_block(grid, marks@, k as int));
                    assert forall|i: int|
                        0 <= i < n implies #[trigger] cells@[i] == exists|t: int|
                        0 <= t < k + 1 && #[trigger] black_block(grid, marks@, t) && (i == t || i == t
                            + 1 || i == t + w || i == t + w + 1) by {
                        if i == k || i == k + 1 || i == k + w || i == k + w + 1 {
                            assert(black_block(grid, marks@, k as int));
                        } else {
                            assert(cells@[i] == before[i]);
                        }
                    }
                }
            } else {
                proof {
                    assert(!black_block(grid, marks@, k as int));
                }
            }
        } else {
            proof {
                assert(!black_block(grid, marks@, k as int));
            }
        }
        k = k + 1;
    }
    proof {
        assert forall|i: int| 0 <= i < n implies #[trigger] cells@[i] == in_black_block(grid, marks@, i) by {
            if in_black_block(grid, marks@, i) {
                let t = choose|t: int|
                    #[trigger] black_block(grid, marks@, t) && (i == t || i == t + 1 || i == t + w
                        || i == t + w + 1);
            }
        }
    }

    // clues that can no longer be satisfied
    let mut t: usize = 0;
    while t < clues.len()
        invariant
            grid.wf(),
            n == grid.size(),
            marks@.len() == n,
            cells@.len() == n,
            clue_flags@.len() == n,
            forall|t: int| 0 <= t < clues@.len() ==> (#[trigger] clues@[t]).0 < grid.size(),
            t <= clues@.len(),
            forall|i: int|
                0 <= i < n ==> #[trigger] clue_flags@[i] == exists|u: int|
                    0 <= u < t && (#[trigger] clues@[u]).0 == i && !satisfiable(
                        grid,
                        marks@,
                        i,
                        clues@[u].1@,
                    ),
            forall|i: int|
                0 <= i < n ==> #[trigger] cells@[i] == (in_black_block(grid, marks@, i)
                    || clue_flags@[i]),
        decreases clues@.len() - t,
    {
        let idx = clues[t].0;
        if !clue_satisfiable(grid, marks, idx, &clues[t].1) {
            let ghost bc = cells@;
            let ghost bf = clue_flags@;
            clue_flags.set(idx, true);
            cells.set(idx, true);
            proof {
                assert forall|i: int|
                    0 <= i < n implies #[trigger] clue_flags@[i] == exists|u: int|
                    0 <= u < t + 1 && (#[trigger] clues@[u]).0 == i && !satisfiable(
                        grid,
                        marks@,
                        i,
                        clues@[u].1@,
                    ) by {
                    if i == idx {
                        assert(clues@[t as int].0 == i);
                    } else {
                        assert(clue_flags@[i] == bf[i]);
                    }
                }
                assert forall|i: int|
                    0 <= i < n implies #[trigger] cells@[i] == (in_black_block(grid, marks@, i)
                    || clue_flags@[i]) by {
                    if i != idx {
                        assert(cells@[i] == bc[i]);
                    }
                }
            }
        } else {
            proof {
                assert forall|i: int|
                    0 <= i < n implies #[trigger] clue_flags@[i] == exists|u: int|
                    0 <= u < t + 1 && (#[trigger] clues@[u]).0 == i && !satisfiable(
                        grid,
                        marks@,
                        i,
                        clues@[u].1@,
                    ) by {
                    if exists|u: int|
                        0 <= u < t + 1 && (#[trigger] clues@[u]).0 == i && !satisfiable(
                            grid,
                            marks@,
                            i,
                            clues@[u].1@,
                        ) {
                        let u = choose|u: int|
                            0 <= u < t + 1 && (#[trigger] clues@[u]).0 == i && !satisfiable(
                                grid,
                                marks@,
                                i,
                                clues@[u].1@,
                            );
                        if u == t {
                            assert(false);
                        }
                    }
                }
            }
        }
        t = t + 1;
    }
    proof {
        assert forall|i: int| 0 <= i < n implies #[trigger] clue_flags@[i] == unsatisfied_at(
            grid,
            marks@,
            clues@,
            i,
        ) by {
            if unsatisfied_at(grid, marks@, clues@, i) {
                let u = choose|u: int|
                    0 <= u < clues@.len() && (#[trigger] clues@[u]).0 == i && !satisfiable(
                        grid,
                        marks@,
                        i,
                        clues@[u].1@,
                    );
            }
        }
    }

    // wall groups that are sealed off from the main play area
    //
    // `potential` groups the cells that could still become black (walls plus
    // undecided cells). Two wall groups in the same potential group can still
    // be joined later; groups in different potential groups never can.
    //
    // This also catches a *single* wall group that the player has sealed off
    // with empty marks and clue cells: the solution needs walls outside that
    // pocket too, and none of them could ever reach it.
    let keep = potential_mask(marks);
    let ghost kp = keep@;
    let mut pot: Vec<usize> = vec![usize::MAX; n];
    let (potential_count, Ghost(starts)) = components(grid, &keep, &mut pot);
    let wall_keep = wall_mask(marks);
    let mut wall_id: Vec<usize> = vec![usize::MAX; n];
    let (_wall_groups, _) = components(grid, &wall_keep, &mut wall_id);
    let ghost cells_before = cells@;
    if potential_count > 1 {
        let mut potential_size: Vec<usize> = vec![0; potential_count];
        let mut i: usize = 0;
        while i < n
            invariant
                n == grid.size(),
                pot@.len() == n,
                potential_size@.len() == potential_count,
                forall|j: int| 0 <= j < n && pot@[j] != usize::MAX ==> #[trigger] pot@[j] < potential_count,
                i <= n,
                forall|p: int|
                    0 <= p < potential_count ==> #[trigger] potential_size@[p] == count_pred(
                        i as int,
                        |j: int| pot@[j] == p,
                    ),
                forall|p: int| 0 <= p < potential_count ==> #[trigger] potential_size@[p] <= i,
            decreases n - i,
        {
            if pot[i] != usize::MAX {
                let p = pot[i];
                potential_size.set(p, potential_size[p] + 1);
            }
            i = i + 1;
        }
        proof {
            assert forall|p: int| 0 <= p < potential_count implies #[trigger] potential_size@[p]
                == region_size(grid, kp, starts[p]) by {
                assert(kp[starts[p]] && pot@[starts[p]] == p);
                assert forall|j: int| 0 <= j < n implies (#[trigger] pot@[j] == p) == connected(
                    grid,
                    kp,
                    starts[p],
                    j,
                ) by {
                    if connected(grid, kp, starts[p], j) {
                        lemma_connected_ends(grid, kp, starts[p], j);
                    }
                    if kp[j] {
                        assert((pot@[starts[p]] == pot@[j]) == connected(grid, kp, starts[p], j));
                    }
                }
                crate::region::lemma_count_pred_ext(
                    n as int,
                    |j: int| pot@[j] == p,
                    |j: int| connected(grid, kp, starts[p], j),
                );
            }
        }
        // the main play area is the biggest potential group (ties prefer the
        // one the player just touched)
        let ghost fid: Option<int> = match focus {
            Some(f) => if (f as int) < n && kp[f as int] {
                Some(pot@[f as int] as int)
            } else {
                None
            },
            None => None,
        };
        let ghost sz = potential_size@;
        let mut main: usize = 0;
        let mut p: usize = 1;
        proof {
            lemma_max_prefix(sz, 1);
        }
        while p < potential_count
            invariant
                n == grid.size(),
                pot@.len() == n,
                potential_size@ == sz,
                sz.len() == potential_count,
                1 <= p <= potential_count,
                main < p,
                sz[main as int] == max_prefix(sz, p as int),
                fid matches Some(f) ==> 0 <= f < potential_count,
                (fid matches Some(f) && f < p && sz[f] == max_prefix(sz, p as int)) ==> main == fid->Some_0,
                !(fid matches Some(f) && f < p && sz[f] == max_prefix(sz, p as int)) ==> forall|q: int|
                    0 <= q < main ==> #[trigger] sz[q] != max_prefix(sz, p as int),
                forall|j: int| 0 <= j < n && pot@[j] != usize::MAX ==> #[trigger] pot@[j] < potential_count,
                fid == (match focus {
                    Some(f) => if (f as int) < n && kp[f as int] {
                        Some(pot@[f as int] as int)
                    } else {
                        None::<int>
                    },
                    None => None,
                }),
                forall|j: int| 0 <= j < n ==> ((#[trigger] pot@[j] == usize::MAX) == !kp[j]),
                kp.len() == n,
            decreases potential_count - p,
        {
            let focused = match focus {
                Some(f) => f < n && pot[f] == p,
                None => false,
            };
            proof {
                lemma_max_prefix(sz, p as int);
                lemma_max_prefix(sz, p + 1);
                assert(focused == (fid == Some(p as int)));
            }
            if potential_size[p] > potential_size[main] || (potential_size[p] == potential_size[main]
                && focused) {
                main = p;
            }
            p = p + 1;
        }
        proof {
            lemma_max_prefix(sz, potential_count as int);
            let big = largest_region_size(grid, kp);
            lemma_largest_upto(grid, kp, n as int);
            let mx = max_prefix(sz, potential_count as int);
            // the biggest potential group has the largest region size
            assert(mx == big) by {
                let q = choose|q: int| 0 <= q < potential_count && #[trigger] sz[q] == mx;
                assert(sz[q] == region_size(grid, kp, starts[q]));
                assert(region_size(grid, kp, starts[q]) <= big);
                if big != 0 {
                    let c = choose|c: int|
                        0 <= c < n && kp[c] && #[trigger] region_size(grid, kp, c) == big;
                    let pc = pot@[c] as int;
                    assert(kp[starts[pc]] && pot@[starts[pc]] == pc);
                    assert((pot@[starts[pc]] == pot@[c]) == connected(grid, kp, starts[pc], c));
                    lemma_region_size_connected(grid, kp, starts[pc], c);
                    assert(sz[pc] <= mx);
                } else {
                    assert(kp[starts[0]]);
                    assert(region_size(grid, kp, starts[0]) <= big);
                    crate::grid::lemma_cell_coords(grid.w as int, grid.h as int, starts[0]);
                    lemma_connected_refl_pub(grid, kp, starts[0]);
                    lemma_region_size_pos(grid, kp, starts[0]);
                }
            }
            let mc = main_cell(grid, kp, focus);
            lemma_first_largest(grid, kp, 0);
            // the cell the spec names belongs to the chosen group
            assert(0 <= mc < n && kp[mc] && pot@[mc] == main) by {
                if fid is Some && sz[fid->Some_0] == mx {
                    let f = fid->Some_0;
                    let ff = focus->Some_0 as int;
                    assert(kp[starts[f]] && pot@[starts[f]] == f);
                    assert((pot@[starts[f]] == pot@[ff]) == connected(grid, kp, starts[f], ff));
                    lemma_region_size_connected(grid, kp, starts[f], ff);
                    assert(mc == ff);
                } else {
                    // the focus, if any, is not in a largest group
                    if let Some(ff) = focus {
                        if (ff as int) < n && kp[ff as int] {
                            let f = pot@[ff as int] as int;
                            assert(kp[starts[f]] && pot@[starts[f]] == f);
                            assert((pot@[starts[f]] == pot@[ff as int]) == connected(
                                grid,
                                kp,
                                starts[f],
                                ff as int,
                            ));
                            lemma_region_size_connected(grid, kp, starts[f], ff as int);
                            assert(region_size(grid, kp, ff as int) != big);
                        }
                    }
                    let r = first_largest_from(grid, kp, 0);
                    assert(mc == r);
                    // the first group of the largest size starts at the first
                    // cell whose region has the largest size
                    assert(kp[starts[main as int]] && pot@[starts[main as int]] == main);
                    assert(region_size(grid, kp, starts[main as int]) == big);
                    assert(r <= starts[main as int]);
                    assert(r < n);
                    let pr = pot@[r] as int;
                    assert(kp[starts[pr]] && pot@[starts[pr]] == pr);
                    assert((pot@[starts[pr]] == pot@[r]) == connected(grid, kp, starts[pr], r));
                    lemma_region_size_connected(grid, kp, starts[pr], r);
                    assert(sz[pr] == big);
                    assert(pr >= main);
                    assert(starts[pr] <= r);
                    if pr > main {
                        assert(starts[main as int] < starts[pr]);
                    }
                }
            }
        }
        let mut i: usize = 0;
        while i < n
            invariant
                n == grid.size(),
                marks@.len() == n,
                pot@.len() == n,
                wall_id@.len() == n,
                cells@.len() == n,
                i <= n,
                forall|j: int| 0 <= j < n ==> ((#[trigger] wall_id@[j] == usize::MAX) == !walls(marks@)[j]),
                forall|j: int| 0 <= j < i ==> #[trigger] cells@[j] == (cells_before[j] || (
                    wall_id@[j] != usize::MAX && pot@[j] != main)),
                forall|j: int| i <= j < n ==> #[trigger] cells@[j] == cells_before[j],
            decreases n - i,
        {
            if wall_id[i] != usize::MAX && pot[i] != main {
                cells.set(i, true);
            }
            i = i + 1;
        }
        proof {
            let mc = main_cell(grid, kp, focus);
            assert forall|j: int| 0 <= j < n implies #[trigger] cells@[j] == (in_black_block(grid, marks@, j)
                || unsatisfied_at(grid, marks@, clues@, j) || sealed(grid, marks@, focus, j)) by {
                assert(cells@[j] == (cells_before[j] || (wall_id@[j] != usize::MAX && pot@[j] != main)));
                if marks@[j] == BLACK {
                    assert(walls(marks@)[j]);
                    assert(kp[j]);
                    assert((pot@[mc] == pot@[j]) == connected(grid, kp, mc, j));
                } else {
                    assert(!walls(marks@)[j]);
                }
            }
        }
    } else {
        proof {
            let mc = main_cell(grid, kp, focus);
            assert forall|j: int| 0 <= j < n implies #[trigger] cells@[j] == (in_black_block(grid, marks@, j)
                || unsatisfied_at(grid, marks@, clues@, j) || sealed(grid, marks@, focus, j)) by {
                if marks@[j] == BLACK {
                    assert(kp[j]);
                    assert(potential_count == 1);
                    lemma_single_region_main(grid, kp, focus, pot@, potential_count as int, starts, j);
                }
            }
        }
    }
    LiveErrors { cells, clues: clue_flags }
}

proof fn lemma_region_size_pos(g: &Grid, keep: Seq<bool>, c: int)
    requires
        0 <= c < g.size(),
        connected(g, keep, c, c),
    ensures
        region_size(g, keep, c) >= 1,
{
    lemma_count_pred_pos(g.size(), |j: int| connected(g, keep, c, j), c);
}

proof fn lemma_count_pred_pos(n: int, f: spec_fn(int) -> bool, c: int)
    requires
        0 <= c < n,
        f(c),
    ensures
        count_pred(n, f) >= 1,
    decreases n,
{
    if c < n - 1 {
        lemma_count_pred_pos(n - 1, f, c);
    }
}

/// With a single potential region, every kept cell is connected to the main cell.
proof fn lemma_single_region_main(
    g: &Grid,
    keep: Seq<bool>,
    focus: Option<usize>,
    id: Seq<usize>,
    count: int,
    starts: Seq<int>,
    j: int,
)
    requires
        g.wf(),
        keep.len() == g.size(),
        is_labelling(g, keep, id, count, starts),
        count == 1,
        0 <= j < g.size(),
        keep[j],
    ensures
        connected(g, keep, main_cell(g, keep, focus), j),
{
    let n = g.size();
    let mc = main_cell(g, keep, focus);
    lemma_largest_upto(g, keep, n);
    lemma_first_largest(g, keep, 0);
    let big = largest_region_size(g, keep);
    // every kept cell is in the one region, so all region sizes agree
    assert(id[j] == 0);
    assert forall|c: int| 0 <= c < n && keep[c] implies connected(g, keep, c, j) by {
        assert(id[c] == 0);
    }
    lemma_connected_refl_pub(g, keep, j);
    lemma_region_size_pos(g, keep, j);
    assert(region_size(g, keep, j) <= big);
    if big != 0 {
        let c = choose|c: int| 0 <= c < n && keep[c] && #[trigger] region_size(g, keep, c) == big;
        assert(connected(g, keep, c, j));
        lemma_region_size_connected(g, keep, c, j);
    }
    assert(region_size(g, keep, j) == big);
    if mc == first_largest_from(g, keep, 0) {
        assert(first_largest_from(g, keep, 0) <= j);
    }
    assert(0 <= mc < n && keep[mc]);
    assert(connected(g, keep, mc, j));
}

} // verus!
