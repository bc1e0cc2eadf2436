//! Rectangular grid geometry with precomputed neighbour tables.

use vstd::prelude::*;

verus! {

/// The eight neighbours of a cell as `(dx, dy)`, clockwise from up-left (up,
/// up-right, right, down-right, down, down-left, left): the cyclic order in
/// which Tapa clue numbers describe the black runs.
pub open spec fn neighbor_delta(k: int) -> (int, int) {
    if k == 0 {
        (-1, -1)
    } else if k == 1 {
        (0, -1)
    } else if k == 2 {
        (1, -1)
    } else if k == 3 {
        (1, 0)
    } else if k == 4 {
        (1, 1)
    } else if k == 5 {
        (0, 1)
    } else if k == 6 {
        (-1, 1)
    } else {
        (-1, 0)
    }
}

/// Orthogonal neighbour deltas (up, right, down, left).
pub open spec fn ortho_delta(k: int) -> (int, int) {
    if k == 0 {
        (0, -1)
    } else if k == 1 {
        (1, 0)
    } else if k == 2 {
        (0, 1)
    } else {
        (-1, 0)
    }
}

/// Column of cell `i` on a board `w` cells wide.
pub open spec fn col(w: int, i: int) -> int {
    i % w
}

/// Row of cell `i` on a board `w` cells wide.
pub open spec fn row(w: int, i: int) -> int {
    i / w
}

/// The cell at offset `d` from cell `i`, if it lies on the `w x h` board.
pub open spec fn offset_cell(w: int, h: int, i: int, d: (int, int)) -> Option<usize> {
    let x = col(w, i) + d.0;
    let y = row(w, i) + d.1;
    if 0 <= x < w && 0 <= y < h {
        Some((y * w + x) as usize)
    } else {
        None
    }
}

/// Rectangular grid with precomputed neighbour tables.
#[derive(Clone, Debug)]
pub struct Grid {
    pub w: usize,
    pub h: usize,
    /// Neighbour table in clue order; see [`Grid::wf`].
    pub neighbors: Vec<[Option<usize>; 8]>,
    /// Orthogonal neighbour table; see [`Grid::wf`].
    pub ortho: Vec<[Option<usize>; 4]>,
}

impl Grid {
    /// Number of cells.
    pub open spec fn size(&self) -> int {
        self.w * self.h
    }

    /// Neighbour `k` (in clue order) of cell `i`.
    pub open spec fn nb(&self, i: int, k: int) -> Option<usize> {
        offset_cell(self.w as int, self.h as int, i, neighbor_delta(k))
    }

    /// Orthogonal neighbour `k` of cell `i`.
    pub open spec fn on(&self, i: int, k: int) -> Option<usize> {
        offset_cell(self.w as int, self.h as int, i, ortho_delta(k))
    }

    /// The tables hold exactly the neighbours of every cell.
    pub open spec fn wf(&self) -> bool {
        &&& self.w * self.h <= usize::MAX
        &&& self.neighbors@.len() == self.size()
        &&& self.ortho@.len() == self.size()
        &&& forall|i: int, k: int|
            0 <= i < self.size() && 0 <= k < 8 ==> #[trigger] self.neighbors@[i][k] == self.nb(i, k)
        &&& forall|i: int, k: int|
            0 <= i < self.size() && 0 <= k < 4 ==> #[trigger] self.ortho@[i][k] == self.on(i, k)
    }

    pub fn new(w: usize, h: usize) -> (g: Grid)
        requires
            w * h <= usize::MAX,
        ensures
            g.wf(),
            g.w == w,
            g.h == h,
    {
        let mut neighbors: Vec<[Option<usize>; 8]> = Vec::new();
        let mut ortho: Vec<[Option<usize>; 4]> = Vec::new();
        let mut y: usize = 0;
        while y < h
            invariant
                w * h <= usize::MAX,
                y <= h,
                neighbors@.len() == y * w,
                ortho@.len() == y * w,
                forall|i: int, k: int|
                    0 <= i < y * w && 0 <= k < 8 ==> #[trigger] neighbors@[i][k] == offset_cell(
                        w as int,
                        h as int,
                        i,
                        neighbor_delta(k),
                    ),
                forall|i: int, k: int|
                    0 <= i < y * w && 0 <= k < 4 ==> #[trigger] ortho@[i][k] == offset_cell(
                        w as int,
                        h as int,
                        i,
                        ortho_delta(k),
                    ),
            decreases h - y,
        {
            let mut x: usize = 0;
            while x < w
                invariant
                    w * h <= usize::MAX,
                    y < h,
                    x <= w,
                    neighbors@.len() == y * w + x,
                    ortho@.len() == y * w + x,
                    forall|i: int, k: int|
                        0 <= i < y * w + x && 0 <= k < 8 ==> #[trigger] neighbors@[i][k]
                            == offset_cell(w as int, h as int, i, neighbor_delta(k)),
                    forall|i: int, k: int|
                        0 <= i < y * w + x && 0 <= k < 4 ==> #[trigger] ortho@[i][k]
                            == offset_cell(w as int, h as int, i, ortho_delta(k)),
                decreases w - x,
            {
                let arr: [Option<usize>; 8] = [
                    step(w, h, x, y, -1, -1),
                    step(w, h, x, y, 0, -1),
                    step(w, h, x, y, 1, -1),
                    step(w, h, x, y, 1, 0),
                    step(w, h, x, y, 1, 1),
                    step(w, h, x, y, 0, 1),
                    step(w, h, x, y, -1, 1),
                    step(w, h, x, y, -1, 0),
                ];
                let four: [Option<usize>; 4] = [
                    step(w, h, x, y, 0, -1),
                    step(w, h, x, y, 1, 0),
                    step(w, h, x, y, 0, 1),
                    step(w, h, x, y, -1, 0),
                ];
                let ghost i = y * w + x;
                assert forall|k: int| 0 <= k < 8 implies #[trigger] arr@[k] == offset_cell(
                    w as int,
                    h as int,
                    i,
                    neighbor_delta(k),
                ) by {
                    assert(k == 0 || k == 1 || k == 2 || k == 3 || k == 4 || k == 5 || k == 6 || k
                        == 7);
                }
                assert forall|k: int| 0 <= k < 4 implies #[trigger] four@[k] == offset_cell(
                    w as int,
                    h as int,
                    i,
                    ortho_delta(k),
                ) by {
                    assert(k == 0 || k == 1 || k == 2 || k == 3);
                }
                neighbors.push(arr);
                ortho.push(four);
                x = x + 1;
            }
            proof {
                assert((y + 1) * w == y * w + w) by (nonlinear_arith);
            }
            y = y + 1;
        }
        proof {
            assert(h * w == w * h) by (nonlinear_arith);
        }
        Grid { w, h, neighbors, ortho }
    }

    #[inline]
    pub fn len(&self) -> (n: usize)
        requires
            self.wf(),
        ensures
            n == self.size(),
    {
        self.w * self.h
    }

    #[inline]
    pub fn idx(&self, x: usize, y: usize) -> (i: usize)
        requires
            y * self.w + x <= usize::MAX,
        ensures
            i == y * self.w + x,
    {
        y * self.w + x
    }

    #[inline]
    pub fn xy(&self, i: usize) -> (p: (usize, usize))
        requires
            self.wf(),
            i < self.size(),
        ensures
            p.0 == col(self.w as int, i as int),
            p.1 == row(self.w as int, i as int),
            p.0 < self.w,
            p.1 < self.h,
    {
        proof {
            lemma_cell_coords(self.w as int, self.h as int, i as int);
        }
        (i % self.w, i / self.w)
    }

    #[inline]
    pub fn neighbors(&self, i: usize) -> (r: &[Option<usize>; 8])
        requires
            self.wf(),
            i < self.size(),
        ensures
            forall|k: int| 0 <= k < 8 ==> #[trigger] r@[k] == self.nb(i as int, k),
    {
        &self.neighbors[i]
    }

    /// The four orthogonal neighbours, precomputed (used by the hot loops).
    #[inline]
    pub fn ortho(&self, i: usize) -> (r: &[Option<usize>; 4])
        requires
            self.wf(),
            i < self.size(),
        ensures
            forall|k: int| 0 <= k < 4 ==> #[trigger] r@[k] == self.on(i as int, k),
    {
        &self.ortho[i]
    }
}

/// Chebyshev distance between two cells: the larger of the column and the
/// row distance, the number of king steps from one to the other.
pub open spec fn chebyshev_distance(g: &Grid, a: int, b: int) -> int {
    let w = g.w as int;
    let dx = if col(w, a) >= col(w, b) {
        col(w, a) - col(w, b)
    } else {
        col(w, b) - col(w, a)
    };
    let dy = if row(w, a) >= row(w, b) {
        row(w, a) - row(w, b)
    } else {
        row(w, b) - row(w, a)
    };
    if dx >= dy {
        dx
    } else {
        dy
    }
}

/// Coordinates of a cell index and back.
pub proof fn lemma_idx_coords(w: int, h: int, x: int, y: int)
    requires
        0 <= x < w,
        0 <= y < h,
    ensures
        col(w, y * w + x) == x,
        row(w, y * w + x) == y,
        0 <= y * w + x < w * h,
{
    vstd::arithmetic::div_mod::lemma_fundamental_div_mod_converse(y * w + x, w, y, x);
    assert(y * w + x < w * h) by (nonlinear_arith)
        requires
            0 <= x < w,
            0 <= y < h,
    ;
    assert(0 <= y * w) by (nonlinear_arith)
        requires
            0 <= x < w,
            0 <= y < h,
    ;
}

/// Every cell index splits into a column and a row on the board.
pub proof fn lemma_cell_coords(w: int, h: int, i: int)
    requires
        0 <= w,
        0 <= h,
        0 <= i < w * h,
    ensures
        0 <= col(w, i) < w,
        0 <= row(w, i) < h,
        i == row(w, i) * w + col(w, i),
{
    assert(w > 0) by (nonlinear_arith)
        requires
            0 <= w,
            0 <= h,
            0 <= i < w * h,
    ;
    vstd::arithmetic::div_mod::lemma_fundamental_div_mod(i, w);
    vstd::arithmetic::div_mod::lemma_mod_bound(i, w);
    assert(0 <= i / w < h) by (nonlinear_arith)
        requires
            0 <= i < w * h,
            w > 0,
            i == w * (i / w) + i % w,
            0 <= i % w < w,
    ;
    assert(i == (i / w) * w + i % w) by (nonlinear_arith)
        requires
            i == w * (i / w) + i % w,
    ;
}

/// The neighbour of `(x, y)` at offset `(dx, dy)`, if it is on the board.
fn step(w: usize, h: usize, x: usize, y: usize, dx: i8, dy: i8) -> (r: Option<usize>)
    requires
        x < w,
        y < h,
        w * h <= usize::MAX,
        -1 <= dx <= 1,
        -1 <= dy <= 1,
    ensures
        r == offset_cell(w as int, h as int, y * w + x, (dx as int, dy as int)),
{
    proof {
        lemma_idx_coords(w as int, h as int, x as int, y as int);
    }
    let nx: usize = if dx < 0 {
        if x == 0 {
            return None;
        }
        x - 1
    } else if dx > 0 {
        if x + 1 >= w {
            return None;
        }
        x + 1
    } else {
        x
    };
    let ny: usize = if dy < 0 {
        if y == 0 {
            return None;
        }
        y - 1
    } else if dy > 0 {
        if y + 1 >= h {
            return None;
        }
        y + 1
    } else {
        y
    };
    proof {
        lemma_idx_coords(w as int, h as int, nx as int, ny as int);
    }
    Some(ny * w + nx)
}

/// Different neighbour positions of a cell are different cells.
pub proof fn lemma_nb_injective(g: &Grid, i: int, b1: int, b2: int)
    requires
        g.wf(),
        0 <= i < g.size(),
        0 <= b1 < 8,
        0 <= b2 < 8,
        g.nb(i, b1) is Some,
        g.nb(i, b1) == g.nb(i, b2),
    ensures
        b1 == b2,
{
    let w = g.w as int;
    let h = g.h as int;
    let d1 = neighbor_delta(b1);
    let d2 = neighbor_delta(b2);
    let x1 = col(w, i) + d1.0;
    let y1 = row(w, i) + d1.1;
    let x2 = col(w, i) + d2.0;
    let y2 = row(w, i) + d2.1;
    assert(0 <= x1 < w && 0 <= y1 < h);
    assert(0 <= x2 < w && 0 <= y2 < h);
    lemma_idx_coords(w, h, x1, y1);
    lemma_idx_coords(w, h, x2, y2);
    assert((y1 * w + x1) as usize == (y2 * w + x2) as usize);
    assert(y1 * w + x1 == y2 * w + x2);
    assert(x1 == x2 && y1 == y2);
    assert(d1 == d2);
}

} // verus!
