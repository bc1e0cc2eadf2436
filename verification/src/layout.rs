//! Window layout arithmetic of the game: how big a new window opens and
//! where it goes, how big a board cell is drawn for a given window, which
//! cell lies under the pointer, and where the control column and its rows
//! sit.
//!
//! Only the arithmetic is here; drawing is left to the window front end.

use vstd::prelude::*;

verus! {

pub const MARGIN: i32 = 24;
/// Width of the always-visible control column on the right.
pub const PANEL_W: i32 = 320;
/// Space between the board and the control column.
pub const PANEL_GAP: i32 = 18;
pub const HEADER: i32 = 62;
/// Room for the two hint lines (they wrap on narrow windows) plus the info line.
pub const FOOTER: i32 = 118;
/// Cell size the window opens with, and the largest a resized window may use.
pub const INITIAL_MAX_CELL: i32 = 38;
pub const MAX_CELL: i32 = 96;
pub const MIN_CELL: i32 = 11;
/// Height the control column needs, so the window is never shorter than it.
pub const PANEL_MIN_H: i32 = 680;

/// Height of one settings row of the control column.
pub const ROW_H: i32 = 28;
/// Height of a button.
pub const BTN_H: i32 = 30;
/// Top of the first settings row.
pub const FIELD_TOP: i32 = HEADER + 150;
/// The cell-size slider gets its own row between the size field and the rest.
pub const SLIDER_H: i32 = 24;
/// How many settings the control column shows.
pub const FIELD_COUNT: i32 = 9;
/// Rows used by the settings block: one per setting plus the slider row.
pub const FIELD_ROWS: i32 = FIELD_COUNT + 1;
/// Top of the message line below the settings.
pub const MESSAGE_TOP: i32 = FIELD_TOP + FIELD_ROWS * ROW_H + 76;
/// Top of the help text below the message line.
pub const HELP_TOP: i32 = MESSAGE_TOP + 46;

/// A board of `cols x rows` cells is small enough for the window arithmetic.
pub open spec fn board_fits_window(cols: usize, rows: usize) -> bool {
    &&& 1 <= cols
    &&& 1 <= rows
    &&& 2 * MARGIN + MIN_CELL * cols + PANEL_GAP + PANEL_W <= i32::MAX
    &&& HEADER + MIN_CELL * rows + FOOTER <= i32::MAX
}

/// The larger of two numbers.
pub open spec fn larger(a: int, b: int) -> int {
    if a >= b {
        a
    } else {
        b
    }
}

/// The smallest client width for `cols` columns.
pub open spec fn min_w(cols: int) -> int {
    2 * MARGIN + MIN_CELL * cols + PANEL_GAP + PANEL_W
}

/// The smallest client height for `rows` rows.
pub open spec fn min_h(rows: int) -> int {
    larger(PANEL_MIN_H as int, HEADER + MIN_CELL * rows + FOOTER)
}

/// Left edge of the control column in a client area `w` wide.
pub open spec fn panel_left(cols: int, w: int) -> int {
    larger(w, min_w(cols)) - MARGIN - PANEL_W
}

/// Room for the board across.
pub open spec fn room_w(cols: int, w: int) -> int {
    larger(panel_left(cols, w) - PANEL_GAP - MARGIN, MIN_CELL * cols)
}

/// Room for the board down.
pub open spec fn room_h(rows: int, h: int) -> int {
    larger(larger(h, min_h(rows)) - HEADER - FOOTER, MIN_CELL * rows)
}

/// `v` held between `lo` and `hi`.
pub open spec fn clamped(v: int, lo: int, hi: int) -> int {
    if v < lo {
        lo
    } else if v > hi {
        hi
    } else {
        v
    }
}

/// The cell size for a `cols x rows` board in a `w x h` client area.
pub open spec fn cell_for(cols: int, rows: int, w: int, h: int) -> int {
    let across = room_w(cols, w) / cols;
    let down = room_h(rows, h) / rows;
    clamped(
        if across <= down {
            across
        } else {
            down
        },
        MIN_CELL as int,
        MAX_CELL as int,
    )
}

/// Smallest client width that still fits the control column and a board of
/// `cols` cells at [`MIN_CELL`].
pub fn min_client_w(cols: usize) -> (r: i32)
    requires
        2 * MARGIN + MIN_CELL * cols + PANEL_GAP + PANEL_W <= i32::MAX,
    ensures
        r == min_w(cols as int),
{
    2 * MARGIN + MIN_CELL * cols as i32 + PANEL_GAP + PANEL_W
}

/// Smallest client height: the control column, or the shortest board that
/// still leaves room for the header and the footer.
pub fn min_client_h(rows: usize) -> (r: i32)
    requires
        HEADER + MIN_CELL * rows + FOOTER <= i32::MAX,
    ensures
        r == min_h(rows as int),
{
    let board = HEADER + MIN_CELL * rows as i32 + FOOTER;
    if PANEL_MIN_H >= board {
        PANEL_MIN_H
    } else {
        board
    }
}

/// Cell size that fits a `cols x rows` board into a client area: the
/// largest size that still leaves the control column its width on the
/// right, between [`MIN_CELL`] and [`MAX_CELL`].
///
/// The board always fits: beside the control column across, and between
/// the header and the footer down.
pub fn fit_cell(cols: usize, rows: usize, client_w: i32, client_h: i32) -> (cell: i32)
    requires
        board_fits_window(cols, rows),
    ensures
        cell == cell_for(cols as int, rows as int, client_w as int, client_h as int),
        MIN_CELL <= cell <= MAX_CELL,
        cell * cols <= panel_left(cols as int, client_w as int) - PANEL_GAP - MARGIN,
        HEADER + cell * rows + FOOTER <= larger(client_h as int, min_h(rows as int)),
{
    let min_w = min_client_w(cols);
    let min_h = min_client_h(rows);
    let panel_x = (if client_w >= min_w {
        client_w
    } else {
        min_w
    }) - MARGIN - PANEL_W;
    let cols_i = cols as i32;
    let rows_i = rows as i32;
    let avail_w = if panel_x - PANEL_GAP - MARGIN >= MIN_CELL * cols_i {
        panel_x - PANEL_GAP - MARGIN
    } else {
        MIN_CELL * cols_i
    };
    let tall = if client_h >= min_h {
        client_h
    } else {
        min_h
    };
    let avail_h = if tall - HEADER - FOOTER >= MIN_CELL * rows_i {
        tall - HEADER - FOOTER
    } else {
        MIN_CELL * rows_i
    };
    let across = avail_w / cols_i;
    let down = avail_h / rows_i;
    let fit = if across <= down {
        across
    } else {
        down
    };
    let cell = if fit < MIN_CELL {
        MIN_CELL
    } else if fit > MAX_CELL {
        MAX_CELL
    } else {
        fit
    };
    proof {
        lemma_fit(cols as int, rows as int, avail_w as int, avail_h as int);
        assert(avail_w == panel_x - PANEL_GAP - MARGIN);
        assert(avail_h == tall - HEADER - FOOTER);
        assert(cell <= across && cell <= down);
        assert(cell * cols <= across * cols) by (nonlinear_arith)
            requires
                cell <= across,
                cols >= 1,
        ;
        assert(cell * rows <= down * rows) by (nonlinear_arith)
            requires
                cell <= down,
                rows >= 1,
        ;
    }
    cell
}

/// The cell size is at least [`MIN_CELL`] before clamping, and a cell no
/// larger than the room per column or row fits.
proof fn lemma_fit(cols: int, rows: int, avail_w: int, avail_h: int)
    requires
        cols >= 1,
        rows >= 1,
        avail_w >= MIN_CELL * cols,
        avail_h >= MIN_CELL * rows,
    ensures
        avail_w / cols >= MIN_CELL,
        avail_h / rows >= MIN_CELL,
        (avail_w / cols) * cols <= avail_w,
        (avail_h / rows) * rows <= avail_h,
{
    assert(avail_w / cols >= MIN_CELL) by (nonlinear_arith)
        requires
            cols >= 1,
            avail_w >= MIN_CELL * cols,
    ;
    assert(avail_h / rows >= MIN_CELL) by (nonlinear_arith)
        requires
            rows >= 1,
            avail_h >= MIN_CELL * rows,
    ;
    assert((avail_w / cols) * cols <= avail_w) by (nonlinear_arith)
        requires
            cols >= 1,
            avail_w >= 0,
    ;
    assert((avail_h / rows) * rows <= avail_h) by (nonlinear_arith)
        requires
            rows >= 1,
            avail_h >= 0,
    ;
}

/// A bigger window never gets smaller cells.
pub proof fn law_bigger_windows_get_no_smaller_cells(
    cols: int,
    rows: int,
    w1: int,
    h1: int,
    w2: int,
    h2: int,
)
    requires
        cols >= 1,
        rows >= 1,
        w1 <= w2,
        h1 <= h2,
    ensures
        cell_for(cols, rows, w1, h1) <= cell_for(cols, rows, w2, h2),
{
    let a1 = room_w(cols, w1);
    let a2 = room_w(cols, w2);
    let b1 = room_h(rows, h1);
    let b2 = room_h(rows, h2);
    assert(a1 <= a2);
    assert(b1 <= b2);
    assert(a1 / cols <= a2 / cols) by (nonlinear_arith)
        requires
            cols >= 1,
            a1 <= a2,
    ;
    assert(b1 / rows <= b2 / rows) by (nonlinear_arith)
        requires
            rows >= 1,
            b1 <= b2,
    ;
}

/// Client size the window opens with, for a desktop work area of
/// `area_w x area_h` and `chrome` pixels of caption and frame: a
/// `cols x rows` board that fills at most 92% of the work area, with cells
/// between [`MIN_CELL`] and [`INITIAL_MAX_CELL`], and never below the
/// smallest client size.
pub fn initial_client_size(cols: usize, rows: usize, area_w: i32, area_h: i32, chrome: i32) -> (r: (
    i32,
    i32,
))
    requires
        board_fits_window(cols, rows),
        2 * MARGIN + INITIAL_MAX_CELL * cols + PANEL_GAP + PANEL_W <= i32::MAX,
        HEADER + INITIAL_MAX_CELL * rows + FOOTER <= i32::MAX,
    ensures
        r.0 == larger(2 * MARGIN + opening_cell(cols as int, rows as int, area_w as int, area_h as int, chrome as int) * cols + PANEL_GAP + PANEL_W, min_w(cols as int)),
        r.1 == larger(HEADER + opening_cell(cols as int, rows as int, area_w as int, area_h as int, chrome as int) * rows + FOOTER, min_h(rows as int)),
{
    let avail_w: i64 = percent_92(area_w) - 2 * MARGIN as i64 - PANEL_GAP as i64 - PANEL_W as i64;
    let avail_h: i64 = percent_92(area_h) - HEADER as i64 - FOOTER as i64 - chrome as i64;
    let down: i64 = floor_div(avail_h, rows as i64);
    let across: i64 = floor_div(avail_w, cols as i64);
    let fit: i64 = if down <= across {
        down
    } else {
        across
    };
    let cell: i32 = if fit < MIN_CELL as i64 {
        MIN_CELL
    } else if fit > INITIAL_MAX_CELL as i64 {
        INITIAL_MAX_CELL
    } else {
        fit as i32
    };
    proof {
        assert(cell * cols <= INITIAL_MAX_CELL * cols) by (nonlinear_arith)
            requires
                cell <= INITIAL_MAX_CELL,
                cols >= 1,
        ;
        assert(cell * rows <= INITIAL_MAX_CELL * rows) by (nonlinear_arith)
            requires
                cell <= INITIAL_MAX_CELL,
                rows >= 1,
        ;
    }
    let client_w = 2 * MARGIN + cell * cols as i32 + PANEL_GAP + PANEL_W;
    let client_h = HEADER + cell * rows as i32 + FOOTER;
    let least_w = min_client_w(cols);
    let least_h = min_client_h(rows);
    (if client_w >= least_w {
        client_w
    } else {
        least_w
    }, if client_h >= least_h {
        client_h
    } else {
        least_h
    })
}

/// 92% of `v`, rounded toward zero.
pub open spec fn ninety_two_percent(v: int) -> int {
    if v >= 0 {
        v * 92 / 100
    } else {
        -((-v) * 92 / 100)
    }
}

/// The cell size a new window opens with.
pub open spec fn opening_cell(cols: int, rows: int, area_w: int, area_h: int, chrome: int) -> int {
    let avail_w = ninety_two_percent(area_w) - 2 * MARGIN - PANEL_GAP - PANEL_W;
    let avail_h = ninety_two_percent(area_h) - HEADER - FOOTER - chrome;
    let down = avail_h / rows;
    let across = avail_w / cols;
    clamped(
        if down <= across {
            down
        } else {
            across
        },
        MIN_CELL as int,
        INITIAL_MAX_CELL as int,
    )
}

/// 92% of `v`, rounded toward zero.
fn percent_92(v: i32) -> (r: i64)
    ensures
        r == ninety_two_percent(v as int),
{
    if v >= 0 {
        v as i64 * 92 / 100
    } else {
        -((-(v as i64)) * 92 / 100)
    }
}

/// `a / b` rounded down, for a positive `b`.
fn floor_div(a: i64, b: i64) -> (r: i64)
    requires
        b >= 1,
    ensures
        r == a / b,
{
    if a >= 0 {
        a / b
    } else {
        let q = (-(a + 1)) / b;
        proof {
            assert(a / b == -q - 1) by (nonlinear_arith)
                requires
                    b >= 1,
                    a < 0,
                    q == (-(a as int) - 1) / (b as int),
            ;
        }
        -q - 1
    }
}

/// Top-left corner that centres a `w x h` window inside the work area
/// running from `(left, top)` to `(right, bottom)`; a window larger than the
/// area starts at its corner.
pub fn centered_origin(left: i32, top: i32, right: i32, bottom: i32, w: i32, h: i32) -> (r: (i32, i32))
    requires
        left <= right,
        top <= bottom,
        w >= 0,
        h >= 0,
    ensures
        r.0 == left + larger((right - left - w) / 2, 0),
        r.1 == top + larger((bottom - top - h) / 2, 0),
{
    let dx: i64 = right as i64 - left as i64 - w as i64;
    let dy: i64 = bottom as i64 - top as i64 - h as i64;
    let x: i64 = left as i64 + if dx > 0 {
        dx / 2
    } else {
        0
    };
    let y: i64 = top as i64 + if dy > 0 {
        dy / 2
    } else {
        0
    };
    proof {
        assert(dx <= 0 ==> dx / 2 <= 0) by (nonlinear_arith);
        assert(dy <= 0 ==> dy / 2 <= 0) by (nonlinear_arith);
    }
    (x as i32, y as i32)
}

/// Where the board and the control column sit in a window's client area.
pub struct Frame {
    /// Side of one board cell.
    pub cell: i32,
    /// Left edge of the board.
    pub grid_x: i32,
    /// Top edge of the board.
    pub grid_y: i32,
    /// Left edge of the control column.
    pub panel_x: i32,
    pub client_w: i32,
    pub client_h: i32,
    pub cols: usize,
    pub rows: usize,
}

/// Pixel `v` lies in the `k`-th of the bands `size` wide that start at `lo`.
pub open spec fn in_band(lo: int, size: int, v: int, k: int) -> bool {
    lo + k * size <= v < lo + (k + 1) * size
}

impl Frame {
    /// The geometry after a fit: the client area is at least the smallest
    /// one, the control column is pinned to its right edge, and the board,
    /// drawn at [`cell_for`], fits beside the column and between the header
    /// and the footer.
    pub open spec fn fitted(&self) -> bool {
        &&& board_fits_window(self.cols, self.rows)
        &&& self.grid_x == MARGIN
        &&& self.grid_y == HEADER
        &&& self.client_w >= min_w(self.cols as int)
        &&& self.client_h >= min_h(self.rows as int)
        &&& self.panel_x == self.client_w - MARGIN - PANEL_W
        &&& self.cell == cell_for(self.cols as int, self.rows as int, self.client_w as int, self.client_h as int)
        &&& MIN_CELL <= self.cell <= MAX_CELL
        &&& MARGIN + self.cell * self.cols + PANEL_GAP <= self.panel_x
        &&& HEADER + self.cell * self.rows + FOOTER <= self.client_h
    }

    /// The cell under pixel `(x, y)` of a board `cols x rows` cells big.
    pub open spec fn cell_under(&self, x: int, y: int, cols: int, rows: int) -> Option<(usize, usize)> {
        let cx = (x - self.grid_x) / self.cell as int;
        let cy = (y - self.grid_y) / self.cell as int;
        if x < self.grid_x || y < self.grid_y || cx >= cols || cy >= rows {
            None
        } else {
            Some((cx as usize, cy as usize))
        }
    }

    /// The geometry of a `cols x rows` board in a client area of
    /// `client_w x client_h`.
    pub fn new(cols: usize, rows: usize, client_w: i32, client_h: i32) -> (f: Frame)
        requires
            board_fits_window(cols, rows),
        ensures
            f.fitted(),
            f.cols == cols,
            f.rows == rows,
            f.client_w == larger(client_w as int, min_w(cols as int)),
            f.client_h == larger(client_h as int, min_h(rows as int)),
    {
        let mut f = Frame {
            cell: 0,
            grid_x: MARGIN,
            panel_x: 0,
            grid_y: HEADER,
            client_w,
            client_h,
            cols,
            rows,
        };
        f.fit(client_w, client_h);
        f
    }

    /// Recompute the board geometry for a client size. The control column is
    /// pinned to the right edge and the board takes what is left. Answers
    /// whether the cell size changed.
    pub fn fit(&mut self, client_w: i32, client_h: i32) -> (changed: bool)
        requires
            board_fits_window(old(self).cols, old(self).rows),
            old(self).grid_x == MARGIN,
            old(self).grid_y == HEADER,
        ensures
            final(self).fitted(),
            final(self).cols == old(self).cols,
            final(self).rows == old(self).rows,
            final(self).client_w == larger(client_w as int, min_w(old(self).cols as int)),
            final(self).client_h == larger(client_h as int, min_h(old(self).rows as int)),
            changed == (final(self).cell != old(self).cell),
    {
        let least_w = min_client_w(self.cols);
        let least_h = min_client_h(self.rows);
        let w = if client_w >= least_w {
            client_w
        } else {
            least_w
        };
        let h = if client_h >= least_h {
            client_h
        } else {
            least_h
        };
        self.client_w = w;
        self.client_h = h;
        self.panel_x = w - MARGIN - PANEL_W;
        let cell = fit_cell(self.cols, self.rows, w, h);
        proof {
            assert(larger(w as int, min_w(self.cols as int)) == w);
            assert(larger(h as int, min_h(self.rows as int)) == h);
        }
        if cell == self.cell {
            return false;
        }
        self.cell = cell;
        true
    }

    /// Change the board dimensions; [`Frame::fit`] follows.
    pub fn set_grid(&mut self, cols: usize, rows: usize)
        ensures
            final(self).cols == cols,
            final(self).rows == rows,
            final(self).cell == old(self).cell,
            final(self).grid_x == old(self).grid_x,
            final(self).grid_y == old(self).grid_y,
            final(self).panel_x == old(self).panel_x,
            final(self).client_w == old(self).client_w,
            final(self).client_h == old(self).client_h,
    {
        self.cols = cols;
        self.rows = rows;
    }

    /// Right edge of the board area, where text stops so it never runs into
    /// the control column.
    pub fn text_right(&self) -> (r: i32)
        requires
            self.fitted(),
        ensures
            r == self.panel_x - PANEL_GAP,
    {
        self.panel_x - PANEL_GAP
    }

    /// The cell, as column and row, under pixel `(x, y)` of a board
    /// `cols x rows` cells big, if any.
    pub fn cell_at(&self, x: i32, y: i32, cols: usize, rows: usize) -> (r: Option<(usize, usize)>)
        requires
            self.fitted(),
        ensures
            r == self.cell_under(x as int, y as int, cols as int, rows as int),
    {
        let gx: i64 = x as i64 - self.grid_x as i64;
        let gy: i64 = y as i64 - self.grid_y as i64;
        if gx < 0 || gy < 0 {
            return None;
        }
        let cx = (gx / self.cell as i64) as u64;
        let cy = (gy / self.cell as i64) as u64;
        if cx >= cols as u64 || cy >= rows as u64 {
            return None;
        }
        Some((cx as usize, cy as usize))
    }

    /// The rectangle of cell `(x, y)`: left, top, right and bottom.
    pub fn cell_rect(&self, x: usize, y: usize) -> (r: (i32, i32, i32, i32))
        requires
            self.fitted(),
            x < self.cols,
            y < self.rows,
        ensures
            r.0 == self.grid_x + x * self.cell,
            r.1 == self.grid_y + y * self.cell,
            r.2 == self.grid_x + (x + 1) * self.cell,
            r.3 == self.grid_y + (y + 1) * self.cell,
    {
        proof {
            assert((x + 1) * self.cell <= self.cols * self.cell) by (nonlinear_arith)
                requires
                    x + 1 <= self.cols,
                    self.cell >= 0,
            ;
            assert((y + 1) * self.cell <= self.rows * self.cell) by (nonlinear_arith)
                requires
                    y + 1 <= self.rows,
                    self.cell >= 0,
            ;
            assert((x + 1) * self.cell == x * self.cell + self.cell) by (nonlinear_arith);
            assert((y + 1) * self.cell == y * self.cell + self.cell) by (nonlinear_arith);
            assert(self.cols * self.cell == self.cell * self.cols) by (nonlinear_arith);
            assert(self.rows * self.cell == self.cell * self.rows) by (nonlinear_arith);
            assert(x * self.cell >= 0) by (nonlinear_arith)
                requires
                    x >= 0,
                    self.cell >= 0,
            ;
            assert(y * self.cell >= 0) by (nonlinear_arith)
                requires
                    y >= 0,
                    self.cell >= 0,
            ;
        }
        let px = self.grid_x + x as i32 * self.cell;
        let py = self.grid_y + y as i32 * self.cell;
        (px, py, px + self.cell, py + self.cell)
    }

    /// The rectangle around the whole board, with a two pixel border.
    pub fn grid_rect(&self) -> (r: (i32, i32, i32, i32))
        requires
            self.fitted(),
        ensures
            r.0 == self.grid_x - 2,
            r.1 == self.grid_y - 2,
            r.2 == self.grid_x + self.cols * self.cell + 2,
            r.3 == self.grid_y + self.rows * self.cell + 2,
    {
        proof {
            assert(self.cols * self.cell == self.cell * self.cols) by (nonlinear_arith);
            assert(self.rows * self.cell == self.cell * self.rows) by (nonlinear_arith);
        }
        (
            self.grid_x - 2,
            self.grid_y - 2,
            self.grid_x + self.cols as i32 * self.cell + 2,
            self.grid_y + self.rows as i32 * self.cell + 2,
        )
    }
}

/// A pixel inside the rectangle of a board cell is found as that cell again.
pub proof fn law_a_drawn_cell_is_found_again(f: Frame, x: int, y: int, px: int, py: int)
    requires
        f.fitted(),
        0 <= x < f.cols,
        0 <= y < f.rows,
        in_band(f.grid_x as int, f.cell as int, px, x),
        in_band(f.grid_y as int, f.cell as int, py, y),
    ensures
        f.cell_under(px, py, f.cols as int, f.rows as int) == Some((x as usize, y as usize)),
{
    let c = f.cell as int;
    assert((px - f.grid_x) / c == x) by (nonlinear_arith)
        requires
            c >= 1,
            x * c <= px - f.grid_x < (x + 1) * c,
    ;
    assert((py - f.grid_y) / c == y) by (nonlinear_arith)
        requires
            c >= 1,
            y * c <= py - f.grid_y < (y + 1) * c,
    ;
    assert(x * c >= 0) by (nonlinear_arith)
        requires
            x >= 0,
            c >= 1,
    ;
    assert(y * c >= 0) by (nonlinear_arith)
        requires
            y >= 0,
            c >= 1,
    ;
}

/// Top of settings row `index`; the slider row sits right after the first
/// setting (the board size), so every later setting moves down by one row.
pub fn field_top(index: usize) -> (r: i32)
    requires
        index < FIELD_COUNT,
    ensures
        r == FIELD_TOP + index * ROW_H + if index >= 1 {
            ROW_H
        } else {
            0
        },
{
    FIELD_TOP + index as i32 * ROW_H + if index >= 1 {
        ROW_H
    } else {
        0
    }
}

/// Top of the cell-size slider row.
pub fn slider_top() -> (r: i32)
    ensures
        r == FIELD_TOP + ROW_H,
{
    FIELD_TOP + ROW_H
}

} // verus!
