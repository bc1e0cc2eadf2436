//! The playing engine: a puzzle, the player's marks, undo, checking and the
//! one-step helpers, driven by a tiny text command language.
//!
//! The browser page owns no game logic: it sends a command, the engine
//! updates its state, and [`Engine::state_json`] describes the whole state.
//! Settings that need decimal fractions (the density range) live with the
//! caller, which hands the engine the plain values it needs.

use std::collections::VecDeque;

use vstd::prelude::*;

use crate::clock::{micros, rounded_ms, Timer};
use crate::report::{bench, bench_text, print_puzzles, print_report, push_seconds, seconds_text};
use crate::command::{
    bool_chars, count_or, coordinate, escape_into, escaped, join_from, joined, opt_view,
    parse_count, parse_i64, parse_seed, push_bools, res_view, seed_text, text_is, views, words,
    words_of,
};
use crate::generator::{ambiguous, generate_with, GenConfig};
use vstd::arithmetic::power2::pow2;
use crate::grid::{chebyshev_distance, col, row, Grid};
use crate::rng::Rng;
use crate::model::{
    clue_chars, clue_deductions, clue_forces, clue_satisfiable, clue_step, clue_text, completes,
    count_unknown, decimal, has_clue, Clue, agrees, is_filled, lemma_clue_forces_sound,
    last_clue_for,
    lemma_clue_forces_cells, push_char, push_decimal, satisfiable, Puzzle, BLACK, UNKNOWN, WHITE,
    apply_marks, cell_mask, mask_runs, showable_clue,
};
use crate::rules::{
    at_text, in_black_block, king_step, line_cell, line_cells, live_errors, push_at, sealed,
    unsatisfied_at, validate, validation_messages, LiveErrors,
};
use crate::region::count_pred;
use crate::solver::{is_solution, lemma_validate_iff_solution};
use vstd::string::StringExecFns;

verus! {

/// How many marks can be undone.
pub const MAX_HISTORY: usize = 4096;

/// The tone of the status line.
#[derive(Clone, Copy, PartialEq, Eq, Structural, Debug)]
pub enum Kind {
    Info,
    Good,
    Bad,
}

/// One active paint stroke: the value it applies and the last cell it touched.
#[derive(Clone, Copy, PartialEq, Eq, Structural, Debug)]
pub struct Drag {
    pub value: u8,
    pub last: usize,
}

/// What is left to do after a command: the requests that need the
/// generation settings, which the caller keeps.
pub enum Request {
    /// Nothing is left to do.
    Done,
    /// Change one setting (`value` is the rest of the command line).
    Setting { key: String, value: String },
    /// Restore the built-in settings.
    Defaults,
    /// Build a new puzzle from `seed` with the current settings.
    Generate { seed: u64 },
    /// Generate `count` puzzles and render them as text.
    Print { count: usize },
    /// Time `count` generations.
    Bench { count: usize },
}

/// One field of the settings form: its key, label, help text and current
/// value.
pub struct Field {
    pub key: String,
    pub label: String,
    pub help: String,
    pub value: String,
}

/// What the caller's settings add to the state: the board size used while
/// there is no puzzle, the settings as text, and the fields of the form.
pub struct Panel {
    pub size: usize,
    pub text: String,
    pub fields: Vec<Field>,
}

pub struct Engine {
    pub puzzle: Option<Puzzle>,
    /// The player's marks, one per cell.
    pub cells: Vec<u8>,
    /// Cells the last check found wrong.
    pub wrong: Vec<bool>,
    pub errors: LiveErrors,
    /// `(cell, previous mark)` for every change, oldest first.
    pub history: VecDeque<(usize, u8)>,
    /// Cell that was changed last, used to break ties in the error analysis.
    pub last_changed: Option<usize>,
    /// Wall whose group is spotlighted (the last wall that was painted).
    pub anchor: Option<usize>,
    pub drag: Option<Drag>,
    pub status: String,
    pub kind: Kind,
    pub solved: bool,
    pub show_solution: bool,
    pub seed: u64,
    /// One-line statistics of the last generation.
    pub stats: String,
    /// Output of `print` / `bench`.
    pub output: String,
    /// Settings error from the last `set`.
    pub settings_error: String,
}

/// A puzzle the engine can be played on: sound, small enough for the drag
/// arithmetic, with exactly one solution, the stored one, and clues of
/// single digits.
pub open spec fn playable(p: Puzzle) -> bool {
    &&& p.wf()
    &&& p.grid.w <= i32::MAX
    &&& p.grid.h <= i32::MAX
    &&& is_solution(&p.grid, p.solution@, p.clues@)
    &&& forall|s: Seq<u8>| #[trigger] is_solution(&p.grid, s, p.clues@) ==> s == p.solution@
    &&& forall|t: int, j: int|
        0 <= t < p.clues@.len() && 0 <= j < p.clues@[t].1@.len() ==> #[trigger] p.clues@[t].1@[j]
            <= 8
}

/// A mark: undecided, wall or empty.
pub open spec fn is_mark(v: u8) -> bool {
    v == UNKNOWN || v == BLACK || v == WHITE
}

/// The live feedback of `marks`, as [`live_errors`] computes it.
pub open spec fn errors_match(
    e: LiveErrors,
    p: Puzzle,
    marks: Seq<u8>,
    focus: Option<usize>,
) -> bool {
    &&& e.cells@.len() == p.grid.size()
    &&& e.clues@.len() == p.grid.size()
    &&& forall|i: int|
        0 <= i < p.grid.size() ==> #[trigger] e.clues@[i] == unsatisfied_at(
            &p.grid,
            marks,
            p.clues@,
            i,
        )
    &&& forall|i: int|
        0 <= i < p.grid.size() ==> #[trigger] e.cells@[i] == (in_black_block(&p.grid, marks, i)
            || unsatisfied_at(&p.grid, marks, p.clues@, i) || sealed(&p.grid, marks, focus, i))
}

/// The marks a puzzle starts with: clue cells empty, everything else open.
pub open spec fn fresh(p: Puzzle) -> Seq<u8> {
    Seq::new(
        p.grid.size() as nat,
        |i: int|
            if has_clue(p.clues@, i) {
                WHITE
            } else {
                UNKNOWN
            },
    )
}

/// The history after remembering `e`: the oldest entry goes once the
/// history is full.
pub open spec fn remember(h: Seq<(usize, u8)>, e: (usize, u8)) -> Seq<(usize, u8)> {
    if h.len() < MAX_HISTORY {
        h.push(e)
    } else {
        h.push(e).drop_first()
    }
}

/// `""` for one, `"s"` otherwise.
pub open spec fn plural(n: nat) -> Seq<char> {
    if n == 1 {
        ""@
    } else {
        "s"@
    }
}

/// The status line that describes how far the marks are.
pub open spec fn progress_text(p: Puzzle, marks: Seq<u8>) -> Seq<char> {
    let open = count_unknown(marks);
    if open > 0 {
        decimal(open) + " cell"@ + plural(open) + " left"@
    } else if is_solution(&p.grid, marks, p.clues@) {
        "Solved! Press N for a new puzzle."@
    } else {
        "Filled, but "@ + decimal(validation_messages(&p.grid, marks, p.clues@).len())
            + " rule violation(s) - press C to see them"@
    }
}

/// The tone of [`progress_text`].
pub open spec fn progress_kind(p: Puzzle, marks: Seq<u8>) -> Kind {
    if count_unknown(marks) > 0 {
        Kind::Info
    } else if is_solution(&p.grid, marks, p.clues@) {
        Kind::Good
    } else {
        Kind::Bad
    }
}

/// The marks, history, last change and whether anything changed after a
/// stroke of `value` along `path`: clue cells and cells that already hold
/// the value are skipped, every other cell is set and remembered.
pub open spec fn stroke(
    p: Puzzle,
    start: (Seq<u8>, Seq<(usize, u8)>, Option<usize>, bool),
    path: Seq<usize>,
    value: u8,
) -> (Seq<u8>, Seq<(usize, u8)>, Option<usize>, bool)
    decreases path.len(),
{
    if path.len() == 0 {
        start
    } else {
        let (c, h, f, changed) = stroke(p, start, path.drop_last(), value);
        let j = path.last();
        if has_clue(p.clues@, j as int) || c[j as int] == value {
            (c, h, f, changed)
        } else {
            (c.update(j as int, value), remember(h, (j, c[j as int])), Some(j), true)
        }
    }
}

/// The marks, history and number of filled cells after applying `marks` in
/// order; a mark for a cell that is already decided is skipped.
pub open spec fn fill(
    start: (Seq<u8>, Seq<(usize, u8)>, nat),
    marks: Seq<(usize, u8)>,
) -> (Seq<u8>, Seq<(usize, u8)>, nat)
    decreases marks.len(),
{
    if marks.len() == 0 {
        start
    } else {
        let (c, h, k) = fill(start, marks.drop_last());
        let (j, v) = marks.last();
        if c[j as int] != UNKNOWN {
            (c, h, k)
        } else {
            (c.update(j as int, v), remember(h, (j, c[j as int])), k + 1)
        }
    }
}

/// Filling in nothing leaves the marks and the history as they were.
proof fn lemma_fill_none(start: (Seq<u8>, Seq<(usize, u8)>, nat), marks: Seq<(usize, u8)>)
    requires
        fill(start, marks).2 == start.2,
    ensures
        fill(start, marks) == start,
    decreases marks.len(),
{
    if marks.len() > 0 {
        lemma_fill_grows(start, marks.drop_last());
        lemma_fill_none(start, marks.drop_last());
    }
}

proof fn lemma_fill_grows(start: (Seq<u8>, Seq<(usize, u8)>, nat), marks: Seq<(usize, u8)>)
    ensures
        fill(start, marks).2 >= start.2,
    decreases marks.len(),
{
    if marks.len() > 0 {
        lemma_fill_grows(start, marks.drop_last());
    }
}

/// The history after a reset of the first `k` cells to `target`: every cell
/// that changes is remembered, in cell order.
pub open spec fn reset_history(
    h: Seq<(usize, u8)>,
    marks: Seq<u8>,
    target: Seq<u8>,
    k: int,
) -> Seq<(usize, u8)>
    decreases k,
{
    if k <= 0 {
        h
    } else {
        let before = reset_history(h, marks, target, k - 1);
        if marks[k - 1] != target[k - 1] {
            remember(before, ((k - 1) as usize, marks[k - 1]))
        } else {
            before
        }
    }
}

/// The next mark of a tap: unmarked, then wall, then empty, then unmarked.
pub open spec fn tapped(v: u8) -> u8 {
    if v == BLACK {
        WHITE
    } else if v == WHITE {
        UNKNOWN
    } else {
        BLACK
    }
}

/// A complete set of one-step deductions for `marks`: each fills a distinct
/// undecided cell, agrees with every completion of the marks that meets
/// every clue, and afterwards no clue forces anything more.
pub open spec fn deduced(p: Puzzle, marks: Seq<u8>, ds: Seq<(usize, u8)>) -> bool {
    &&& forall|e: int|
        0 <= e < ds.len() ==> {
            &&& (#[trigger] ds[e]).0 < p.grid.size()
            &&& marks[ds[e].0 as int] == UNKNOWN
            &&& (ds[e].1 == BLACK || ds[e].1 == WHITE)
        }
    &&& forall|e: int, f: int| 0 <= e < f < ds.len() ==> ds[e].0 != ds[f].0
    &&& forall|s: Seq<u8>|
        completes(&p.grid, s, marks, p.clues@) ==> forall|e: int|
            0 <= e < ds.len() ==> s[(#[trigger] ds[e]).0 as int] == ds[e].1
    &&& forall|t: int|
        0 <= t < p.clues@.len() ==> clue_forces(
            &p.grid,
            apply_marks(marks, ds),
            (#[trigger] p.clues@[t]).0 as int,
            p.clues@[t].1@,
        ).len() == 0
}

/// The one-line statistics of a generation.
pub open spec fn stats_text(
    clues: nat,
    w: nat,
    h: nat,
    ms: u64,
    attempts: usize,
    nodes: u64,
) -> Seq<char> {
    decimal(clues) + " clues, "@ + decimal(w) + "x"@ + decimal(h) + ", "@ + decimal(ms as nat)
        + " ms, "@ + decimal(attempts as nat) + " attempt(s), "@ + decimal(nodes as nat)
        + " node(s)"@
}

/// The cells of the line drawn from `from` to `to`, both ends included:
/// one cell for each step of the longer of the two distances, plus one.
pub open spec fn line_path(g: &Grid, from: usize, to: usize) -> Seq<usize> {
    Seq::new(
        (chebyshev_distance(g, from as int, to as int) + 1) as nat,
        |e: int| line_cell(g, from as int, to as int, e as nat) as usize,
    )
}

/// The cell is one of the cells of the line drawn from `from` to `to`.
pub open spec fn on_line(g: &Grid, from: usize, to: usize, j: usize) -> bool {
    line_path(g, from, to).contains(j)
}

/// A walk of king steps from `from` to `to` on the board.
pub open spec fn walk(g: &Grid, path: Seq<usize>, from: usize, to: usize) -> bool {
    &&& path.len() >= 1
    &&& path[0] == from
    &&& path.last() == to
    &&& forall|e: int| 0 <= e < path.len() ==> #[trigger] path[e] < g.size()
    &&& forall|e: int| 0 <= e < path.len() - 1 ==> king_step(g, #[trigger] path[e] as int, path[e + 1] as int)
}

impl Engine {
    /// Without a puzzle nothing is marked; with one, the marks cover the
    /// board, clue cells stay empty and every remembered change can be
    /// undone.
    pub open spec fn sound(&self) -> bool {
        &&& self.history@.len() <= MAX_HISTORY
        &&& match self.puzzle {
            None => {
                &&& self.cells@.len() == 0
                &&& self.history@.len() == 0
                &&& self.drag is None
                &&& self.anchor is None
            },
            Some(p) => {
                let n = p.grid.size();
                &&& playable(p)
                &&& self.cells@.len() == n
                &&& self.wrong@.len() == n
                &&& forall|i: int| 0 <= i < n ==> is_mark(#[trigger] self.cells@[i])
                &&& forall|i: int| 0 <= i < n && has_clue(p.clues@, i) ==> #[trigger] self.cells@[i] == WHITE
                &&& forall|e: int|
                    0 <= e < self.history@.len() ==> {
                        &&& (#[trigger] self.history@[e]).0 < n
                        &&& is_mark(self.history@[e].1)
                        &&& !has_clue(p.clues@, self.history@[e].0 as int)
                    }
                &&& self.drag matches Some(d) ==> d.last < n && is_mark(d.value)
                &&& self.anchor matches Some(a) ==> a < n
                &&& self.last_changed matches Some(c) ==> c < n
            },
        }
    }

    /// The live feedback and the solved flag describe the current marks.
    pub open spec fn in_sync(&self) -> bool {
        match self.puzzle {
            None => !self.solved,
            Some(p) => {
                &&& errors_match(self.errors, p, self.cells@, self.last_changed)
                &&& self.solved == is_solution(&p.grid, self.cells@, p.clues@)
            },
        }
    }

    /// The engine's invariant.
    pub open spec fn wf(&self) -> bool {
        self.sound() && self.in_sync()
    }

    /// The fields a change of marks leaves alone.
    pub open spec fn keeps_board(&self, other: &Engine) -> bool {
        &&& other.puzzle == self.puzzle
        &&& other.wrong@ == self.wrong@
        &&& other.drag == self.drag
        &&& other.show_solution == self.show_solution
        &&& other.seed == self.seed
        &&& other.stats@ == self.stats@
        &&& other.output@ == self.output@
        &&& other.settings_error@ == self.settings_error@
    }

    /// The marks and what is derived from them are unchanged.
    pub open spec fn keeps_marks(&self, other: &Engine) -> bool {
        &&& other.cells@ == self.cells@
        &&& other.history@ == self.history@
        &&& other.last_changed == self.last_changed
        &&& other.anchor == self.anchor
        &&& other.errors.cells@ == self.errors.cells@
        &&& other.errors.clues@ == self.errors.clues@
        &&& other.solved == self.solved
    }

    /// Only the status line changed, to `text` in the tone `kind`.
    pub open spec fn noted(&self, other: &Engine, text: Seq<char>, kind: Kind) -> bool {
        &&& self.keeps_board(other)
        &&& self.keeps_marks(other)
        &&& other.status@ == text
        &&& other.kind == kind
    }

    /// The status line reports the progress of the marks.
    pub open spec fn shows_progress(&self) -> bool {
        self.puzzle matches Some(p) ==> {
            &&& self.status@ == progress_text(p, self.cells@)
            &&& self.kind == progress_kind(p, self.cells@)
        }
    }

    /// The board cell at column `x`, row `y`, if there is a puzzle and the
    /// position lies on it.
    pub open spec fn target(&self, x: i64, y: i64) -> Option<usize> {
        match self.puzzle {
            None => None,
            Some(p) => if 0 <= x < p.grid.w && 0 <= y < p.grid.h {
                Some((y * p.grid.w + x) as usize)
            } else {
                None
            },
        }
    }

    /// The cell holds a clue.
    pub open spec fn clue_cell(&self, c: int) -> bool {
        self.puzzle matches Some(p) && has_clue(p.clues@, c)
    }

    /// A change of marks: `other` holds `marks` and `history`, remembers
    /// `focus` as the last change (when there is one), and reports progress.
    pub open spec fn moved(
        &self,
        other: &Engine,
        marks: Seq<u8>,
        history: Seq<(usize, u8)>,
        focus: Option<usize>,
    ) -> bool {
        &&& self.keeps_board(other)
        &&& other.cells@ == marks
        &&& other.history@ == history
        &&& other.last_changed == (if focus is Some {
            focus
        } else {
            self.last_changed
        })
        &&& other.shows_progress()
    }

    /// What [`Engine::set_cell`] does.
    pub open spec fn set_post(&self, other: &Engine, cell: usize, value: u8) -> bool {
        if self.cells@[cell as int] == value {
            *other == *self
        } else {
            &&& self.moved(
                other,
                self.cells@.update(cell as int, value),
                remember(self.history@, (cell, self.cells@[cell as int])),
                Some(cell),
            )
            &&& other.anchor == self.anchor
        }
    }

    /// All but the stroke, the marks and the status line are unchanged.
    pub open spec fn keeps_rest(&self, other: &Engine) -> bool {
        &&& other.puzzle == self.puzzle
        &&& other.wrong@ == self.wrong@
        &&& other.show_solution == self.show_solution
        &&& other.seed == self.seed
        &&& other.stats@ == self.stats@
        &&& other.output@ == self.output@
        &&& other.settings_error@ == self.settings_error@
    }

    /// Marks, derived state and status line are unchanged.
    pub open spec fn stays(&self, other: &Engine) -> bool {
        &&& self.keeps_rest(other)
        &&& other.cells@ == self.cells@
        &&& other.history@ == self.history@
        &&& other.last_changed == self.last_changed
        &&& other.errors.cells@ == self.errors.cells@
        &&& other.errors.clues@ == self.errors.clues@
        &&& other.solved == self.solved
        &&& other.status@ == self.status@
        &&& other.kind == self.kind
    }

    /// What painting one cell of a stroke leaves behind, the stroke and the
    /// spotlight aside.
    pub open spec fn painted(&self, other: &Engine, cell: usize, value: u8) -> bool {
        if self.clue_cell(cell as int) || self.cells@[cell as int] == value {
            self.stays(other)
        } else {
            &&& self.keeps_rest(other)
            &&& other.cells@ == self.cells@.update(cell as int, value)
            &&& other.history@ == remember(self.history@, (cell, self.cells@[cell as int]))
            &&& other.last_changed == Some(cell)
            &&& other.shows_progress()
        }
    }

    /// What [`Engine::paint_cell`] does.
    pub open spec fn paint_post(&self, other: &Engine, cell: usize, value: u8) -> bool {
        if self.clue_cell(cell as int) {
            *other == *self
        } else {
            self.set_post(other, cell, value)
        }
    }

    /// What [`Engine::begin_drag`] does.
    pub open spec fn begin_post(&self, other: &Engine, x: i64, y: i64, left: bool) -> bool {
        let want = if left {
            BLACK
        } else {
            WHITE
        };
        if self.show_solution {
            *other == *self
        } else {
            match self.target(x, y) {
                None => *other == *self,
                Some(idx) => {
                    let value = if self.clue_cell(idx as int) {
                        want
                    } else if self.cells@[idx as int] == want {
                        UNKNOWN
                    } else {
                        want
                    };
                    &&& self.painted(other, idx, value)
                    &&& other.drag == Some(Drag { value, last: idx })
                    &&& other.anchor == (if value == BLACK {
                        Some(idx)
                    } else {
                        None
                    })
                },
            }
        }
    }

    /// What [`Engine::drag_to`] does: the cells of the line drawn from the
    /// last cell of the stroke to the new one, a walk of king steps, are
    /// painted in order.
    pub open spec fn drag_post(&self, other: &Engine, x: i64, y: i64) -> bool {
        match self.drag {
            None => *other == *self,
            Some(d) => match self.target(x, y) {
                None => *other == *self,
                Some(idx) => if idx == d.last {
                    *other == *self
                } else {
                    let p = self.puzzle->Some_0;
                    let path = line_path(&p.grid, d.last, idx);
                    &&& walk(&p.grid, path, d.last, idx)
                    &&& self.stroked(other, path, d.value)
                    &&& other.drag == Some(Drag { value: d.value, last: idx })
                    &&& other.anchor == (if d.value == BLACK {
                        Some(idx)
                    } else {
                        None
                    })
                },
            },
        }
    }

    /// `other` is this engine after a stroke of `value` along `path`, the
    /// stroke and the spotlight aside.
    pub open spec fn stroked(&self, other: &Engine, path: Seq<usize>, value: u8) -> bool {
        let p = self.puzzle->Some_0;
        let (c, h, f, changed) = stroke(
            p,
            (self.cells@, self.history@, self.last_changed, false),
            path,
            value,
        );
        if changed {
            &&& self.keeps_rest(other)
            &&& other.cells@ == c
            &&& other.history@ == h
            &&& other.last_changed == f
            &&& other.shows_progress()
        } else {
            self.stays(other)
        }
    }

    /// What [`Engine::tap_cell`] does.
    pub open spec fn tap_post(&self, other: &Engine, x: i64, y: i64) -> bool {
        if self.show_solution {
            *other == *self
        } else {
            match self.target(x, y) {
                None => *other == *self,
                Some(idx) => if self.clue_cell(idx as int) {
                    self.clue_step_post(other, x, y)
                } else {
                    let next = tapped(self.cells@[idx as int]);
                    &&& self.moved(
                        other,
                        self.cells@.update(idx as int, next),
                        remember(self.history@, (idx, self.cells@[idx as int])),
                        Some(idx),
                    )
                    &&& other.anchor == (if next == BLACK {
                        Some(idx)
                    } else {
                        None
                    })
                },
            }
        }
    }

    /// `other` is this engine after filling in `marks`: the cells filled,
    /// the spotlight off when any was, the rest of the board unchanged.
    pub open spec fn filled(&self, other: &Engine, marks: Seq<(usize, u8)>) -> bool {
        let (c, h, k) = fill((self.cells@, self.history@, 0), marks);
        &&& self.keeps_board(other)
        &&& other.cells@ == c
        &&& other.history@ == h
        &&& other.last_changed == self.last_changed
        &&& (if k > 0 {
            other.anchor is None
        } else {
            other.anchor == self.anchor
        })
    }

    /// What [`Engine::clue_step_at`] does.
    pub open spec fn clue_step_post(&self, other: &Engine, x: i64, y: i64) -> bool {
        if self.show_solution {
            *other == *self
        } else {
            match self.target(x, y) {
                None => *other == *self,
                Some(cell) => {
                    let p = self.puzzle->Some_0;
                    let at = at_text(p.grid.w as int, cell as int);
                    match p.clue_index@[cell as int] {
                        None => self.noted(
                            other,
                            "Middle-click a clue cell to step just that clue."@,
                            Kind::Info,
                        ),
                        Some(k) => {
                            let clue = p.clues@[k as int].1@;
                            let step = clue_forces(&p.grid, self.cells@, cell as int, clue);
                            if !satisfiable(&p.grid, self.cells@, cell as int, clue) {
                                self.noted(
                                    other,
                                    "Clue "@ + at + " can no longer be satisfied."@,
                                    Kind::Bad,
                                )
                            } else if step.len() == 0 {
                                self.noted(other, "Clue "@ + at + " forces nothing new."@, Kind::Info)
                            } else {
                                &&& self.filled(other, step)
                                &&& other.status@ == "Clue "@ + at + ": filled "@ + decimal(
                                    fill((self.cells@, self.history@, 0), step).2,
                                ) + " cell(s)."@
                                &&& other.kind == Kind::Good
                            }
                        },
                    }
                },
            }
        }
    }

    /// What [`Engine::one_step`] does: some complete set of deductions of
    /// the clues (see [`deduced`]) is filled in.
    pub open spec fn one_step_post(&self, other: &Engine) -> bool {
        if self.show_solution {
            *other == *self
        } else {
            match self.puzzle {
                None => *other == *self,
                Some(p) => exists|ds: Seq<(usize, u8)>|
                    #[trigger] deduced(p, self.cells@, ds) && if ds.len() == 0 {
                        self.noted(
                            other,
                            "One step: the clues force nothing new right now."@,
                            Kind::Info,
                        )
                    } else {
                        let k = fill((self.cells@, self.history@, 0), ds).2;
                        &&& self.filled(other, ds)
                        &&& other.status@ == "One step: filled "@ + decimal(k) + " cell"@ + plural(k)
                            + " the clues force."@
                        &&& other.kind == Kind::Good
                    },
            }
        }
    }

    /// What [`Engine::reset`] does: every mark back to the start, each
    /// change remembered for undo.
    pub open spec fn reset_post(&self, other: &Engine) -> bool {
        match self.puzzle {
            None => *other == *self,
            Some(p) => {
                &&& self.moved(
                    other,
                    fresh(p),
                    reset_history(self.history@, self.cells@, fresh(p), p.grid.size() as int),
                    None,
                )
                &&& other.anchor is None
            },
        }
    }

    /// What [`Engine::new_puzzle`] does.
    pub open spec fn new_puzzle_post(&self, other: &Engine, seed: u64, cfg: &GenConfig) -> bool {
        &&& other.seed == seed
        &&& !other.show_solution
        &&& other.drag is None
        &&& other.anchor is None
        &&& other.last_changed is None
        &&& other.history@.len() == 0
        &&& other.output@.len() == 0
        &&& other.settings_error@ == self.settings_error@
        &&& match other.puzzle {
            Some(p) => {
                &&& p.grid.w == cfg.w
                &&& p.grid.h == cfg.h
                &&& p.seed == seed
                &&& is_solution(&p.grid, p.solution@, p.clues@)
                &&& forall|s: Seq<u8>| #[trigger] is_solution(&p.grid, s, p.clues@) ==> s == p.solution@
                &&& forall|t: int|
                    0 <= t < p.clues@.len() ==> showable_clue((#[trigger] p.clues@[t]).1@) && p.clues@[t].1@
                        == mask_runs(cell_mask(&p.grid, p.solution@, p.clues@[t].0 as int))
                &&& cfg.deadline is None && cfg.time_budget_ms == 0 && cfg.check_min_nodes >= pow2(
                    (cfg.w * cfg.h) as nat + 1,
                ) && cfg.node_budget >= (cfg.max_attempts + 1) * (cfg.w * cfg.h + 1) * pow2(
                    (cfg.w * cfg.h) as nat + 1,
                ) ==> forall|t: int| 0 <= t < p.clues@.len() ==> ambiguous(&p.grid, #[trigger] p.clues@.remove(t))
                &&& other.cells@ == fresh(p)
                &&& other.wrong@.len() == p.grid.size()
                &&& forall|i: int| 0 <= i < p.grid.size() ==> !#[trigger] other.wrong@[i]
                &&& other.shows_progress()
                &&& exists|ms: u64, attempts: usize, nodes: u64| #[trigger]
                    stats_text(p.clues@.len() as nat, cfg.w as nat, cfg.h as nat, ms, attempts, nodes)
                        == other.stats@
            },
            None => {
                &&& other.cells@.len() == 0
                &&& other.wrong@.len() == 0
                &&& other.stats@.len() == 0
                &&& other.status@ == "generation failed (seed "@ + decimal(seed as nat)
                    + "); try a smaller board or a bigger budget"@
                &&& other.kind == Kind::Bad
            },
        }
    }

    /// The play state is unchanged: all but the settings error and the
    /// output.
    pub open spec fn same_play(&self, other: &Engine) -> bool {
        &&& other.puzzle == self.puzzle
        &&& other.wrong@ == self.wrong@
        &&& other.drag == self.drag
        &&& other.show_solution == self.show_solution
        &&& other.seed == self.seed
        &&& other.stats@ == self.stats@
        &&& self.keeps_marks(other)
        &&& other.status@ == self.status@
        &&& other.kind == self.kind
    }

    /// What an accepted command line `ws` does, and what it leaves to the
    /// caller.
    pub open spec fn obeys(&self, other: &Engine, ws: Seq<Seq<char>>, req: Request) -> bool {
        if ws.len() == 0 {
            *other == *self && req is Done
        } else {
            let name = ws[0];
            if name == "set"@ {
                &&& req matches Request::Setting { key, value } && key@ == ws[1] && value@ == joined(
                    ws.skip(2),
                )
                &&& self.same_play(other)
                &&& other.output@ == self.output@
                &&& other.settings_error@.len() == 0
            } else if name == "generate"@ {
                &&& req == Request::Generate {
                    seed: if ws.len() >= 2 {
                        seed_text(ws[1])->Some_0
                    } else {
                        self.seed
                    },
                }
                &&& *other == *self
            } else if name == "paint"@ {
                &&& req is Done
                &&& if ws[1] == "begin"@ {
                    self.begin_post(other, xy(ws, 2).0, xy(ws, 2).1, button(word_at(ws, 4))->Ok_0)
                } else if ws[1] == "move"@ {
                    self.drag_post(other, xy(ws, 2).0, xy(ws, 2).1)
                } else {
                    &&& other.drag is None
                    &&& other.puzzle == self.puzzle
                    &&& other.wrong@ == self.wrong@
                    &&& other.show_solution == self.show_solution
                    &&& other.seed == self.seed
                    &&& other.stats@ == self.stats@
                    &&& other.output@ == self.output@
                    &&& other.settings_error@ == self.settings_error@
                    &&& self.keeps_marks(other)
                    &&& other.status@ == self.status@
                    &&& other.kind == self.kind
                }
            } else if name == "tap"@ {
                req is Done && self.tap_post(other, xy(ws, 1).0, xy(ws, 1).1)
            } else if name == "cluestep"@ {
                req is Done && self.clue_step_post(other, xy(ws, 1).0, xy(ws, 1).1)
            } else if name == "print"@ {
                req == Request::Print { count: count_or(word_at(ws, 1), 1)->Ok_0 } && *other
                    == *self
            } else if name == "bench"@ {
                req == Request::Bench { count: count_or(word_at(ws, 1), 1)->Ok_0 } && *other
                    == *self
            } else if name == "init"@ {
                &&& req is Done
                &&& self.same_play(other)
                &&& other.output@.len() == 0
                &&& other.settings_error@.len() == 0
            } else if name == "defaults"@ {
                &&& req is Defaults
                &&& self.same_play(other)
                &&& other.output@ == self.output@
                &&& other.settings_error@.len() == 0
            } else if name == "undo"@ {
                req is Done && self.undo_post(other)
            } else if name == "reset"@ {
                req is Done && self.reset_post(other)
            } else if name == "check"@ {
                req is Done && self.check_post(other)
            } else if name == "solution"@ {
                req is Done && self.toggle_post(other)
            } else {
                req is Done && self.one_step_post(other)
            }
        }
    }

    /// What [`Engine::print_puzzles`] does.
    pub open spec fn print_post(&self, other: &Engine, count: usize, cfg: &GenConfig) -> bool {
        let seed = if self.seed == 0 {
            1
        } else {
            self.seed
        };
        &&& print_report(other.output@, count as nat, cfg.w as nat, cfg.h as nat, seed)
        &&& other.status@ == "Printed "@ + decimal(count as nat) + " puzzle(s) below"@
        &&& other.kind == Kind::Good
        &&& self.keeps_rest_but_output(other)
    }

    /// What [`Engine::bench`] does: the seed is the engine's, or a reading
    /// of the clock when the engine has none yet.
    pub open spec fn bench_post(&self, other: &Engine, count: usize, cfg: &GenConfig) -> bool {
        &&& exists|seed: u64|
            #[trigger] bench_text(other.output@, count as nat, cfg.w as nat, cfg.h as nat, seed) && (
            self.seed != 0 ==> seed == self.seed)
        &&& exists|centis: nat|
            other.status@ == "Bench: "@ + decimal(count as nat) + " puzzle(s) in "@ + #[trigger] seconds_text(
                centis,
            ) + " s"@
        &&& other.kind == Kind::Good
        &&& self.keeps_rest_but_output(other)
    }

    /// All but the output and the status line are unchanged.
    pub open spec fn keeps_rest_but_output(&self, other: &Engine) -> bool {
        &&& other.puzzle == self.puzzle
        &&& other.wrong@ == self.wrong@
        &&& other.drag == self.drag
        &&& other.show_solution == self.show_solution
        &&& other.seed == self.seed
        &&& other.stats@ == self.stats@
        &&& other.settings_error@ == self.settings_error@
        &&& self.keeps_marks(other)
    }

    /// What [`Engine::toggle_solution`] does.
    pub open spec fn toggle_post(&self, other: &Engine) -> bool {
        if self.puzzle is None {
            *other == *self
        } else {
            &&& other.show_solution == !self.show_solution
            &&& other.puzzle == self.puzzle
            &&& other.wrong@ == self.wrong@
            &&& other.drag == self.drag
            &&& other.seed == self.seed
            &&& other.stats@ == self.stats@
            &&& other.output@ == self.output@
            &&& other.settings_error@ == self.settings_error@
            &&& self.keeps_marks(other)
            &&& other.status@ == (if other.show_solution {
                "Showing the solution (S to hide)"@
            } else {
                "Solution hidden"@
            })
            &&& other.kind == Kind::Info
        }
    }

    /// What [`Engine::check`] does.
    pub open spec fn check_post(&self, other: &Engine) -> bool {
        match self.puzzle {
            None => *other == *self,
            Some(p) => {
                let n = p.grid.size();
                let bad = count_pred(n as int, |i: int| mistaken(p, self.cells@, i));
                &&& other.wrong@ == Seq::new(n as nat, |i: int| mistaken(p, self.cells@, i))
                &&& other.puzzle == self.puzzle
                &&& other.drag == self.drag
                &&& other.show_solution == self.show_solution
                &&& other.seed == self.seed
                &&& other.stats@ == self.stats@
                &&& other.output@ == self.output@
                &&& other.settings_error@ == self.settings_error@
                &&& self.keeps_marks(other)
                &&& other.status@ == (if bad == 0 {
                    "No mistakes so far."@
                } else {
                    decimal(bad) + " wrong cell(s) marked in red"@
                })
                &&& other.kind == (if bad == 0 {
                    Kind::Good
                } else {
                    Kind::Bad
                })
            },
        }
    }

    /// What [`Engine::undo`] does.
    pub open spec fn undo_post(&self, other: &Engine) -> bool {
        if self.show_solution {
            *other == *self
        } else if self.history@.len() == 0 {
            self.noted(other, "Nothing to undo."@, Kind::Info)
        } else {
            let (cell, previous) = self.history@.last();
            &&& self.moved(
                other,
                self.cells@.update(cell as int, previous),
                self.history@.drop_last(),
                Some(cell),
            )
            &&& other.anchor is None
        }
    }
}

/// `true` or `false`.
pub open spec fn flag(b: bool) -> Seq<char> {
    if b {
        "true"@
    } else {
        "false"@
    }
}

/// The number a status tone is sent as.
pub open spec fn kind_code(k: Kind) -> nat {
    match k {
        Kind::Info => 0,
        Kind::Good => 1,
        Kind::Bad => 2,
    }
}

/// The spotlighted wall, or `-1`.
pub open spec fn anchor_text(a: Option<usize>) -> Seq<char> {
    match a {
        Some(c) => decimal(c as nat),
        None => "-1"@,
    }
}

/// Marks as digits.
pub open spec fn mark_chars(cells: Seq<u8>) -> Seq<char> {
    cells.map_values(|c: u8| (48 + c) as char)
}

/// `cell:numbers;` for every clue.
pub open spec fn clue_list(clues: Seq<(usize, Clue)>) -> Seq<char>
    decreases clues.len(),
{
    if clues.len() == 0 {
        Seq::empty()
    } else {
        clue_list(clues.drop_last()) + decimal(clues.last().0 as nat) + ":"@ + clue_chars(
            clues.last().1@,
        ) + ";"@
    }
}

/// `s` followed by one field of the form as a JSON object.
pub open spec fn field_after(s: Seq<char>, f: Field) -> Seq<char> {
    s + "{\"key\":\""@ + escaped(f.key@) + "\",\"label\":\""@ + escaped(f.label@) + "\",\"help\":\""@
        + escaped(f.help@) + "\",\"value\":\""@ + escaped(f.value@) + "\"}"@
}

/// `s` followed by the fields of the form, separated by commas.
pub open spec fn fields_after(s: Seq<char>, fs: Seq<Field>) -> Seq<char>
    decreases fs.len(),
{
    if fs.len() == 0 {
        s
    } else if fs.len() == 1 {
        field_after(s, fs[0])
    } else {
        field_after(fields_after(s, fs.drop_last()) + ","@, fs.last())
    }
}

/// `s` followed by the messages of the state.
pub open spec fn messages_after(s: Seq<char>, e: Engine, error: Seq<char>) -> Seq<char> {
    s + "{\"ok\":"@ + flag(error.len() == 0) + ",\"error\":\""@ + escaped(error) + "\",\"status\":\""@
        + escaped(e.status@) + "\",\"settingsError\":\""@ + escaped(e.settings_error@)
        + "\",\"stats\":\""@ + escaped(e.stats@) + "\""@
}

/// `s` followed by the size, the tone and the flags of the state.
pub open spec fn numbers_after(s: Seq<char>, e: Engine, panel: Panel) -> Seq<char> {
    let (w, h) = match e.puzzle {
        Some(p) => (p.grid.w, p.grid.h),
        None => (panel.size, panel.size),
    };
    s + ",\"w\":"@ + decimal(w as nat) + ",\"h\":"@ + decimal(h as nat) + ",\"kind\":"@ + decimal(
        kind_code(e.kind),
    ) + ",\"seed\":"@ + decimal(e.seed as nat) + ",\"solved\":"@ + flag(e.solved)
        + ",\"showSolution\":"@ + flag(e.show_solution) + ",\"generating\":"@ + flag(
        e.puzzle is None,
    ) + ",\"canUndo\":"@ + flag(e.history@.len() > 0)
}

/// `s` followed by the spotlight, the clue count and the settings text.
pub open spec fn extras_after(s: Seq<char>, e: Engine, panel: Panel) -> Seq<char> {
    let clue_count = match e.puzzle {
        Some(p) => p.clues@.len(),
        None => 0,
    };
    s + ",\"anchor\":"@ + anchor_text(e.anchor) + ",\"clueCount\":"@ + decimal(clue_count)
        + ",\"settingsText\":\""@ + escaped(panel.text@) + "\""@
}

/// `s` followed by the board part of the state: marks, clues, feedback
/// and solution.
pub open spec fn board_after(s: Seq<char>, e: Engine) -> Seq<char> {
    match e.puzzle {
        None => s
            + ",\"cells\":\"\",\"clues\":\"\",\"errorsCells\":\"\",\"errorsClues\":\"\",\"wrong\":\"\",\"solution\":\"\""@,
        Some(p) => s + ",\"cells\":\""@ + mark_chars(e.cells@) + "\",\"clues\":\""@ + clue_list(
            p.clues@,
        ) + "\",\"errorsCells\":\""@ + bool_chars(e.errors.cells@) + "\",\"errorsClues\":\""@
            + bool_chars(e.errors.clues@) + "\",\"wrong\":\""@ + bool_chars(e.wrong@)
            + "\",\"solution\":\""@ + (if e.show_solution {
            mark_chars(p.solution@)
        } else {
            Seq::empty()
        }) + "\""@,
    }
}

/// `s` followed by the last part of the state: the output and the form,
/// when asked for, and the closing brace.
pub open spec fn tail_after(s: Seq<char>, e: Engine, with_fields: bool, panel: Panel) -> Seq<char> {
    let with_output = if e.output@.len() > 0 {
        s + ",\"output\":\""@ + escaped(e.output@) + "\""@
    } else {
        s
    };
    let with_form = if with_fields {
        fields_after(with_output + ",\"fields\":["@, panel.fields@) + "]"@
    } else {
        with_output
    };
    with_form + "}"@
}

/// The whole state as one JSON object.
pub open spec fn state_text(e: Engine, error: Seq<char>, with_fields: bool, panel: Panel) -> Seq<
    char,
> {
    tail_after(
        board_after(
            extras_after(numbers_after(messages_after(Seq::empty(), e, error), e, panel), e, panel),
            e,
        ),
        e,
        with_fields,
        panel,
    )
}

/// Word `i` of a command line, if there is one.
pub open spec fn word_at(ws: Seq<Seq<char>>, i: int) -> Option<Seq<char>> {
    if 0 <= i < ws.len() {
        Some(ws[i])
    } else {
        None
    }
}

/// The button word of `paint begin`: `1` or nothing for a wall, `0` for an
/// empty mark.
pub open spec fn button(t: Option<Seq<char>>) -> Result<bool, Seq<char>> {
    match t {
        None => Ok(true),
        Some(s) => if s == "1"@ {
            Ok(true)
        } else if s == "0"@ {
            Ok(false)
        } else {
            Err("paint begin wants 0 or 1"@)
        },
    }
}

/// The error of the coordinates at words `i` and `i + 1`, if any.
pub open spec fn xy_error(ws: Seq<Seq<char>>, i: int) -> Option<Seq<char>> {
    match coordinate(word_at(ws, i)) {
        Err(e) => Some(e),
        Ok(_) => match coordinate(word_at(ws, i + 1)) {
            Err(e) => Some(e),
            Ok(_) => None,
        },
    }
}

/// The coordinates at words `i` and `i + 1`.
pub open spec fn xy(ws: Seq<Seq<char>>, i: int) -> (i64, i64) {
    (coordinate(word_at(ws, i))->Ok_0, coordinate(word_at(ws, i + 1))->Ok_0)
}

/// The error a command line is answered with, or `None` when it is
/// accepted.
pub open spec fn command_error(ws: Seq<Seq<char>>) -> Option<Seq<char>> {
    if ws.len() == 0 {
        None
    } else {
        let name = ws[0];
        if name == "set"@ {
            if ws.len() < 2 {
                Some("set needs a key"@)
            } else {
                None
            }
        } else if name == "generate"@ {
            if ws.len() >= 2 && seed_text(ws[1]) is None {
                Some("bad seed"@)
            } else {
                None
            }
        } else if name == "paint"@ {
            if ws.len() < 2 {
                Some("paint needs a phase"@)
            } else if ws[1] == "begin"@ {
                match xy_error(ws, 2) {
                    Some(e) => Some(e),
                    None => match button(word_at(ws, 4)) {
                        Err(e) => Some(e),
                        Ok(_) => None,
                    },
                }
            } else if ws[1] == "move"@ {
                xy_error(ws, 2)
            } else if ws[1] == "end"@ {
                None
            } else {
                Some("unknown paint phase '"@ + ws[1] + "'"@)
            }
        } else if name == "tap"@ || name == "cluestep"@ {
            xy_error(ws, 1)
        } else if name == "print"@ || name == "bench"@ {
            match count_or(word_at(ws, 1), 1) {
                Err(e) => Some(e),
                Ok(_) => None,
            }
        } else if name == "init"@ || name == "defaults"@ || name == "undo"@ || name == "reset"@
            || name == "check"@ || name == "solution"@ || name == "onestep"@ {
            None
        } else {
            Some("unknown command '"@ + name + "'"@)
        }
    }
}

/// A decided mark that differs from the solution, on a cell without a clue.
pub open spec fn mistaken(p: Puzzle, marks: Seq<u8>, i: int) -> bool {
    &&& !has_clue(p.clues@, i)
    &&& marks[i] != UNKNOWN
    &&& marks[i] != p.solution@[i]
}

/// Decimal digits of `n`, appended.
fn push_u64(s: &mut String, n: u64)
    ensures
        final(s)@ == old(s)@ + decimal(n as nat),
    decreases n,
{
    if n >= 10 {
        push_u64(s, n / 10);
    }
    let d: u8 = (n % 10) as u8;
    let c = (48u8 + d) as char;
    push_char(s, c);
    proof {
        if n >= 10 {
            assert(decimal(n as nat) == decimal((n / 10) as nat).push((48 + n % 10) as char));
        }
    }
}

/// How many marks are still undecided.
fn count_open(marks: &Vec<u8>) -> (r: usize)
    ensures
        r == count_unknown(marks@),
{
    let mut r: usize = 0;
    let mut i: usize = 0;
    while i < marks.len()
        invariant
            i <= marks@.len(),
            r == count_unknown(marks@.take(i as int)),
            r <= i,
        decreases marks@.len() - i,
    {
        proof {
            assert(marks@.take(i + 1).drop_last() =~= marks@.take(i as int));
        }
        if marks[i] == UNKNOWN {
            r = r + 1;
        }
        i = i + 1;
    }
    proof {
        assert(marks@.take(marks@.len() as int) =~= marks@);
    }
    r
}

/// The status line, its tone and the solved flag for `marks`.
fn progress(p: &Puzzle, marks: &Vec<u8>) -> (r: (String, Kind, bool))
    requires
        playable(*p),
        marks@.len() == p.grid.size(),
        forall|i: int| 0 <= i < marks@.len() ==> is_mark(#[trigger] marks@[i]),
    ensures
        r.0@ == progress_text(*p, marks@),
        r.1 == progress_kind(*p, marks@),
        r.2 == is_solution(&p.grid, marks@, p.clues@),
{
    let open = count_open(marks);
    proof {
        lemma_validate_iff_solution(&p.grid, marks@, p.clues@);
        lemma_open_blocks_solution(p, marks@);
    }
    if open > 0 {
        let mut s = String::new();
        push_decimal(&mut s, open);
        s.append(" cell");
        if open != 1 {
            s.append("s");
        }
        s.append(" left");
        proof {
            reveal_strlit("");
            if open == 1 {
                assert(s@ =~= decimal(open as nat) + " cell"@ + ""@ + " left"@);
            } else {
                assert(s@ =~= decimal(open as nat) + " cell"@ + "s"@ + " left"@);
            }
        }
        (s, Kind::Info, false)
    } else {
        let errors = validate(&p.grid, marks, &p.clues);
        if errors.len() == 0 {
            (String::from_str("Solved! Press N for a new puzzle."), Kind::Good, true)
        } else {
            let mut s = String::from_str("Filled, but ");
            push_decimal(&mut s, errors.len());
            s.append(" rule violation(s) - press C to see them");
            (s, Kind::Bad, false)
        }
    }
}

/// A board with an undecided cell is no solution.
proof fn lemma_open_blocks_solution(p: &Puzzle, marks: Seq<u8>)
    ensures
        count_unknown(marks) > 0 ==> !is_solution(&p.grid, marks, p.clues@),
    decreases marks.len(),
{
    if marks.len() > 0 {
        lemma_open_blocks_solution(p, marks.drop_last());
        if count_unknown(marks) > 0 && is_solution(&p.grid, marks, p.clues@) {
            if marks.last() == UNKNOWN {
                assert(marks[marks.len() - 1] == UNKNOWN);
            } else {
                assert(count_unknown(marks.drop_last()) > 0);
                lemma_unknown_witness(marks.drop_last());
                let i = choose|i: int| 0 <= i < marks.drop_last().len() && marks.drop_last()[i] == UNKNOWN;
                assert(marks[i] == UNKNOWN);
            }
        }
    }
}

proof fn lemma_unknown_witness(marks: Seq<u8>)
    requires
        count_unknown(marks) > 0,
    ensures
        exists|i: int| 0 <= i < marks.len() && marks[i] == UNKNOWN,
    decreases marks.len(),
{
    if marks.last() == UNKNOWN {
        assert(marks[marks.len() - 1] == UNKNOWN);
    } else {
        lemma_unknown_witness(marks.drop_last());
        let i = choose|i: int| 0 <= i < marks.drop_last().len() && marks.drop_last()[i] == UNKNOWN;
        assert(marks[i] == UNKNOWN);
    }
}

impl Engine {
    /// An engine without a puzzle.
    pub fn new() -> (e: Engine)
        ensures
            e.wf(),
            e.puzzle is None,
            e.status@ == "Press New puzzle to generate one."@,
            e.kind == Kind::Info,
            !e.show_solution,
            e.seed == 0,
            e.history@.len() == 0,
            e.cells@.len() == 0,
            e.wrong@.len() == 0,
            e.errors.cells@.len() == 0,
            e.errors.clues@.len() == 0,
            e.last_changed is None,
            e.anchor is None,
            e.drag is None,
            !e.solved,
            e.stats@.len() == 0,
            e.output@.len() == 0,
            e.settings_error@.len() == 0,
    {
        Engine {
            puzzle: None,
            cells: Vec::new(),
            wrong: Vec::new(),
            errors: LiveErrors { cells: Vec::new(), clues: Vec::new() },
            history: VecDeque::new(),
            last_changed: None,
            anchor: None,
            drag: None,
            status: String::from_str("Press New puzzle to generate one."),
            kind: Kind::Info,
            solved: false,
            show_solution: false,
            seed: 0,
            stats: String::new(),
            output: String::new(),
            settings_error: String::new(),
        }
    }

    /// Fresh player marks: clue cells start empty, everything else open.
    pub fn fresh_marks(puzzle: &Puzzle) -> (cells: Vec<u8>)
        requires
            puzzle.wf(),
        ensures
            cells@ == fresh(*puzzle),
    {
        let n = puzzle.grid.len();
        let mut cells: Vec<u8> = Vec::new();
        let mut i: usize = 0;
        while i < n
            invariant
                puzzle.wf(),
                n == puzzle.grid.size(),
                i <= n,
                cells@ =~= fresh(*puzzle).take(i as int),
            decreases n - i,
        {
            if puzzle.is_clue(i) {
                cells.push(WHITE);
            } else {
                cells.push(UNKNOWN);
            }
            i = i + 1;
        }
        cells
    }

    /// The board size: the puzzle's, or `fallback` when there is none.
    pub fn size(&self, fallback: usize) -> (r: (usize, usize))
        ensures
            r == match self.puzzle {
                Some(p) => (p.grid.w, p.grid.h),
                None => (fallback, fallback),
            },
    {
        match &self.puzzle {
            Some(puzzle) => (puzzle.grid.w, puzzle.grid.h),
            None => (fallback, fallback),
        }
    }

    /// The cell at column `x`, row `y`, if it lies on the board.
    pub fn cell_index(&self, x: i64, y: i64) -> (r: Option<usize>)
        requires
            self.wf(),
        ensures
            r == self.target(x, y),
            r matches Some(c) ==> self.puzzle matches Some(p) && c < p.grid.size(),
    {
        match &self.puzzle {
            None => None,
            Some(puzzle) => {
                if x < 0 || y < 0 || x as u64 >= puzzle.grid.w as u64 || y as u64
                    >= puzzle.grid.h as u64 {
                    None
                } else {
                    let (xs, ys) = (x as usize, y as usize);
                    proof {
                        assert(ys * puzzle.grid.w + xs < puzzle.grid.w * puzzle.grid.h) by (nonlinear_arith)
                            requires
                                xs < puzzle.grid.w,
                                ys < puzzle.grid.h,
                        ;
                    }
                    Some(puzzle.grid.idx(xs, ys))
                }
            },
        }
    }

    /// Remember the focus and bring the feedback and the status line up to
    /// date with the marks.
    fn after_change(&mut self, focus: Option<usize>)
        requires
            old(self).sound(),
            old(self).puzzle matches Some(p) && (focus matches Some(c) ==> c < p.grid.size()),
        ensures
            final(self).wf(),
            old(self).moved(final(self), old(self).cells@, old(self).history@, focus),
            final(self).anchor == old(self).anchor,
    {
        if focus.is_some() {
            self.last_changed = focus;
        }
        match &self.puzzle {
            None => {},
            Some(puzzle) => {
                let errors = live_errors(&puzzle.grid, &self.cells, &puzzle.clues, self.last_changed);
                let (status, kind, solved) = progress(puzzle, &self.cells);
                self.errors = errors;
                self.status = status;
                self.kind = kind;
                self.solved = solved;
            },
        }
    }

    /// Change one cell, remembering the previous mark for undo.
    pub fn set_cell(&mut self, cell: usize, value: u8)
        requires
            old(self).wf(),
            old(self).puzzle matches Some(p) && cell < p.grid.size() && !has_clue(
                p.clues@,
                cell as int,
            ),
            is_mark(value),
        ensures
            final(self).wf(),
            old(self).set_post(final(self), cell, value),
    {
        if self.cells[cell] == value {
            return;
        }
        let previous = self.cells[cell];
        self.remember(cell, previous);
        self.cells.set(cell, value);
        self.after_change(Some(cell));
    }

    /// Push `(cell, previous)` on the history, dropping the oldest entry
    /// when it is full.
    fn remember(&mut self, cell: usize, previous: u8)
        requires
            old(self).history@.len() <= MAX_HISTORY,
        ensures
            final(self).history@ == remember(old(self).history@, (cell, previous)),
            final(self).history@.len() <= MAX_HISTORY,
            final(self).cells == old(self).cells,
            final(self).puzzle == old(self).puzzle,
            final(self).wrong == old(self).wrong,
            final(self).errors == old(self).errors,
            final(self).last_changed == old(self).last_changed,
            final(self).anchor == old(self).anchor,
            final(self).drag == old(self).drag,
            final(self).status == old(self).status,
            final(self).kind == old(self).kind,
            final(self).solved == old(self).solved,
            final(self).show_solution == old(self).show_solution,
            final(self).seed == old(self).seed,
            final(self).stats == old(self).stats,
            final(self).output == old(self).output,
            final(self).settings_error == old(self).settings_error,
    {
        self.history.push_back((cell, previous));
        if self.history.len() > MAX_HISTORY {
            self.history.pop_front();
        }
    }

    /// Take back the last change.
    pub fn undo(&mut self)
        requires
            old(self).wf(),
        ensures
            final(self).wf(),
            old(self).undo_post(final(self)),
    {
        if self.show_solution {
            return;
        }
        match self.history.pop_back() {
            None => {
                self.status = String::from_str("Nothing to undo.");
                self.kind = Kind::Info;
            },
            Some((cell, previous)) => {
                self.cells.set(cell, previous);
                self.anchor = None;
                self.after_change(Some(cell));
            },
        }
    }

    /// Show or hide the solution.
    pub fn toggle_solution(&mut self)
        requires
            old(self).wf(),
        ensures
            final(self).wf(),
            old(self).toggle_post(final(self)),
    {
        if self.puzzle.is_some() {
            self.show_solution = !self.show_solution;
            self.status = if self.show_solution {
                String::from_str("Showing the solution (S to hide)")
            } else {
                String::from_str("Solution hidden")
            };
            self.kind = Kind::Info;
        }
    }

    /// Compare the player's marks against the (unique) solution.
    pub fn check(&mut self)
        requires
            old(self).wf(),
        ensures
            final(self).wf(),
            old(self).check_post(final(self)),
    {
        match &self.puzzle {
            None => {},
            Some(puzzle) => {
                let n = self.cells.len();
                let mut wrong: Vec<bool> = Vec::new();
                let mut count: usize = 0;
                let mut i: usize = 0;
                while i < n
                    invariant
                        playable(*puzzle),
                        n == self.cells@.len(),
                        n == puzzle.grid.size(),
                        puzzle.solution@.len() == n,
                        i <= n,
                        wrong@ =~= Seq::new(i as nat, |j: int| mistaken(*puzzle, self.cells@, j)),
                        count == count_pred(i as int, |j: int| mistaken(*puzzle, self.cells@, j)),
                        count <= i,
                    decreases n - i,
                {
                    let c = self.cells[i];
                    let bad = !puzzle.is_clue(i) && c != UNKNOWN && c != puzzle.solution[i];
                    wrong.push(bad);
                    if bad {
                        count = count + 1;
                    }
                    i = i + 1;
                }
                self.wrong = wrong;
                if count == 0 {
                    self.status = String::from_str("No mistakes so far.");
                    self.kind = Kind::Good;
                } else {
                    let mut s = String::new();
                    push_decimal(&mut s, count);
                    s.append(" wrong cell(s) marked in red");
                    self.status = s;
                    self.kind = Kind::Bad;
                }
            },
        }
    }
}

impl Engine {
    /// Apply one stroke cell (clue cells are never touched).
    pub fn paint_cell(&mut self, cell: usize, value: u8)
        requires
            old(self).wf(),
            old(self).puzzle matches Some(p) && cell < p.grid.size(),
            is_mark(value),
        ensures
            final(self).wf(),
            old(self).paint_post(final(self), cell, value),
    {
        let is_clue = match &self.puzzle {
            Some(puzzle) => puzzle.is_clue(cell),
            None => false,
        };
        if is_clue {
            return;
        }
        self.set_cell(cell, value);
    }

    /// Start a stroke at column `x`, row `y`: a wall for the left button,
    /// an empty mark for the right one; a cell that already holds that mark
    /// is cleared instead.
    pub fn begin_drag(&mut self, x: i64, y: i64, left: bool)
        requires
            old(self).wf(),
        ensures
            final(self).wf(),
            old(self).begin_post(final(self), x, y, left),
    {
        if self.show_solution {
            return;
        }
        let idx = match self.cell_index(x, y) {
            Some(i) => i,
            None => {
                return;
            },
        };
        let is_clue = match &self.puzzle {
            Some(puzzle) => puzzle.is_clue(idx),
            None => {
                return;
            },
        };
        let want = if left {
            BLACK
        } else {
            WHITE
        };
        // A clue cell cannot be toggled, so the button decides its value.
        let value = if is_clue {
            want
        } else if self.cells[idx] == want {
            UNKNOWN
        } else {
            want
        };
        self.drag = Some(Drag { value, last: idx });
        self.paint_cell(idx, value);
        self.anchor = if value == BLACK {
            Some(idx)
        } else {
            None
        };
    }

    /// Continue the stroke to column `x`, row `y`, painting every cell on the
    /// way so that a quick drag leaves no gaps.
    pub fn drag_to(&mut self, x: i64, y: i64)
        requires
            old(self).wf(),
        ensures
            final(self).wf(),
            old(self).drag_post(final(self), x, y),
    {
        let (value, last) = match self.drag {
            Some(d) => (d.value, d.last),
            None => {
                return;
            },
        };
        let idx = match self.cell_index(x, y) {
            Some(i) => i,
            None => {
                return;
            },
        };
        if idx == last {
            return;
        }
        let path = match &self.puzzle {
            Some(puzzle) => line_cells(&puzzle.grid, last, idx),
            None => {
                return;
            },
        };
        let ghost start = *self;
        let ghost p = self.puzzle->Some_0;
        let ghost first = (start.cells@, start.history@, start.last_changed, false);
        let mut i: usize = 0;
        while i < path.len()
            invariant
                self.wf(),
                self.puzzle == Some(p),
                start.wf(),
                start.puzzle == Some(p),
                is_mark(value),
                i <= path@.len(),
                forall|e: int| 0 <= e < path@.len() ==> #[trigger] path@[e] < p.grid.size(),
                self.drag == start.drag,
                self.anchor == start.anchor,
                start.keeps_rest(self),
                ({
                    let st = stroke(p, first, path@.take(i as int), value);
                    &&& self.cells@ == st.0
                    &&& self.history@ == st.1
                    &&& self.last_changed == st.2
                    &&& (if st.3 {
                        self.shows_progress()
                    } else {
                        start.stays(self)
                    })
                }),
            decreases path@.len() - i,
        {
            proof {
                assert(path@.take(i + 1).drop_last() =~= path@.take(i as int));
            }
            self.paint_cell(path[i], value);
            i = i + 1;
        }
        proof {
            assert(path@.take(path@.len() as int) =~= path@);
            assert(path@ =~= line_path(&p.grid, last, idx));
            assert(walk(&p.grid, path@, last, idx));
        }
        self.drag = Some(Drag { value, last: idx });
        self.anchor = if value == BLACK {
            Some(idx)
        } else {
            None
        };
    }

    /// Fill in deduced marks as ordinary, undoable moves; a cell that is
    /// already decided keeps its mark. Returns how many cells were filled.
    pub fn apply_marks(&mut self, marks: Vec<(usize, u8)>) -> (applied: usize)
        requires
            old(self).wf(),
            old(self).puzzle matches Some(p) && forall|e: int|
                0 <= e < marks@.len() ==> (#[trigger] marks@[e]).0 < p.grid.size() && is_mark(
                    marks@[e].1,
                ),
        ensures
            final(self).wf(),
            old(self).filled(final(self), marks@),
            applied == fill((old(self).cells@, old(self).history@, 0), marks@).2,
            applied > 0 ==> final(self).shows_progress(),
            applied == 0 ==> old(self).stays(final(self)) && final(self).drag == old(self).drag,
    {
        let ghost start = *self;
        let ghost p = self.puzzle->Some_0;
        let mut applied: usize = 0;
        let mut i: usize = 0;
        while i < marks.len()
            invariant
                self.sound(),
                self.puzzle == Some(p),
                start.wf(),
                start.puzzle == Some(p),
                i <= marks@.len(),
                applied <= i,
                forall|e: int|
                    0 <= e < marks@.len() ==> (#[trigger] marks@[e]).0 < p.grid.size() && is_mark(
                        marks@[e].1,
                    ),
                ({
                    let st = fill((start.cells@, start.history@, 0), marks@.take(i as int));
                    &&& self.cells@ == st.0
                    &&& self.history@ == st.1
                    &&& applied == st.2
                }),
                start.keeps_board(self),
                self.last_changed == start.last_changed,
                self.anchor == start.anchor,
                self.errors.cells@ == start.errors.cells@,
                self.errors.clues@ == start.errors.clues@,
                self.solved == start.solved,
                self.status@ == start.status@,
                self.kind == start.kind,
            decreases marks@.len() - i,
        {
            proof {
                assert(marks@.take(i + 1).drop_last() =~= marks@.take(i as int));
            }
            let (cell, value) = marks[i];
            if self.cells[cell] == UNKNOWN {
                self.remember(cell, UNKNOWN);
                self.cells.set(cell, value);
                applied = applied + 1;
            }
            i = i + 1;
        }
        proof {
            assert(marks@.take(marks@.len() as int) =~= marks@);
            if applied == 0 {
                lemma_fill_none((start.cells@, start.history@, 0), marks@);
            }
        }
        if applied > 0 {
            self.anchor = None;
            self.after_change(None);
        }
        applied
    }

    /// Deduce what the clue at column `x`, row `y` alone forces now, and
    /// fill it in.
    pub fn clue_step_at(&mut self, x: i64, y: i64)
        requires
            old(self).wf(),
        ensures
            final(self).wf(),
            old(self).clue_step_post(final(self), x, y),
    {
        if self.show_solution {
            return;
        }
        let cell = match self.cell_index(x, y) {
            Some(c) => c,
            None => {
                return;
            },
        };
        let found = match &self.puzzle {
            None => {
                return;
            },
            Some(puzzle) => match puzzle.clue_index[cell] {
                None => None,
                Some(k) => {
                    let clue = &puzzle.clues[k].1;
                    let step = clue_step(&puzzle.grid, &self.cells, cell, clue);
                    let ok = clue_satisfiable(&puzzle.grid, &self.cells, cell, clue);
                    let mut at = String::from_str("Clue ");
                    push_at(&mut at, &puzzle.grid, cell);
                    proof {
                        lemma_clue_forces_cells(&puzzle.grid, self.cells@, cell as int, clue@);
                    }
                    Some((step, ok, at))
                },
            },
        };
        match found {
            None => {
                self.status = String::from_str("Middle-click a clue cell to step just that clue.");
                self.kind = Kind::Info;
            },
            Some((step, ok, at)) => {
                if !ok {
                    let mut text = at;
                    text.append(" can no longer be satisfied.");
                    self.status = text;
                    self.kind = Kind::Bad;
                    return;
                }
                if step.len() == 0 {
                    let mut text = at;
                    text.append(" forces nothing new.");
                    self.status = text;
                    self.kind = Kind::Info;
                    return;
                }
                let applied = self.apply_marks(step);
                let mut text = at;
                text.append(": filled ");
                push_decimal(&mut text, applied);
                text.append(" cell(s).");
                self.status = text;
                self.kind = Kind::Good;
            },
        }
    }

    /// One tap on a touch screen: unmarked, then wall, then empty, then
    /// unmarked again. A tap on a clue steps that clue instead.
    pub fn tap_cell(&mut self, x: i64, y: i64)
        requires
            old(self).wf(),
        ensures
            final(self).wf(),
            old(self).tap_post(final(self), x, y),
    {
        if self.show_solution {
            return;
        }
        let idx = match self.cell_index(x, y) {
            Some(i) => i,
            None => {
                return;
            },
        };
        let is_clue = match &self.puzzle {
            Some(puzzle) => puzzle.is_clue(idx),
            None => {
                return;
            },
        };
        if is_clue {
            self.clue_step_at(x, y);
            return;
        }
        let current = self.cells[idx];
        let next = if current == BLACK {
            WHITE
        } else if current == WHITE {
            UNKNOWN
        } else {
            BLACK
        };
        self.set_cell(idx, next);
        self.anchor = if next == BLACK {
            Some(idx)
        } else {
            None
        };
    }
}

impl Engine {
    /// Fill in everything the clues alone force, given the current marks.
    pub fn one_step(&mut self)
        requires
            old(self).wf(),
        ensures
            final(self).wf(),
            old(self).one_step_post(final(self)),
    {
        if self.show_solution {
            return;
        }
        let deduced_marks = match &self.puzzle {
            None => {
                return;
            },
            Some(puzzle) => clue_deductions(&puzzle.grid, &self.cells, &puzzle.clues),
        };
        let ghost ds = deduced_marks@;
        proof {
            assert(deduced(self.puzzle->Some_0, self.cells@, ds));
        }
        if deduced_marks.len() == 0 {
            self.status = String::from_str("One step: the clues force nothing new right now.");
            self.kind = Kind::Info;
            return;
        }
        let applied = self.apply_marks(deduced_marks);
        let mut text = String::from_str("One step: filled ");
        push_decimal(&mut text, applied);
        text.append(" cell");
        if applied != 1 {
            text.append("s");
        }
        text.append(" the clues force.");
        proof {
            reveal_strlit("");
            if applied == 1 {
                assert(text@ =~= "One step: filled "@ + decimal(applied as nat) + " cell"@ + ""@
                    + " the clues force."@);
            } else {
                assert(text@ =~= "One step: filled "@ + decimal(applied as nat) + " cell"@ + "s"@
                    + " the clues force."@);
            }
        }
        self.status = text;
        self.kind = Kind::Good;
    }

    /// Clear the board back to the start; every change can be undone.
    pub fn reset(&mut self)
        requires
            old(self).wf(),
        ensures
            final(self).wf(),
            old(self).reset_post(final(self)),
    {
        let start_marks = match &self.puzzle {
            None => {
                return;
            },
            Some(puzzle) => Engine::fresh_marks(puzzle),
        };
        let ghost start = *self;
        let ghost p = self.puzzle->Some_0;
        let n = self.cells.len();
        let mut i: usize = 0;
        while i < n
            invariant
                self.sound(),
                self.puzzle == Some(p),
                start.wf(),
                start.puzzle == Some(p),
                n == p.grid.size(),
                start_marks@ == fresh(p),
                i <= n,
                self.cells@ == start.cells@,
                self.history@ == reset_history(start.history@, start.cells@, fresh(p), i as int),
                start.keeps_board(self),
                self.last_changed == start.last_changed,
                self.anchor == start.anchor,
            decreases n - i,
        {
            let mark = self.cells[i];
            if mark != start_marks[i] {
                self.remember(i, mark);
            }
            i = i + 1;
        }
        self.cells = start_marks;
        self.anchor = None;
        self.after_change(None);
    }

    /// Generate a new puzzle from `seed` and start it with a fresh board.
    pub fn new_puzzle(&mut self, seed: u64, cfg: &GenConfig)
        requires
            old(self).wf(),
            cfg.w * cfg.h > 0,
            cfg.w * cfg.h < u32::MAX,
            cfg.w <= i32::MAX,
            cfg.h <= i32::MAX,
        ensures
            final(self).wf(),
            old(self).new_puzzle_post(final(self), seed, cfg),
    {
        self.seed = seed;
        self.solved = false;
        self.show_solution = false;
        self.history.clear();
        self.last_changed = None;
        self.anchor = None;
        self.drag = None;
        self.wrong.clear();
        self.output = String::new();
        self.status = String::from_str("Generating a puzzle with a unique solution...");
        self.kind = Kind::Info;

        let mut rng = Rng::new(seed);
        match generate_with(&mut rng, cfg) {
            Ok(result) => {
                let mut puzzle = result.puzzle;
                puzzle.seed = seed;
                let n = puzzle.grid.len();
                self.cells = Engine::fresh_marks(&puzzle);
                self.wrong = vec![false; n];
                let mut stats = String::new();
                push_decimal(&mut stats, puzzle.clues.len());
                stats.append(" clues, ");
                push_decimal(&mut stats, cfg.w);
                stats.append("x");
                push_decimal(&mut stats, cfg.h);
                stats.append(", ");
                let ms = rounded_ms(&result.stats.elapsed);
                push_u64(&mut stats, ms);
                stats.append(" ms, ");
                push_decimal(&mut stats, result.stats.attempts);
                stats.append(" attempt(s), ");
                push_u64(&mut stats, result.stats.nodes);
                stats.append(" node(s)");
                proof {
                    assert(stats@ =~= stats_text(
                        puzzle.clues@.len() as nat,
                        cfg.w as nat,
                        cfg.h as nat,
                        ms,
                        result.stats.attempts,
                        result.stats.nodes,
                    ));
                }
                self.stats = stats;
                self.puzzle = Some(puzzle);
                self.after_change(None);
            },
            Err(_) => {
                self.puzzle = None;
                self.cells.clear();
                self.stats = String::new();
                let mut text = String::from_str("generation failed (seed ");
                push_u64(&mut text, seed);
                text.append("); try a smaller board or a bigger budget");
                self.status = text;
                self.kind = Kind::Bad;
            },
        }
    }
}

/// Word `i` of a command line, if there is one.
fn word(ws: &Vec<String>, i: usize) -> (r: Option<&str>)
    ensures
        opt_view(r) == word_at(views(ws@), i as int),
{
    if i < ws.len() {
        Some(ws[i].as_str())
    } else {
        None
    }
}

impl Engine {
    /// Run one line of the command language:
    ///
    /// ```text
    /// init                                  forget the settings error and the output
    /// set <key> <value>                     change one setting
    /// defaults                              restore the built-in settings
    /// generate [seed]                       build a new puzzle (seed optional)
    /// paint begin <x> <y> <0|1>             start a stroke (1 = wall, 0 = empty)
    /// paint move <x> <y>                    continue the stroke
    /// paint end                             finish the stroke
    /// undo | reset | check | solution | onestep
    /// cluestep <x> <y>                      single-clue step (middle click)
    /// tap <x> <y>                           one touch tap: cycle the cell's mark
    /// print [count]                         generate and render puzzles as text
    /// bench [count]                         time N generations
    /// ```
    ///
    /// A rejected line changes nothing. What needs the settings is handed
    /// back as a [`Request`].
    pub fn command(&mut self, cmd: &str) -> (r: Result<Request, String>)
        requires
            old(self).wf(),
        ensures
            final(self).wf(),
            match command_error(words_of(cmd@)) {
                Some(e) => (r matches Err(m) && m@ == e) && *final(self) == *old(self),
                None => r matches Ok(req) && old(self).obeys(final(self), words_of(cmd@), req),
            },
    {
        let ws = words(cmd);
        let ghost wv = views(ws@);
        if ws.len() == 0 {
            return Ok(Request::Done);
        }
        let name = ws[0].as_str();
        if text_is(name, "set") {
            if ws.len() < 2 {
                return Err(String::from_str("set needs a key"));
            }
            let key = ws[1].clone();
            let value = join_from(&ws, 2);
            self.settings_error = String::new();
            return Ok(Request::Setting { key, value });
        }
        if text_is(name, "generate") {
            let seed = if ws.len() >= 2 {
                match parse_seed(ws[1].as_str()) {
                    Some(s) => s,
                    None => {
                        return Err(String::from_str("bad seed"));
                    },
                }
            } else {
                self.seed
            };
            return Ok(Request::Generate { seed });
        }
        if text_is(name, "paint") {
            if ws.len() < 2 {
                return Err(String::from_str("paint needs a phase"));
            }
            let phase = ws[1].as_str();
            if text_is(phase, "begin") {
                let x = match parse_i64(word(&ws, 2)) {
                    Ok(v) => v,
                    Err(e) => {
                        return Err(e);
                    },
                };
                let y = match parse_i64(word(&ws, 3)) {
                    Ok(v) => v,
                    Err(e) => {
                        return Err(e);
                    },
                };
                let left = match word(&ws, 4) {
                    None => true,
                    Some(t) => if text_is(t, "1") {
                        true
                    } else if text_is(t, "0") {
                        false
                    } else {
                        return Err(String::from_str("paint begin wants 0 or 1"));
                    },
                };
                self.begin_drag(x, y, left);
                return Ok(Request::Done);
            }
            if text_is(phase, "move") {
                let x = match parse_i64(word(&ws, 2)) {
                    Ok(v) => v,
                    Err(e) => {
                        return Err(e);
                    },
                };
                let y = match parse_i64(word(&ws, 3)) {
                    Ok(v) => v,
                    Err(e) => {
                        return Err(e);
                    },
                };
                self.drag_to(x, y);
                return Ok(Request::Done);
            }
            if text_is(phase, "end") {
                self.drag = None;
                return Ok(Request::Done);
            }
            let mut e = String::from_str("unknown paint phase '");
            e.append(phase);
            e.append("'");
            return Err(e);
        }
        if text_is(name, "tap") || text_is(name, "cluestep") {
            let x = match parse_i64(word(&ws, 1)) {
                Ok(v) => v,
                Err(e) => {
                    return Err(e);
                },
            };
            let y = match parse_i64(word(&ws, 2)) {
                Ok(v) => v,
                Err(e) => {
                    return Err(e);
                },
            };
            if text_is(name, "tap") {
                self.tap_cell(x, y);
            } else {
                self.clue_step_at(x, y);
            }
            return Ok(Request::Done);
        }
        if text_is(name, "print") || text_is(name, "bench") {
            let count = match parse_count(word(&ws, 1), 1) {
                Ok(c) => c,
                Err(e) => {
                    return Err(e);
                },
            };
            if text_is(name, "print") {
                return Ok(Request::Print { count });
            } else {
                return Ok(Request::Bench { count });
            }
        }
        if text_is(name, "init") {
            self.settings_error = String::new();
            self.output = String::new();
            return Ok(Request::Done);
        }
        if text_is(name, "defaults") {
            self.settings_error = String::new();
            return Ok(Request::Defaults);
        }
        if text_is(name, "undo") {
            self.undo();
            return Ok(Request::Done);
        }
        if text_is(name, "reset") {
            self.reset();
            return Ok(Request::Done);
        }
        if text_is(name, "check") {
            self.check();
            return Ok(Request::Done);
        }
        if text_is(name, "solution") {
            self.toggle_solution();
            return Ok(Request::Done);
        }
        if text_is(name, "onestep") {
            self.one_step();
            return Ok(Request::Done);
        }
        let mut e = String::from_str("unknown command '");
        e.append(name);
        e.append("'");
        Err(e)
    }
}

/// `true` or `false`, appended.
fn push_flag(s: &mut String, b: bool)
    ensures
        final(s)@ == old(s)@ + flag(b),
{
    if b {
        s.append("true");
    } else {
        s.append("false");
    }
}

/// Marks as digits, appended.
fn push_marks(s: &mut String, cells: &Vec<u8>)
    requires
        forall|i: int| 0 <= i < cells@.len() ==> #[trigger] cells@[i] <= 2,
    ensures
        final(s)@ == old(s)@ + mark_chars(cells@),
{
    let mut i: usize = 0;
    while i < cells.len()
        invariant
            i <= cells@.len(),
            forall|j: int| 0 <= j < cells@.len() ==> #[trigger] cells@[j] <= 2,
            s@ == old(s)@ + mark_chars(cells@.take(i as int)),
        decreases cells@.len() - i,
    {
        let c = cells[i];
        push_char(s, (48u8 + c) as char);
        proof {
            assert(mark_chars(cells@.take(i + 1)) =~= mark_chars(cells@.take(i as int)).push(
                (48 + c) as char,
            ));
        }
        i = i + 1;
    }
    proof {
        assert(cells@.take(cells@.len() as int) =~= cells@);
    }
}

/// The clue list, appended.
fn push_clues(s: &mut String, clues: &Vec<(usize, Clue)>)
    requires
        forall|t: int, j: int|
            0 <= t < clues@.len() && 0 <= j < clues@[t].1@.len() ==> #[trigger] clues@[t].1@[j]
                <= 8,
    ensures
        final(s)@ == old(s)@ + clue_list(clues@),
{
    let mut k: usize = 0;
    while k < clues.len()
        invariant
            k <= clues@.len(),
            forall|t: int, j: int|
                0 <= t < clues@.len() && 0 <= j < clues@[t].1@.len() ==> #[trigger] clues@[t].1@[j]
                    <= 8,
            s@ == old(s)@ + clue_list(clues@.take(k as int)),
        decreases clues@.len() - k,
    {
        proof {
            assert(clues@.take(k + 1).drop_last() =~= clues@.take(k as int));
        }
        let (cell, clue) = (clues[k].0, &clues[k].1);
        push_decimal(s, cell);
        s.append(":");
        let text = clue_text(clue);
        s.append(text.as_str());
        s.append(";");
        k = k + 1;
    }
    proof {
        assert(clues@.take(clues@.len() as int) =~= clues@);
    }
}

/// The fields of the form, appended.
fn push_fields(s: &mut String, fields: &Vec<Field>)
    ensures
        final(s)@ == fields_after(old(s)@, fields@),
{
    let mut k: usize = 0;
    while k < fields.len()
        invariant
            k <= fields@.len(),
            s@ == fields_after(old(s)@, fields@.take(k as int)),
        decreases fields@.len() - k,
    {
        proof {
            assert(fields@.take(k + 1).drop_last() =~= fields@.take(k as int));
        }
        if k > 0 {
            s.append(",");
        }
        let f = &fields[k];
        s.append("{\"key\":\"");
        escape_into(s, f.key.as_str());
        s.append("\",\"label\":\"");
        escape_into(s, f.label.as_str());
        s.append("\",\"help\":\"");
        escape_into(s, f.help.as_str());
        s.append("\",\"value\":\"");
        escape_into(s, f.value.as_str());
        s.append("\"}");
        k = k + 1;
    }
    proof {
        assert(fields@.take(fields@.len() as int) =~= fields@);
    }
}

impl Engine {
    fn push_messages(&self, out: &mut String, error: &str)
        ensures
            final(out)@ == messages_after(old(out)@, *self, error@),
    {
        out.append("{\"ok\":");
        push_flag(out, error.unicode_len() == 0);
        out.append(",\"error\":\"");
        escape_into(out, error);
        out.append("\",\"status\":\"");
        escape_into(out, self.status.as_str());
        out.append("\",\"settingsError\":\"");
        escape_into(out, self.settings_error.as_str());
        out.append("\",\"stats\":\"");
        escape_into(out, self.stats.as_str());
        out.append("\"");
    }

    fn push_numbers(&self, out: &mut String, panel: &Panel)
        ensures
            final(out)@ == numbers_after(old(out)@, *self, *panel),
    {
        let (w, h) = self.size(panel.size);
        let code: usize = match self.kind {
            Kind::Info => 0,
            Kind::Good => 1,
            Kind::Bad => 2,
        };
        out.append(",\"w\":");
        push_decimal(out, w);
        out.append(",\"h\":");
        push_decimal(out, h);
        out.append(",\"kind\":");
        push_decimal(out, code);
        out.append(",\"seed\":");
        push_u64(out, self.seed);
        out.append(",\"solved\":");
        push_flag(out, self.solved);
        out.append(",\"showSolution\":");
        push_flag(out, self.show_solution);
        out.append(",\"generating\":");
        push_flag(out, self.puzzle.is_none());
        out.append(",\"canUndo\":");
        push_flag(out, self.history.len() > 0);
    }

    fn push_extras(&self, out: &mut String, panel: &Panel)
        ensures
            final(out)@ == extras_after(old(out)@, *self, *panel),
    {
        let clue_count = match &self.puzzle {
            Some(puzzle) => puzzle.clues.len(),
            None => 0,
        };
        out.append(",\"anchor\":");
        match self.anchor {
            Some(a) => push_decimal(out, a),
            None => out.append("-1"),
        }
        out.append(",\"clueCount\":");
        push_decimal(out, clue_count);
        out.append(",\"settingsText\":\"");
        escape_into(out, panel.text.as_str());
        out.append("\"");
    }

    fn push_board(&self, out: &mut String)
        requires
            self.wf(),
        ensures
            final(out)@ == board_after(old(out)@, *self),
    {
        match &self.puzzle {
            None => {
                out.append(
                    ",\"cells\":\"\",\"clues\":\"\",\"errorsCells\":\"\",\"errorsClues\":\"\",\"wrong\":\"\",\"solution\":\"\"",
                );
            },
            Some(puzzle) => {
                out.append(",\"cells\":\"");
                push_marks(out, &self.cells);
                out.append("\",\"clues\":\"");
                push_clues(out, &puzzle.clues);
                out.append("\",\"errorsCells\":\"");
                push_bools(out, self.errors.cells.as_slice());
                out.append("\",\"errorsClues\":\"");
                push_bools(out, self.errors.clues.as_slice());
                out.append("\",\"wrong\":\"");
                push_bools(out, self.wrong.as_slice());
                out.append("\",\"solution\":\"");
                let ghost mid = out@;
                if self.show_solution {
                    push_marks(out, &puzzle.solution);
                } else {
                    proof {
                        assert(out@ =~= mid + Seq::<char>::empty());
                    }
                }
                out.append("\"");
            },
        }
    }

    fn push_tail(&self, out: &mut String, with_fields: bool, panel: &Panel)
        ensures
            final(out)@ == tail_after(old(out)@, *self, with_fields, *panel),
    {
        if self.output.as_str().unicode_len() > 0 {
            out.append(",\"output\":\"");
            escape_into(out, self.output.as_str());
            out.append("\"");
        }
        if with_fields {
            out.append(",\"fields\":[");
            push_fields(out, &panel.fields);
            out.append("]");
        }
        out.append("}");
    }

    /// The whole state, as JSON. `with_fields` adds the settings form (key,
    /// label, help and value of each field) so the page can build it from
    /// the engine instead of hard-coding it.
    pub fn state_json(&self, error: &str, with_fields: bool, panel: &Panel) -> (out: String)
        requires
            self.wf(),
        ensures
            out@ == state_text(*self, error@, with_fields, *panel),
    {
        let mut out = String::new();
        self.push_messages(&mut out, error);
        self.push_numbers(&mut out, panel);
        self.push_extras(&mut out, panel);
        self.push_board(&mut out);
        self.push_tail(&mut out, with_fields, panel);
        out
    }
}

impl Engine {
    /// Generate `count` puzzles with `cfg` and show them as text.
    pub fn print_puzzles(&mut self, count: usize, cfg: &GenConfig)
        requires
            old(self).wf(),
            cfg.w * cfg.h > 0,
            cfg.w * cfg.h < u32::MAX,
        ensures
            final(self).wf(),
            old(self).print_post(final(self), count, cfg),
    {
        let seed = if self.seed == 0 {
            1
        } else {
            self.seed
        };
        self.output = print_puzzles(count, cfg, seed);
        let mut text = String::from_str("Printed ");
        push_decimal(&mut text, count);
        text.append(" puzzle(s) below");
        self.status = text;
        self.kind = Kind::Good;
    }

    /// Time `count` generations with `cfg` (heavy, but off the page).
    pub fn bench(&mut self, count: usize, cfg: &GenConfig)
        requires
            old(self).wf(),
            cfg.w * cfg.h > 0,
            cfg.w * cfg.h < u32::MAX,
        ensures
            final(self).wf(),
            old(self).bench_post(final(self), count, cfg),
    {
        let seed = if self.seed == 0 {
            Timer::start().elapsed_ms()
        } else {
            self.seed
        };
        let started = Timer::start();
        self.output = bench(count, cfg, seed);
        let us = micros(&started.elapsed());
        let centis = us / 10000 + if us % 10000 >= 5000 {
            1
        } else {
            0
        };
        let mut text = String::from_str("Bench: ");
        push_decimal(&mut text, count);
        text.append(" puzzle(s) in ");
        push_seconds(&mut text, centis);
        text.append(" s");
        proof {
            assert(text@ == "Bench: "@ + decimal(count as nat) + " puzzle(s) in "@ + seconds_text(
                centis as nat,
            ) + " s"@);
        }
        self.status = text;
        self.kind = Kind::Good;
        proof {
            assert(bench_text(self.output@, count as nat, cfg.w as nat, cfg.h as nat, seed));
        }
    }
}

/// Filling in marks that agree with a board keeps the marks in agreement
/// with it.
proof fn lemma_fill_agrees(
    sol: Seq<u8>,
    start: (Seq<u8>, Seq<(usize, u8)>, nat),
    marks: Seq<(usize, u8)>,
)
    requires
        agrees(sol, start.0),
        forall|e: int|
            0 <= e < marks.len() ==> (#[trigger] marks[e]).0 < sol.len() && sol[marks[e].0 as int]
                == marks[e].1,
    ensures
        agrees(sol, fill(start, marks).0),
    decreases marks.len(),
{
    if marks.len() > 0 {
        let rest = marks.drop_last();
        assert forall|e: int| 0 <= e < rest.len() implies (#[trigger] rest[e]).0 < sol.len()
            && sol[rest[e].0 as int] == rest[e].1 by {
            assert(rest[e] == marks[e]);
        }
        lemma_fill_agrees(sol, start, rest);
        assert(marks.last() == marks[marks.len() - 1]);
    }
}

/// Undo takes back a change: setting a cell to a new mark and then undoing
/// leaves the marks as they were, and the history as it was (unless it was
/// full and its oldest entry had to go).
pub proof fn law_undo_takes_back_a_change(
    e0: Engine,
    e1: Engine,
    e2: Engine,
    cell: usize,
    value: u8,
)
    requires
        e0.wf(),
        !e0.show_solution,
        cell < e0.cells@.len(),
        e0.cells@[cell as int] != value,
        e0.set_post(&e1, cell, value),
        e1.undo_post(&e2),
    ensures
        e2.cells@ == e0.cells@,
        e2.history@ == (if e0.history@.len() < MAX_HISTORY {
            e0.history@
        } else {
            e0.history@.drop_first()
        }),
{
    let entry = (cell, e0.cells@[cell as int]);
    assert(e1.history@ == remember(e0.history@, entry));
    assert(e1.history@.len() > 0);
    assert(e1.history@.last() == entry);
    assert(!e1.show_solution);
    assert(e2.cells@ =~= e0.cells@);
    if e0.history@.len() < MAX_HISTORY {
        assert(e2.history@ =~= e0.history@);
    } else {
        assert(e2.history@ =~= e0.history@.drop_first());
    }
}

/// Undo takes back any one remembered change of a mark: the board after the
/// undo is the board before the change.
pub proof fn law_undo_takes_back_a_remembered_change(e0: Engine, e1: Engine, e2: Engine, cell: usize)
    requires
        !e1.show_solution,
        cell < e0.cells@.len(),
        e1.cells@ == e0.cells@.update(cell as int, e1.cells@[cell as int]),
        e1.history@ == remember(e0.history@, (cell, e0.cells@[cell as int])),
        e1.undo_post(&e2),
    ensures
        e2.cells@ == e0.cells@,
{
    assert(e1.history@.last() == (cell, e0.cells@[cell as int]));
    assert(e2.cells@ =~= e0.cells@);
}

/// Undo takes back a tap on a cell without a clue.
pub proof fn law_undo_takes_back_a_tap(e0: Engine, e1: Engine, e2: Engine, x: i64, y: i64)
    requires
        e0.wf(),
        e0.tap_post(&e1, x, y),
        e0.target(x, y) matches Some(idx) && !e0.clue_cell(idx as int),
        !e0.show_solution,
        e1.undo_post(&e2),
    ensures
        e2.cells@ == e0.cells@,
{
    let idx = e0.target(x, y)->Some_0;
    let p = e0.puzzle->Some_0;
    crate::grid::lemma_idx_coords(p.grid.w as int, p.grid.h as int, x as int, y as int);
    assert(idx < e0.cells@.len());
    law_undo_takes_back_a_remembered_change(e0, e1, e2, idx);
}

/// Undo takes back the first cell of a stroke when the stroke changed it.
pub proof fn law_undo_takes_back_a_stroke_start(
    e0: Engine,
    e1: Engine,
    e2: Engine,
    x: i64,
    y: i64,
    left: bool,
)
    requires
        e0.wf(),
        e0.begin_post(&e1, x, y, left),
        e0.target(x, y) matches Some(idx) && !e0.clue_cell(idx as int) && e1.cells@ != e0.cells@,
        !e0.show_solution,
        e1.undo_post(&e2),
    ensures
        e2.cells@ == e0.cells@,
{
    let idx = e0.target(x, y)->Some_0;
    let p = e0.puzzle->Some_0;
    crate::grid::lemma_idx_coords(p.grid.w as int, p.grid.h as int, x as int, y as int);
    assert(idx < e0.cells@.len());
    law_undo_takes_back_a_remembered_change(e0, e1, e2, idx);
}

/// While the solution is shown, undo changes nothing.
pub proof fn law_undo_keeps_a_shown_solution(e1: Engine, e2: Engine)
    requires
        e1.show_solution,
        e1.undo_post(&e2),
    ensures
        e2 == e1,
{
}

/// Three taps on a cell without a clue bring its mark back: unmarked, wall,
/// empty, unmarked.
pub proof fn law_three_taps_come_back(
    e0: Engine,
    e1: Engine,
    e2: Engine,
    e3: Engine,
    x: i64,
    y: i64,
)
    requires
        e0.wf(),
        !e0.show_solution,
        e0.target(x, y) matches Some(idx) && !e0.clue_cell(idx as int),
        e0.tap_post(&e1, x, y),
        e1.tap_post(&e2, x, y),
        e2.tap_post(&e3, x, y),
    ensures
        e3.cells@ == e0.cells@,
{
    let idx = e0.target(x, y)->Some_0;
    let p = e0.puzzle->Some_0;
    assert(e0.cells@.len() == p.grid.size());
    assert(0 <= y * p.grid.w + x < p.grid.w * p.grid.h) by (nonlinear_arith)
        requires
            0 <= x < p.grid.w,
            0 <= y < p.grid.h,
    ;
    let v = e0.cells@[idx as int];
    assert(is_mark(v));
    assert(e1.puzzle == e0.puzzle && !e1.show_solution);
    assert(e1.cells@ == e0.cells@.update(idx as int, tapped(v)));
    assert(e2.puzzle == e0.puzzle && !e2.show_solution);
    assert(e2.cells@ == e1.cells@.update(idx as int, tapped(tapped(v))));
    assert(e3.cells@ == e2.cells@.update(idx as int, tapped(tapped(tapped(v)))));
    assert(tapped(tapped(tapped(v))) == v);
    assert(e3.cells@ =~= e0.cells@);
}

/// The last two remembered changes survive one more: whatever is dropped
/// from the front of a full history, the newest entries stay at the back.
proof fn lemma_remember_keeps_the_back(h: Seq<(usize, u8)>, a: (usize, u8), b: (usize, u8), c: (usize, u8))
    requires
        h.len() <= MAX_HISTORY,
    ensures
        ({
            let h3 = remember(remember(remember(h, a), b), c);
            &&& h3.len() >= 3
            &&& h3.last() == c
            &&& h3.drop_last().last() == b
            &&& h3.drop_last().drop_last().last() == a
        }),
{
    let h1 = remember(h, a);
    let h2 = remember(h1, b);
    let h3 = remember(h2, c);
    assert(h1.len() >= 1 && h1.last() == a);
    assert(h2.len() >= 2 && h2.last() == b && h2[h2.len() - 2] == a);
    assert(h3.len() >= 3 && h3.last() == c && h3[h3.len() - 2] == b && h3[h3.len() - 3] == a);
}

/// Three taps on a cell without a clue are taken back by three undos, one
/// mark at a time: the board after each undo is the board before the tap it
/// takes back.
pub proof fn law_three_taps_are_undone(
    e0: Engine,
    e1: Engine,
    e2: Engine,
    e3: Engine,
    e4: Engine,
    e5: Engine,
    e6: Engine,
    x: i64,
    y: i64,
)
    requires
        e0.wf(),
        !e0.show_solution,
        e0.target(x, y) matches Some(idx) && !e0.clue_cell(idx as int),
        e0.tap_post(&e1, x, y),
        e1.tap_post(&e2, x, y),
        e2.tap_post(&e3, x, y),
        e3.undo_post(&e4),
        e4.undo_post(&e5),
        e5.undo_post(&e6),
    ensures
        e4.cells@ == e2.cells@,
        e5.cells@ == e1.cells@,
        e6.cells@ == e0.cells@,
{
    let idx = e0.target(x, y)->Some_0;
    let p = e0.puzzle->Some_0;
    assert(e0.cells@.len() == p.grid.size());
    assert(0 <= y * p.grid.w + x < p.grid.w * p.grid.h) by (nonlinear_arith)
        requires
            0 <= x < p.grid.w,
            0 <= y < p.grid.h,
    ;
    let v0 = e0.cells@[idx as int];
    let v1 = tapped(v0);
    let v2 = tapped(v1);
    assert(e1.cells@ == e0.cells@.update(idx as int, v1));
    assert(e1.history@ == remember(e0.history@, (idx, v0)));
    assert(e2.cells@ == e1.cells@.update(idx as int, v2));
    assert(e2.history@ == remember(e1.history@, (idx, v1)));
    assert(e3.cells@ == e2.cells@.update(idx as int, tapped(v2)));
    assert(e3.history@ == remember(e2.history@, (idx, v2)));
    lemma_remember_keeps_the_back(e0.history@, (idx, v0), (idx, v1), (idx, v2));
    assert(!e3.show_solution && !e4.show_solution && !e5.show_solution);
    assert(e4.cells@ =~= e2.cells@);
    assert(e4.history@ == e3.history@.drop_last());
    assert(e5.cells@ =~= e1.cells@);
    assert(e5.history@ == e3.history@.drop_last().drop_last());
    assert(e6.cells@ =~= e0.cells@);
}

/// One step never contradicts the solution: when every decided mark agrees
/// with the solution, every mark after the step does too.
pub proof fn law_one_step_keeps_to_the_solution(e0: Engine, e1: Engine)
    requires
        e0.wf(),
        e0.puzzle matches Some(p) && agrees(p.solution@, e0.cells@),
        e0.one_step_post(&e1),
    ensures
        e1.puzzle == e0.puzzle,
        e1.puzzle matches Some(p) && agrees(p.solution@, e1.cells@),
{
    let p = e0.puzzle->Some_0;
    if !e0.show_solution {
        let ds = choose|ds: Seq<(usize, u8)>| #[trigger] deduced(p, e0.cells@, ds) && if ds.len() == 0 {
            e0.noted(&e1, "One step: the clues force nothing new right now."@, Kind::Info)
        } else {
            let k = fill((e0.cells@, e0.history@, 0), ds).2;
            &&& e0.filled(&e1, ds)
            &&& e1.status@ == "One step: filled "@ + decimal(k) + " cell"@ + plural(k)
                + " the clues force."@
            &&& e1.kind == Kind::Good
        };
        if ds.len() > 0 {
            assert(completes(&p.grid, p.solution@, e0.cells@, p.clues@));
            lemma_fill_agrees(p.solution@, (e0.cells@, e0.history@, 0), ds);
        }
    }
}

/// A clue step never contradicts the solution either.
pub proof fn law_clue_step_keeps_to_the_solution(e0: Engine, e1: Engine, x: i64, y: i64)
    requires
        e0.wf(),
        e0.puzzle matches Some(p) && agrees(p.solution@, e0.cells@),
        e0.clue_step_post(&e1, x, y),
    ensures
        e1.puzzle == e0.puzzle,
        e1.puzzle matches Some(p) && agrees(p.solution@, e1.cells@),
{
    let p = e0.puzzle->Some_0;
    if !e0.show_solution {
        if let Some(cell) = e0.target(x, y) {
            assert(0 <= y * p.grid.w + x < p.grid.w * p.grid.h) by (nonlinear_arith)
                requires
                    0 <= x < p.grid.w,
                    0 <= y < p.grid.h,
            ;
            if let Some(k) = p.clue_index@[cell as int] {
                let clue = p.clues@[k as int].1@;
                assert(last_clue_for(p.clues@, cell as int, k as int));
                assert(p.clues@[k as int].0 == cell);
                let step = clue_forces(&p.grid, e0.cells@, cell as int, clue);
                lemma_clue_forces_sound(&p.grid, p.solution@, e0.cells@, cell as int, clue);
                lemma_clue_forces_cells(&p.grid, e0.cells@, cell as int, clue);
                if satisfiable(&p.grid, e0.cells@, cell as int, clue) && step.len() > 0 {
                    lemma_fill_agrees(p.solution@, (e0.cells@, e0.history@, 0), step);
                }
            }
        }
    }
}

/// What a stroke does to each cell: a cell of the path that holds no clue
/// ends with the stroke's value, every other cell keeps its mark; a stroke
/// that changed nothing leaves the marks as they were.
pub proof fn lemma_stroke_cells(
    p: Puzzle,
    start: (Seq<u8>, Seq<(usize, u8)>, Option<usize>, bool),
    path: Seq<usize>,
    value: u8,
)
    requires
        forall|e: int| 0 <= e < path.len() ==> #[trigger] path[e] < start.0.len(),
    ensures
        stroke(p, start, path, value).0.len() == start.0.len(),
        forall|j: usize|
            j < start.0.len() ==> #[trigger] stroke(p, start, path, value).0[j as int] == (if path.contains(
                j,
            ) && !has_clue(p.clues@, j as int) {
                value
            } else {
                start.0[j as int]
            }),
        !stroke(p, start, path, value).3 ==> stroke(p, start, path, value).0 == start.0,
    decreases path.len(),
{
    if path.len() > 0 {
        let rest = path.drop_last();
        assert forall|e: int| 0 <= e < rest.len() implies #[trigger] rest[e] < start.0.len() by {
            assert(rest[e] == path[e]);
        }
        lemma_stroke_cells(p, start, rest, value);
        let (c, h, f, changed) = stroke(p, start, rest, value);
        let last = path.last();
        assert(last == path[path.len() - 1]);
        let r = stroke(p, start, path, value);
        let skip = has_clue(p.clues@, last as int) || c[last as int] == value;
        if skip {
            assert(r.0 == c);
        } else {
            assert(r.0 == c.update(last as int, value));
        }
        assert forall|j: usize| j < start.0.len() implies #[trigger] r.0[j as int] == (if path.contains(
            j,
        ) && !has_clue(p.clues@, j as int) {
            value
        } else {
            start.0[j as int]
        }) by {
            assert(c[j as int] == (if rest.contains(j) && !has_clue(p.clues@, j as int) {
                value
            } else {
                start.0[j as int]
            }));
            if rest.contains(j) {
                let e = choose|e: int| 0 <= e < rest.len() && rest[e] == j;
                assert(path[e] == rest[e]);
                assert(path.contains(j));
            }
            if path.contains(j) && j != last {
                let e = choose|e: int| 0 <= e < path.len() && path[e] == j;
                assert(e != path.len() - 1);
                assert(rest[e] == path[e]);
                assert(rest.contains(j));
            }
            if j == last {
                assert(path.contains(j));
            }
        }
        if !r.3 {
            assert(!changed);
            assert(c == start.0);
            assert(r.0 == c);
        }
    }
}

/// A drag paints the straight line from the last cell of the stroke to the
/// cell under the cursor and nothing else: every cell of that line that holds
/// no clue ends with the stroke's value, and every other cell keeps its mark.
pub proof fn law_drag_paints_the_line(e0: Engine, e1: Engine, x: i64, y: i64)
    requires
        e0.wf(),
        e0.drag is Some,
        e0.target(x, y) is Some,
        e0.target(x, y)->Some_0 != e0.drag->Some_0.last,
        e0.drag_post(&e1, x, y),
    ensures
        e1.cells@.len() == e0.cells@.len(),
        forall|j: usize|
            j < e0.cells@.len() ==> #[trigger] e1.cells@[j as int] == (if on_line(
                &e0.puzzle->Some_0.grid,
                e0.drag->Some_0.last,
                e0.target(x, y)->Some_0,
                j,
            ) && !e0.clue_cell(j as int) {
                e0.drag->Some_0.value
            } else {
                e0.cells@[j as int]
            }),
{
    let d = e0.drag->Some_0;
    let idx = e0.target(x, y)->Some_0;
    let p = e0.puzzle->Some_0;
    let path = line_path(&p.grid, d.last, idx);
    let start = (e0.cells@, e0.history@, e0.last_changed, false);
    assert(walk(&p.grid, path, d.last, idx));
    lemma_stroke_cells(p, start, path, d.value);
}

/// A text made of `head`, the field name `name` with its value `value`, and
/// `tail`.
pub open spec fn with_field(head: Seq<char>, name: Seq<char>, value: Seq<char>, tail: Seq<char>) -> Seq<
    char,
> {
    head + name + value + tail
}

/// The fields of the form follow whatever came before them.
pub proof fn lemma_fields_after_prefix(a: Seq<char>, b: Seq<char>, fs: Seq<Field>)
    ensures
        fields_after(a + b, fs) == a + fields_after(b, fs),
    decreases fs.len(),
{
    if fs.len() == 1 {
        assert(field_after(a + b, fs[0]) =~= a + field_after(b, fs[0]));
    } else if fs.len() > 1 {
        lemma_fields_after_prefix(a, b, fs.drop_last());
        let x = fields_after(b, fs.drop_last());
        assert((a + x) + ","@ =~= a + (x + ","@));
        assert(field_after(a + (x + ","@), fs.last()) =~= a + field_after(x + ","@, fs.last()));
    }
}

/// The spotlight part of the state follows whatever came before it.
#[verifier::spinoff_prover]
proof fn lemma_extras_prefix(s: Seq<char>, e: Engine, panel: Panel)
    ensures
        extras_after(s, e, panel) == s + extras_after(Seq::empty(), e, panel),
{
    assert(extras_after(s, e, panel) =~= s + extras_after(Seq::empty(), e, panel));
}

/// The board part of the state follows whatever came before it.
#[verifier::spinoff_prover]
proof fn lemma_board_prefix(a: Seq<char>, b: Seq<char>, e: Engine)
    ensures
        board_after(a + b, e) == a + board_after(b, e),
{
    assert(board_after(a + b, e) =~= a + board_after(b, e));
}

/// The last part of the state follows whatever came before it.
#[verifier::spinoff_prover]
proof fn lemma_tail_prefix(s: Seq<char>, b: Seq<char>, e: Engine, with_fields: bool, panel: Panel)
    ensures
        tail_after(s + b, e, with_fields, panel) == s + tail_after(b, e, with_fields, panel),
{
    let o = if e.output@.len() > 0 {
        (s + b) + ",\"output\":\""@ + escaped(e.output@) + "\""@
    } else {
        s + b
    };
    let o0 = if e.output@.len() > 0 {
        b + ",\"output\":\""@ + escaped(e.output@) + "\""@
    } else {
        b
    };
    assert(o =~= s + o0);
    if with_fields {
        let lead = o0 + ",\"fields\":["@;
        assert(o + ",\"fields\":["@ =~= s + lead);
        lemma_fields_after_prefix(s, lead, panel.fields@);
        let f0 = fields_after(lead, panel.fields@);
        assert((s + f0) + "]"@ + "}"@ =~= s + (f0 + "]"@ + "}"@));
    } else {
        assert(o + "}"@ =~= s + (o0 + "}"@));
    }
}

/// What the state says after its flags does not depend on what came before.
pub proof fn lemma_rest_of_state(s: Seq<char>, e: Engine, with_fields: bool, panel: Panel)
    ensures
        tail_after(board_after(extras_after(s, e, panel), e), e, with_fields, panel) == s
            + tail_after(
            board_after(extras_after(Seq::empty(), e, panel), e),
            e,
            with_fields,
            panel,
        ),
{
    let x0 = extras_after(Seq::empty(), e, panel);
    lemma_extras_prefix(s, e, panel);
    lemma_board_prefix(s, x0, e);
    lemma_tail_prefix(s, board_after(x0, e), e, with_fields, panel);
}

/// The reply offers undo exactly when undo would take a change back: its
/// `canUndo` field is `true` when an undo now takes an entry off the
/// history, and `false` when it would answer that there is nothing to undo.
pub proof fn law_reply_offers_undo_exactly_when_undo_acts(
    e: Engine,
    e2: Engine,
    error: Seq<char>,
    with_fields: bool,
    panel: Panel,
)
    requires
        e.wf(),
        !e.show_solution,
        e.undo_post(&e2),
    ensures
        ({
            let undo_acts = e2.history@.len() < e.history@.len();
            exists|head: Seq<char>, tail: Seq<char>|
                state_text(e, error, with_fields, panel) == #[trigger] with_field(
                    head,
                    ",\"canUndo\":"@,
                    flag(undo_acts),
                    tail,
                )
        }),
{
    let m = messages_after(Seq::empty(), e, error);
    let n = numbers_after(m, e, panel);
    let (w, h) = match e.puzzle {
        Some(p) => (p.grid.w, p.grid.h),
        None => (panel.size, panel.size),
    };
    let head = m + ",\"w\":"@ + decimal(w as nat) + ",\"h\":"@ + decimal(h as nat) + ",\"kind\":"@
        + decimal(kind_code(e.kind)) + ",\"seed\":"@ + decimal(e.seed as nat) + ",\"solved\":"@
        + flag(e.solved) + ",\"showSolution\":"@ + flag(e.show_solution) + ",\"generating\":"@
        + flag(e.puzzle is None);
    assert(n == head + ",\"canUndo\":"@ + flag(e.history@.len() > 0));
    lemma_rest_of_state(n, e, with_fields, panel);
    let tail = tail_after(
        board_after(extras_after(Seq::empty(), e, panel), e),
        e,
        with_fields,
        panel,
    );
    assert(state_text(e, error, with_fields, panel) == n + tail);
    if e.history@.len() == 0 {
        assert(e2.history@ == e.history@);
    } else {
        assert(e2.history@ == e.history@.drop_last());
    }
    assert(state_text(e, error, with_fields, panel) == with_field(
        head,
        ",\"canUndo\":"@,
        flag(e2.history@.len() < e.history@.len()),
        tail,
    ));
}

/// The reply carries the `solved` flag of the engine.
proof fn lemma_solved_field(e: Engine, error: Seq<char>, with_fields: bool, panel: Panel)
    requires
        e.puzzle is Some,
    ensures
        exists|head: Seq<char>, tail: Seq<char>|
            state_text(e, error, with_fields, panel) == #[trigger] with_field(
                head,
                ",\"solved\":"@,
                flag(e.solved),
                tail,
            ),
{
    let m = messages_after(Seq::empty(), e, error);
    let n = numbers_after(m, e, panel);
    let p = e.puzzle->Some_0;
    let head = m + ",\"w\":"@ + decimal(p.grid.w as nat) + ",\"h\":"@ + decimal(p.grid.h as nat)
        + ",\"kind\":"@ + decimal(kind_code(e.kind)) + ",\"seed\":"@ + decimal(e.seed as nat);
    let x = head + ",\"solved\":"@ + flag(e.solved);
    let a = ",\"showSolution\":"@;
    let b = flag(e.show_solution);
    let c = ",\"generating\":"@;
    let d = flag(e.puzzle is None);
    let f = ",\"canUndo\":"@;
    let g = flag(e.history@.len() > 0);
    assert(n == x + a + b + c + d + f + g);
    lemma_regroup(x, a, b, c, d, f, g);
    let rest = a + b + c + d + f + g;
    lemma_rest_of_state(n, e, with_fields, panel);
    let tail = tail_after(
        board_after(extras_after(Seq::empty(), e, panel), e),
        e,
        with_fields,
        panel,
    );
    assert(state_text(e, error, with_fields, panel) == n + tail);
    lemma_regroup2(x, rest, tail);
    assert(state_text(e, error, with_fields, panel) == with_field(
        head,
        ",\"solved\":"@,
        flag(e.solved),
        rest + tail,
    ));
}

/// Concatenation regrouped.
proof fn lemma_regroup(
    x: Seq<char>,
    a: Seq<char>,
    b: Seq<char>,
    c: Seq<char>,
    d: Seq<char>,
    f: Seq<char>,
    g: Seq<char>,
)
    ensures
        x + a + b + c + d + f + g == x + (a + b + c + d + f + g),
{
    assert(x + a + b + c + d + f + g =~= x + (a + b + c + d + f + g));
}

/// Concatenation regrouped.
proof fn lemma_regroup2(x: Seq<char>, r: Seq<char>, t: Seq<char>)
    ensures
        (x + r) + t == x + (r + t),
{
    assert((x + r) + t =~= x + (r + t));
}

/// The reply calls the board solved exactly when the marks are a solution
/// of the puzzle: every cell decided and every rule kept.
pub proof fn law_reply_reports_a_solved_board(
    e: Engine,
    error: Seq<char>,
    with_fields: bool,
    panel: Panel,
)
    requires
        e.wf(),
        e.puzzle is Some,
    ensures
        ({
            let p = e.puzzle->Some_0;
            let solved = is_solution(&p.grid, e.cells@, p.clues@);
            exists|head: Seq<char>, tail: Seq<char>|
                state_text(e, error, with_fields, panel) == #[trigger] with_field(
                    head,
                    ",\"solved\":"@,
                    flag(solved),
                    tail,
                )
        }),
{
    lemma_solved_field(e, error, with_fields, panel);
    let p = e.puzzle->Some_0;
    assert(e.solved == is_solution(&p.grid, e.cells@, p.clues@));
}

} // verus!
