//! Plain text rendering of puzzles, shared by the command line (`--print`)
//! and the browser build, so both show exactly the same boards.

use vstd::prelude::*;

use crate::grid::col;
use crate::model::{
    clue_chars, clue_text, has_clue, last_clue_for, push_char, Puzzle, BLACK, WHITE,
};
use vstd::string::StringExecFns;

verus! {

/// `s` right-aligned in a field three characters wide.
pub open spec fn pad3(s: Seq<char>) -> Seq<char> {
    if s.len() >= 3 {
        s
    } else {
        Seq::new((3 - s.len()) as nat, |i: int| ' ') + s
    }
}

/// What cell `i` shows in a printed puzzle: its clue, or a dot.
pub open spec fn puzzle_cell_text(p: &Puzzle, i: int) -> Seq<char> {
    if has_clue(p.clues@, i) {
        clue_chars(p.clues@[choose|k: int| last_clue_for(p.clues@, i, k)].1@)
    } else {
        "."@
    }
}

/// What cell `i` shows in a printed mark grid.
pub open spec fn mark_text(v: u8) -> Seq<char> {
    if v == BLACK {
        "  #"@
    } else if v == WHITE {
        "  ."@
    } else {
        "  ?"@
    }
}

/// Cells `0..x` of row `y`, each as given by `cell`.
pub open spec fn row_cells(w: int, y: int, x: int, cell: spec_fn(int) -> Seq<char>) -> Seq<char>
    decreases x,
{
    if x <= 0 {
        Seq::empty()
    } else {
        row_cells(w, y, x - 1, cell) + cell(y * w + x - 1)
    }
}

/// Rows `0..y`, each ended by a newline.
pub open spec fn rows_text(w: int, y: int, cell: spec_fn(int) -> Seq<char>) -> Seq<char>
    decreases y,
{
    if y <= 0 {
        Seq::empty()
    } else {
        rows_text(w, y - 1, cell) + row_cells(w, y - 1, w, cell) + "\n"@
    }
}

/// The clue numbers of a puzzle are digits that print as characters.
pub open spec fn printable_clues(p: &Puzzle) -> bool {
    forall|k: int, j: int|
        0 <= k < p.clues@.len() && 0 <= j < p.clues@[k].1@.len() ==> #[trigger] p.clues@[k].1@[j]
            <= 207
}

/// Append `text` right-aligned in a field three characters wide.
fn push_padded(out: &mut String, text: &String)
    ensures
        final(out)@ == old(out)@ + pad3(text@),
{
    let ghost start = out@;
    let len = text.as_str().unicode_len();
    let mut k: usize = len;
    while k < 3
        invariant
            len == text@.len(),
            len <= k,
            k <= 3 || k == len,
            out@ == start + Seq::new((k - len) as nat, |i: int| ' '),
        decreases 3 - k,
    {
        push_char(out, ' ');
        proof {
            assert(out@ =~= start + Seq::new((k + 1 - len) as nat, |i: int| ' '));
        }
        k = k + 1;
    }
    out.append(text.as_str());
    proof {
        if len >= 3 {
            assert(out@ =~= start + text@);
        } else {
            assert(out@ =~= start + pad3(text@));
        }
    }
}

/// A grid where clue cells show their numbers and everything else a dot.
pub fn render_puzzle(puzzle: &Puzzle) -> (out: String)
    requires
        puzzle.wf(),
        printable_clues(puzzle),
    ensures
        out@ == rows_text(
            puzzle.grid.w as int,
            puzzle.grid.h as int,
            |i: int| pad3(puzzle_cell_text(puzzle, i)),
        ),
{
    let ghost cell = |i: int| pad3(puzzle_cell_text(puzzle, i));
    let w = puzzle.grid.w;
    let h = puzzle.grid.h;
    let mut out = String::new();
    let mut y: usize = 0;
    while y < h
        invariant
            puzzle.wf(),
            printable_clues(puzzle),
            w == puzzle.grid.w,
            h == puzzle.grid.h,
            y <= h,
            cell == (|i: int| pad3(puzzle_cell_text(puzzle, i))),
            out@ == rows_text(w as int, y as int, cell),
        decreases h - y,
    {
        let ghost row_start = out@;
        let mut x: usize = 0;
        while x < w
            invariant
                puzzle.wf(),
                printable_clues(puzzle),
                w == puzzle.grid.w,
                h == puzzle.grid.h,
                y < h,
                x <= w,
                cell == (|i: int| pad3(puzzle_cell_text(puzzle, i))),
                out@ == row_start + row_cells(w as int, y as int, x as int, cell),
            decreases w - x,
        {
            proof {
                crate::grid::lemma_idx_coords(w as int, h as int, x as int, y as int);
            }
            let i = puzzle.grid.idx(x, y);
            let text = match puzzle.clue_at(i) {
                Some(clue) => {
                    proof {
                        let k = choose|k: int|
                            last_clue_for(puzzle.clues@, i as int, k) && *clue == (
                            #[trigger] puzzle.clues@[k]).1;
                        assert forall|j: int| 0 <= j < clue@.len() implies #[trigger] clue@[j] <= 207 by {
                            assert(puzzle.clues@[k].1@[j] <= 207);
                        }
                        assert(has_clue(puzzle.clues@, i as int));
                        let k2 = choose|k2: int| last_clue_for(puzzle.clues@, i as int, k2);
                        assert(k2 == k);
                    }
                    clue_text(clue.as_slice())
                },
                None => {
                    let t = String::from_str(".");
                    t
                },
            };
            push_padded(&mut out, &text);
            proof {
                assert(text@ == puzzle_cell_text(puzzle, i as int));
                assert(out@ =~= row_start + row_cells(w as int, y as int, x + 1, cell));
            }
            x = x + 1;
        }
        push_char(&mut out, '\n');
        proof {
            reveal_strlit("\n");
            assert(out@ =~= rows_text(w as int, y + 1, cell));
        }
        y = y + 1;
    }
    out
}

/// A grid of marks: `#` wall, `.` empty, `?` undecided.
pub fn render_cells(puzzle: &Puzzle, cells: &[u8]) -> (out: String)
    requires
        puzzle.wf(),
        cells@.len() == puzzle.grid.size(),
    ensures
        out@ == rows_text(puzzle.grid.w as int, puzzle.grid.h as int, |i: int| mark_text(cells@[i])),
{
    let ghost cell = |i: int| mark_text(cells@[i]);
    let w = puzzle.grid.w;
    let h = puzzle.grid.h;
    let mut out = String::new();
    let mut y: usize = 0;
    while y < h
        invariant
            puzzle.wf(),
            cells@.len() == puzzle.grid.size(),
            w == puzzle.grid.w,
            h == puzzle.grid.h,
            y <= h,
            cell == (|i: int| mark_text(cells@[i])),
            out@ == rows_text(w as int, y as int, cell),
        decreases h - y,
    {
        let ghost row_start = out@;
        let mut x: usize = 0;
        while x < w
            invariant
                puzzle.wf(),
                cells@.len() == puzzle.grid.size(),
                w == puzzle.grid.w,
                h == puzzle.grid.h,
                y < h,
                x <= w,
                cell == (|i: int| mark_text(cells@[i])),
                out@ == row_start + row_cells(w as int, y as int, x as int, cell),
            decreases w - x,
        {
            proof {
                crate::grid::lemma_idx_coords(w as int, h as int, x as int, y as int);
            }
            let i = puzzle.grid.idx(x, y);
            let v = cells[i];
            if v == BLACK {
                out.append("  #");
            } else if v == WHITE {
                out.append("  .");
            } else {
                out.append("  ?");
            }
            proof {
                assert(out@ =~= row_start + row_cells(w as int, y as int, x + 1, cell));
            }
            x = x + 1;
        }
        push_char(&mut out, '\n');
        proof {
            reveal_strlit("\n");
            assert(out@ =~= rows_text(w as int, y + 1, cell));
        }
        y = y + 1;
    }
    out
}

} // verus!
