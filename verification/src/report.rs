//! Text reports for the command line (`--print`, `--bench`) and for the
//! browser's Print and Bench buttons, so both show exactly the same text.

use vstd::prelude::*;

use crate::clock::{micros, Deadline};
use crate::generator::{clue_cells_of, count_value, generate_with, stats_describe, GenConfig, GenResult};
use crate::region::largest_region_size;
use crate::rules::{blank_cells, clueless_cells};
use crate::grid::Grid;
use crate::model::{agrees, decimal, push_decimal, Puzzle, BLACK, UNKNOWN};
use crate::rules::{validate, validation_messages};
use crate::solver::{is_solution, lemma_solution_grid, lemma_validate_iff_solution, SolveLimits, SolveOutcome, Solver};
use crate::text::{mark_text, pad3, printable_clues, puzzle_cell_text, render_cells, render_puzzle, rows_text};
use vstd::string::StringExecFns;

verus! {

/// The seed of the `k`-th puzzle of a run that starts at `seed`.
pub open spec fn nth_seed(seed: u64, k: int) -> u64 {
    if seed + k > u64::MAX {
        (seed + k - 0x1_0000_0000_0000_0000int) as u64
    } else {
        (seed + k) as u64
    }
}

/// The blocks one after the other.
pub open spec fn flatten(blocks: Seq<Seq<char>>) -> Seq<char>
    decreases blocks.len(),
{
    if blocks.len() == 0 {
        Seq::empty()
    } else {
        flatten(blocks.drop_last()) + blocks.last()
    }
}

/// `s` right-aligned in a field `width` characters wide.
pub open spec fn pad_left(s: Seq<char>, width: nat) -> Seq<char> {
    if s.len() >= width {
        s
    } else {
        Seq::new((width - s.len()) as nat, |i: int| ' ') + s
    }
}

/// Hundredths of a second as seconds with two decimals.
pub open spec fn seconds_text(centis: nat) -> Seq<char> {
    decimal(centis / 100) + "."@ + decimal((centis % 100) / 10) + decimal(centis % 10)
}

/// A printed puzzle: clues and dots, row by row.
pub open spec fn puzzle_rows(p: Puzzle) -> Seq<char> {
    rows_text(p.grid.w as int, p.grid.h as int, |i: int| pad3(puzzle_cell_text(&p, i)))
}

/// A printed mark grid, row by row.
pub open spec fn mark_rows(p: Puzzle, cells: Seq<u8>) -> Seq<char> {
    rows_text(p.grid.w as int, p.grid.h as int, |i: int| mark_text(cells[i]))
}

/// What the print report shows for a seed whose generation failed.
pub open spec fn failed_print(s: u64) -> Seq<char> {
    "seed "@ + decimal(s as nat) + ": generation failed\n\n"@
}

/// What the print report shows for a generated puzzle: a header with the
/// statistics (`st`: clues, walls, largest blank and clue-free patches,
/// attempts, removed clues, hundredths of a second), the puzzle, its
/// solution, and the check line with the rules verdict (`ok`, or `BROKEN`
/// when the stored solution breaks a rule), the number of solutions found,
/// whether the search gave up and its node count.
pub open spec fn printed(
    w: nat,
    h: nat,
    s: u64,
    st: (nat, nat, nat, nat, nat, nat, nat),
    p: Puzzle,
    ok: bool,
    found: nat,
    aborted: bool,
    nodes: u64,
) -> Seq<char> {
    "Tapa "@ + decimal(w) + "x"@ + decimal(h) + "  seed="@ + decimal(s as nat) + "  clues="@ + decimal(
        st.0,
    ) + "  black="@ + decimal(st.1) + "  blank="@ + decimal(st.2) + "  clueless="@ + decimal(st.3)
        + "  attempts="@ + decimal(st.4) + "  removed="@ + decimal(st.5) + "  "@ + seconds_text(st.6)
        + "s\n"@ + puzzle_rows(p) + "solution:\n"@ + mark_rows(p, p.solution@)
        + "check: rules="@ + (if ok {
        "ok"@
    } else {
        "BROKEN"@
    }) + " solutions="@ + decimal(found) + (if aborted {
        " (aborted)"@
    } else {
        ""@
    }) + " nodes="@ + decimal(nodes as nat) + "\n\n"@
}

/// A block of the print report for seed `s` on a `w x h` board: the
/// failure line, or the result of a run begun from seed `s`, with its
/// statistics: a puzzle whose stored solution is its only one, shown with a
/// check that found that one solution (unless the check gave up) and no
/// other.
pub open spec fn print_block(b: Seq<char>, s: u64, w: nat, h: nat) -> bool {
    ||| b == failed_print(s)
    ||| exists|r: GenResult, centis: u64, found: nat, aborted: bool, nodes: u64|
        {
            &&& b == #[trigger] printed(
                w,
                h,
                s,
                block_stats(r, centis),
                r.puzzle,
                true,
                found,
                aborted,
                nodes,
            )
            &&& r.drawn_from() == s
            &&& stats_describe(r)
            &&& r.puzzle.grid.w == w
            &&& r.puzzle.grid.h == h
            &&& is_solution(&r.puzzle.grid, r.puzzle.solution@, r.puzzle.clues@)
            &&& forall|t: Seq<u8>|
                #[trigger] is_solution(&r.puzzle.grid, t, r.puzzle.clues@) ==> t == r.puzzle.solution@
            &&& found <= 1
            &&& !aborted ==> found == 1
        }
}

/// What the bench report shows for a seed whose generation failed.
pub open spec fn bench_failed(s: u64) -> Seq<char> {
    "seed "@ + decimal(s as nat) + ": FAILED\n"@
}

/// What the bench report shows for a generated puzzle: its time in
/// milliseconds and its statistics (`st`: clues, walls, largest blank and
/// clue-free patches, attempts, search nodes, solver milliseconds, checks,
/// most nodes of one check).
pub open spec fn bench_line(s: u64, ms: nat, st: (nat, nat, nat, nat, nat, nat, nat, nat, nat)) -> Seq<
    char,
> {
    "seed "@ + decimal(s as nat) + ": "@ + pad_left(decimal(ms), 7) + " ms  clues="@ + pad_left(
        decimal(st.0),
        3,
    ) + "  black="@ + pad_left(decimal(st.1), 3) + "  blank="@ + pad_left(decimal(st.2), 3)
        + " clueless="@ + pad_left(decimal(st.3), 3) + "  attempts="@ + decimal(st.4) + "  nodes="@
        + decimal(st.5) + " solve="@ + decimal(st.6) + "ms checks="@ + decimal(st.7) + " maxcheck="@
        + decimal(st.8) + "\n"@
}

/// The statistics a bench line shows for a run: clues, walls, largest
/// blank and clue-free patches, attempts, search nodes, `solve_ms`
/// milliseconds in the solver, checks and most nodes of one check.
pub open spec fn bench_stats(r: GenResult, solve_ms: nat) -> (nat, nat, nat, nat, nat, nat, nat, nat, nat) {
    (
        r.stats.clue_count as nat,
        r.stats.black_count as nat,
        r.stats.blank_region as nat,
        r.stats.clueless_region as nat,
        r.stats.attempts as nat,
        r.stats.nodes as nat,
        solve_ms,
        r.stats.checks as nat,
        r.stats.max_check_nodes as nat,
    )
}

/// Line `b` of the bench report reports seed `s` on a `w x h` board: a
/// failure when `c` is `None`; otherwise the statistics of a run begun from
/// seed `s` whose puzzle, of that size, has `c` clues.
pub open spec fn bench_entry(b: Seq<char>, s: u64, c: Option<nat>, w: nat, h: nat) -> bool {
    match c {
        None => b == bench_failed(s),
        Some(n) => exists|ms: nat, r: GenResult, solve_ms: nat|
            {
                &&& b == #[trigger] bench_line(s, ms, bench_stats(r, solve_ms))
                &&& r.drawn_from() == s
                &&& stats_describe(r)
                &&& r.stats.clue_count == n
                &&& r.puzzle.grid.w == w
                &&& r.puzzle.grid.h == h
            },
    }
}

/// How many generations failed.
pub open spec fn failures(cs: Seq<Option<nat>>) -> nat
    decreases cs.len(),
{
    if cs.len() == 0 {
        0
    } else {
        failures(cs.drop_last()) + if cs.last() is None {
            1nat
        } else {
            0nat
        }
    }
}

/// The fewest and the most clues of the generated puzzles, if any.
pub open spec fn clue_range(cs: Seq<Option<nat>>) -> Option<(nat, nat)>
    decreases cs.len(),
{
    if cs.len() == 0 {
        None
    } else {
        let before = clue_range(cs.drop_last());
        match cs.last() {
            None => before,
            Some(c) => match before {
                None => Some((c, c)),
                Some((lo, hi)) => Some(
                    (
                        if c < lo {
                            c
                        } else {
                            lo
                        },
                        if c > hi {
                            c
                        } else {
                            hi
                        },
                    ),
                ),
            },
        }
    }
}

/// The closing summary of the bench report.
pub open spec fn bench_summary(
    w: nat,
    h: nat,
    count: nat,
    failed: nat,
    avg: nat,
    slowest: nat,
    range: Option<(nat, nat)>,
) -> Seq<char> {
    let (lo, hi) = match range {
        Some(r) => r,
        None => (0, 0),
    };
    "\n"@ + decimal(w) + "x"@ + decimal(h) + ": "@ + decimal(count) + " puzzle(s), "@ + decimal(failed)
        + " failed, avg "@ + decimal(avg) + " ms, slowest "@ + decimal(slowest) + " ms, clues "@
        + decimal(lo) + ".."@ + decimal(hi) + "\n"@
}

/// `text` is a bench report of `count` runs from `seed` on a `w x h` board:
/// one line per seed, as `cs` says (a failure, or a puzzle with that many
/// clues), then the summary with the failures, an average and a slowest
/// time, and the range of clue counts.
pub open spec fn bench_report(
    text: Seq<char>,
    lines: Seq<Seq<char>>,
    cs: Seq<Option<nat>>,
    avg: nat,
    slowest: nat,
    count: nat,
    w: nat,
    h: nat,
    seed: u64,
) -> bool {
    &&& lines.len() == count
    &&& cs.len() == count
    &&& forall|k: int| 0 <= k < count ==> bench_entry(#[trigger] lines[k], nth_seed(seed, k), cs[k], w, h)
    &&& text == flatten(lines) + bench_summary(w, h, count, failures(cs), avg, slowest, clue_range(cs))
}

/// `text` is a print report of `count` puzzles from `seed` on: one block
/// per seed, as [`print_block`] says.
pub open spec fn print_report(text: Seq<char>, count: nat, w: nat, h: nat, seed: u64) -> bool {
    exists|blocks: Seq<Seq<char>>|
        {
            &&& #[trigger] flatten(blocks) == text
            &&& blocks.len() == count
            &&& forall|k: int|
                0 <= k < count ==> print_block(#[trigger] blocks[k], nth_seed(seed, k), w, h)
        }
}

/// `text` is a bench report of `count` runs from `seed` on, as
/// [`bench_report`] says for some outcomes and timings.
pub open spec fn bench_text(text: Seq<char>, count: nat, w: nat, h: nat, seed: u64) -> bool {
    exists|lines: Seq<Seq<char>>, cs: Seq<Option<nat>>, avg: nat, slowest: nat|
        #[trigger] bench_report(text, lines, cs, avg, slowest, count, w, h, seed)
}

/// The configuration of one run: `cfg` with a fresh two-minute deadline.
fn with_deadline(cfg: &GenConfig) -> (c: GenConfig)
    ensures
        c.w == cfg.w,
        c.h == cfg.h,
        c.max_attempts == cfg.max_attempts,
        c.black_lo == cfg.black_lo,
        c.black_hi == cfg.black_hi,
        c.deadline matches Some(d) && d.at_ms == 120_000,
        c.node_budget == cfg.node_budget,
        c.time_budget_ms == cfg.time_budget_ms,
        c.check_min_nodes == cfg.check_min_nodes,
        c.check_slack == cfg.check_slack,
        c.max_clueless_region == cfg.max_clueless_region,
{
    GenConfig {
        w: cfg.w,
        h: cfg.h,
        max_attempts: cfg.max_attempts,
        black_lo: cfg.black_lo,
        black_hi: cfg.black_hi,
        deadline: Some(Deadline::after_ms(120_000)),
        node_budget: cfg.node_budget,
        time_budget_ms: cfg.time_budget_ms,
        check_min_nodes: cfg.check_min_nodes,
        check_slack: cfg.check_slack,
        max_clueless_region: cfg.max_clueless_region,
    }
}

/// Hundredths of a second, appended as seconds with two decimals.
pub(crate) fn push_seconds(out: &mut String, centis: u64)
    ensures
        final(out)@ == old(out)@ + seconds_text(centis as nat),
{
    push_u64(out, centis / 100);
    out.append(".");
    push_u64(out, (centis % 100) / 10);
    push_u64(out, centis % 10);
}

/// Decimal digits of `n`, appended.
pub(crate) fn push_u64(s: &mut String, n: u64)
    ensures
        final(s)@ == old(s)@ + decimal(n as nat),
    decreases n,
{
    if n >= 10 {
        push_u64(s, n / 10);
    }
    let d: u8 = (n % 10) as u8;
    crate::model::push_char(s, (48u8 + d) as char);
    proof {
        if n >= 10 {
            assert(decimal(n as nat) == decimal((n / 10) as nat).push((48 + n % 10) as char));
        }
    }
}

/// The statistics a printed block shows for a generated puzzle: clues,
/// walls, largest blank and clue-free patches, attempts, removed clues and
/// `centis` hundredths of a second.
pub open spec fn block_stats(r: GenResult, centis: u64) -> (nat, nat, nat, nat, nat, nat, nat) {
    (
        r.stats.clue_count as nat,
        r.stats.black_count as nat,
        r.stats.blank_region as nat,
        r.stats.clueless_region as nat,
        r.stats.attempts as nat,
        r.stats.removals as nat,
        centis as nat,
    )
}

/// The block of the print report for seed `seed` on a `w x h` board, given
/// what the generation gave, the time it took in hundredths of a second and
/// the outcome of the check search on the puzzle.
pub fn block_of(seed: u64, w: usize, h: usize, r: &Option<GenResult>, centis: u64, check: &SolveOutcome) -> (out:
    String)
    requires
        r matches Some(res) ==> {
            &&& res.puzzle.wf()
            &&& printable_clues(&res.puzzle)
            &&& res.puzzle.solution@.len() == res.puzzle.grid.size()
            &&& forall|t: int, j: int|
                0 <= t < res.puzzle.clues@.len() && 0 <= j < res.puzzle.clues@[t].1@.len()
                    ==> #[trigger] res.puzzle.clues@[t].1@[j] <= 207
        },
    ensures
        out@ == match *r {
            None => failed_print(seed),
            Some(res) => printed(
                w as nat,
                h as nat,
                seed,
                block_stats(res, centis),
                res.puzzle,
                validation_messages(&res.puzzle.grid, res.puzzle.solution@, res.puzzle.clues@).len() == 0,
                check.solutions@.len(),
                check.aborted,
                check.nodes,
            ),
        },
{
    match r {
        None => {
            let mut out = String::from_str("seed ");
            push_u64(&mut out, seed);
            out.append(": generation failed\n\n");
            out
        },
        Some(result) => {
            let puzzle = &result.puzzle;
            let stats = &result.stats;
            let mut out = String::from_str("Tapa ");
            push_decimal(&mut out, w);
            out.append("x");
            push_decimal(&mut out, h);
            out.append("  seed=");
            push_u64(&mut out, seed);
            out.append("  clues=");
            push_decimal(&mut out, stats.clue_count);
            out.append("  black=");
            push_decimal(&mut out, stats.black_count);
            out.append("  blank=");
            push_decimal(&mut out, stats.blank_region);
            out.append("  clueless=");
            push_decimal(&mut out, stats.clueless_region);
            out.append("  attempts=");
            push_decimal(&mut out, stats.attempts);
            out.append("  removed=");
            push_decimal(&mut out, stats.removals);
            out.append("  ");
            push_seconds(&mut out, centis);
            out.append("s\n");
            let board = render_puzzle(puzzle);
            out.append(board.as_str());
            out.append("solution:\n");
            let marks = render_cells(puzzle, &puzzle.solution);
            out.append(marks.as_str());
            let errors = validate(&puzzle.grid, &puzzle.solution, &puzzle.clues);
            out.append("check: rules=");
            if errors.len() == 0 {
                out.append("ok");
            } else {
                out.append("BROKEN");
            }
            out.append(" solutions=");
            push_decimal(&mut out, check.solutions.len());
            if check.aborted {
                out.append(" (aborted)");
            } else {
                out.append("");
            }
            out.append(" nodes=");
            push_u64(&mut out, check.nodes);
            out.append("\n\n");
            out
        },
    }
}

/// One block of the print report: generate from seed `s` with a two-minute
/// deadline, and check a puzzle that comes out with an unbounded search.
fn print_one(cfg: &GenConfig, s: u64) -> (b: String)
    requires
        cfg.w * cfg.h > 0,
        cfg.w * cfg.h < u32::MAX,
    ensures
        print_block(b@, s, cfg.w as nat, cfg.h as nat),
{
    let mut rng = crate::rng::Rng::new(s);
    let run = with_deadline(cfg);
    let result = match generate_with(&mut rng, &run) {
        Ok(res) => Some(res),
        Err(_) => None,
    };
    let (centis, outcome) = match &result {
        None => (0, SolveOutcome { solutions: Vec::new(), nodes: 0, aborted: false }),
        Some(res) => {
            let us = micros(&res.stats.elapsed);
            let centis = us / 10000 + if us % 10000 >= 5000 {
                1
            } else {
                0
            };
            let puzzle = &res.puzzle;
            let solver = Solver::new(Grid::new(puzzle.grid.w, puzzle.grid.h), &puzzle.clues);
            let fresh = solver.fresh_state();
            let outcome = solver.solve(&fresh, &SolveLimits::unique_check(None));
            proof {
                lemma_solution_grid(&puzzle.grid, &solver.grid, puzzle.solution@, puzzle.clues@);
                assert forall|j: int| 0 <= j < outcome.solutions@.len() implies (#[trigger] outcome.solutions@[j])@
                    == puzzle.solution@ by {
                    lemma_solution_grid(
                        &puzzle.grid,
                        &solver.grid,
                        outcome.solutions@[j]@,
                        puzzle.clues@,
                    );
                }
                if outcome.solutions@.len() >= 2 {
                    assert(outcome.solutions@[0]@ != outcome.solutions@[1]@);
                }
                if !outcome.aborted {
                    assert(agrees(puzzle.solution@, fresh@));
                }
            }
            (centis, outcome)
        },
    };
    let out = block_of(s, cfg.w, cfg.h, &result, centis, &outcome);
    proof {
        if let Some(res) = result {
            lemma_validate_iff_solution(&res.puzzle.grid, res.puzzle.solution@, res.puzzle.clues@);
            assert(out@ == printed(
                cfg.w as nat,
                cfg.h as nat,
                s,
                block_stats(res, centis),
                res.puzzle,
                true,
                outcome.solutions@.len(),
                outcome.aborted,
                outcome.nodes,
            ));
        }
    }
    out
}

/// Generate `count` puzzles, from `seed` on, and show each with its
/// solution plus a check that the rules hold and the search finds it.
pub fn print_puzzles(count: usize, cfg: &GenConfig, seed: u64) -> (out: String)
    requires
        cfg.w * cfg.h > 0,
        cfg.w * cfg.h < u32::MAX,
    ensures
        print_report(out@, count as nat, cfg.w as nat, cfg.h as nat, seed),
{
    let mut out = String::new();
    let ghost mut blocks: Seq<Seq<char>> = Seq::empty();
    let mut k: usize = 0;
    while k < count
        invariant
            cfg.w * cfg.h > 0,
            cfg.w * cfg.h < u32::MAX,
            k <= count,
            blocks.len() == k,
            out@ == flatten(blocks),
            forall|j: int|
                0 <= j < k ==> print_block(#[trigger] blocks[j], nth_seed(seed, j), cfg.w as nat, cfg.h as nat),
        decreases count - k,
    {
        let this_seed = seed.wrapping_add(k as u64);
        let b = print_one(cfg, this_seed);
        out.append(b.as_str());
        proof {
            let before = blocks;
            blocks = blocks.push(b@);
            assert(blocks.drop_last() =~= before);
        }
        k = k + 1;
    }
    proof {
        assert(flatten(blocks) == out@);
    }
    out
}

/// `n` right-aligned in a field `width` characters wide, appended.
fn push_padded(out: &mut String, n: u64, width: usize)
    ensures
        final(out)@ == old(out)@ + pad_left(decimal(n as nat), width as nat),
{
    let mut text = String::new();
    push_u64(&mut text, n);
    let len = text.as_str().unicode_len();
    let ghost start = out@;
    let mut k: usize = len;
    while k < width
        invariant
            len == text@.len(),
            len <= k,
            k <= width || k == len,
            out@ == start + Seq::new((k - len) as nat, |i: int| ' '),
        decreases width - k,
    {
        crate::model::push_char(out, ' ');
        proof {
            assert(out@ =~= start + Seq::new((k + 1 - len) as nat, |i: int| ' '));
        }
        k = k + 1;
    }
    out.append(text.as_str());
    proof {
        assert(text@ =~= Seq::<char>::empty() + decimal(n as nat));
        if len >= width {
            assert(out@ =~= start + text@);
        } else {
            assert(out@ =~= start + pad_left(decimal(n as nat), width as nat));
        }
    }
}

/// Whole milliseconds of a microsecond count, rounded to the nearest.
fn ms_of(us: u64) -> (r: u64)
    ensures
        r == us / 1000 + if us % 1000 >= 500 {
            1int
        } else {
            0int
        },
{
    us / 1000 + if us % 1000 >= 500 {
        1
    } else {
        0
    }
}

/// Time `count` generations, from `seed` on: one line per seed, then a
/// summary with the failures, the average and slowest times and the range
/// of clue counts.
pub fn bench(count: usize, cfg: &GenConfig, seed: u64) -> (out: String)
    requires
        cfg.w * cfg.h > 0,
        cfg.w * cfg.h < u32::MAX,
    ensures
        bench_text(out@, count as nat, cfg.w as nat, cfg.h as nat, seed),
{
    let mut out = String::new();
    let ghost mut lines: Seq<Seq<char>> = Seq::empty();
    let ghost mut cs: Seq<Option<nat>> = Seq::empty();
    let mut total_us: u64 = 0;
    let mut slowest_us: u64 = 0;
    let mut range: Option<(usize, usize)> = None;
    let mut failed: usize = 0;
    let mut k: usize = 0;
    while k < count
        invariant
            cfg.w * cfg.h > 0,
            cfg.w * cfg.h < u32::MAX,
            k <= count,
            lines.len() == k,
            cs.len() == k,
            out@ == flatten(lines),
            failed == failures(cs),
            failed <= k,
            forall|j: int|
                0 <= j < k ==> bench_entry(
                    #[trigger] lines[j],
                    nth_seed(seed, j),
                    cs[j],
                    cfg.w as nat,
                    cfg.h as nat,
                ),
            match clue_range(cs) {
                None => range is None,
                Some((lo, hi)) => range == Some((lo as usize, hi as usize)) && lo <= usize::MAX
                    && hi <= usize::MAX,
            },
        decreases count - k,
    {
        let this_seed = seed.wrapping_add(k as u64);
        let mut rng = crate::rng::Rng::new(this_seed);
        let run = with_deadline(cfg);
        let ghost before_lines = lines;
        let ghost before_cs = cs;
        match generate_with(&mut rng, &run) {
            Err(_) => {
                failed = failed + 1;
                let mut line = String::from_str("seed ");
                push_u64(&mut line, this_seed);
                line.append(": FAILED\n");
                out.append(line.as_str());
                proof {
                    lines = lines.push(line@);
                    cs = cs.push(None);
                }
            },
            Ok(result) => {
                let stats = result.stats;
                let us = micros(&stats.elapsed);
                total_us = total_us.saturating_add(us);
                if us > slowest_us {
                    slowest_us = us;
                }
                let clues = stats.clue_count;
                range = match range {
                    None => Some((clues, clues)),
                    Some((lo, hi)) => Some(
                        (
                            if clues < lo {
                                clues
                            } else {
                                lo
                            },
                            if clues > hi {
                                clues
                            } else {
                                hi
                            },
                        ),
                    ),
                };
                let ms = ms_of(us);
                let solve_ms = ms_of(micros(&stats.solve_time));
                let mut line = String::from_str("seed ");
                push_u64(&mut line, this_seed);
                line.append(": ");
                push_padded(&mut line, ms, 7);
                line.append(" ms  clues=");
                push_padded(&mut line, clues as u64, 3);
                line.append("  black=");
                push_padded(&mut line, stats.black_count as u64, 3);
                line.append("  blank=");
                push_padded(&mut line, stats.blank_region as u64, 3);
                line.append(" clueless=");
                push_padded(&mut line, stats.clueless_region as u64, 3);
                line.append("  attempts=");
                push_decimal(&mut line, stats.attempts);
                line.append("  nodes=");
                push_u64(&mut line, stats.nodes);
                line.append(" solve=");
                push_u64(&mut line, solve_ms);
                line.append("ms checks=");
                push_decimal(&mut line, stats.checks);
                line.append(" maxcheck=");
                push_u64(&mut line, stats.max_check_nodes);
                line.append("\n");
                out.append(line.as_str());
                proof {
                    let st = bench_stats(result, solve_ms as nat);
                    assert(line@ == bench_line(this_seed, ms as nat, st));
                    assert(result.drawn_from() == this_seed);
                    lines = lines.push(line@);
                    cs = cs.push(Some(clues as nat));
                }
            },
        }
        proof {
            assert(lines.drop_last() =~= before_lines);
            assert(cs.drop_last() =~= before_cs);
        }
        k = k + 1;
    }
    let ok: u64 = if count - failed > 1 {
        (count - failed) as u64
    } else {
        1
    };
    let denom: u128 = 1000 * (ok as u128);
    let sum: u128 = total_us as u128 + denom / 2;
    proof {
        assert(sum / denom <= u64::MAX) by (nonlinear_arith)
            requires
                sum <= u64::MAX + denom / 2,
                denom >= 1000,
        ;
    }
    let avg = (sum / denom) as u64;
    let slowest = ms_of(slowest_us);
    let (lo, clue_hi) = match range {
        Some((l, h)) => (l, h),
        None => (0, 0),
    };
    let mut tail = String::from_str("\n");
    push_decimal(&mut tail, cfg.w);
    tail.append("x");
    push_decimal(&mut tail, cfg.h);
    tail.append(": ");
    push_decimal(&mut tail, count);
    tail.append(" puzzle(s), ");
    push_decimal(&mut tail, failed);
    tail.append(" failed, avg ");
    push_u64(&mut tail, avg);
    tail.append(" ms, slowest ");
    push_u64(&mut tail, slowest);
    tail.append(" ms, clues ");
    push_decimal(&mut tail, lo);
    tail.append("..");
    push_decimal(&mut tail, clue_hi);
    tail.append("\n");
    proof {
        assert(tail@ == bench_summary(
            cfg.w as nat,
            cfg.h as nat,
            count as nat,
            failures(cs),
            avg as nat,
            slowest as nat,
            clue_range(cs),
        ));
    }
    out.append(tail.as_str());
    proof {
        assert(bench_report(out@, lines, cs, avg as nat, slowest as nat, count as nat, cfg.w as nat, cfg.h as nat, seed));
    }
    out
}

/// A line of the bench report that shows a puzzle shows the run begun from
/// its own seed, on the asked board: after `clues=` the clue count of that
/// run's puzzle, after `black=` the number of walls in its solution, after
/// `blank=` and `clueless=` its largest blank and clue-free patches, then
/// the attempts and search nodes of that run.
pub proof fn law_bench_line_shows_its_seeds_run(b: Seq<char>, s: u64, n: nat, w: nat, h: nat)
    requires
        bench_entry(b, s, Some(n), w, h),
    ensures
        exists|r: GenResult, ms: nat, solve_ms: nat|
            {
                &&& r.drawn_from() == s
                &&& r.puzzle.grid.w == w
                &&& r.puzzle.grid.h == h
                &&& n == r.puzzle.clues@.len()
                &&& b == #[trigger] bench_line(
                    s,
                    ms,
                    (
                        n,
                        count_value(r.puzzle.solution@, BLACK),
                        largest_region_size(
                            &r.puzzle.grid,
                            blank_cells(
                                r.puzzle.solution@,
                                clue_cells_of(r.puzzle.grid.size(), r.puzzle.clues@),
                            ),
                        ),
                        largest_region_size(
                            &r.puzzle.grid,
                            clueless_cells(&r.puzzle.grid, r.puzzle.solution@),
                        ),
                        r.stats.attempts as nat,
                        r.stats.nodes as nat,
                        solve_ms,
                        r.stats.checks as nat,
                        r.stats.max_check_nodes as nat,
                    ),
                )
            },
{
    let (ms, r, solve_ms) = choose|ms: nat, r: GenResult, solve_ms: nat|
        {
            &&& b == #[trigger] bench_line(s, ms, bench_stats(r, solve_ms))
            &&& r.drawn_from() == s
            &&& stats_describe(r)
            &&& r.stats.clue_count == n
            &&& r.puzzle.grid.w == w
            &&& r.puzzle.grid.h == h
        };
    assert(bench_stats(r, solve_ms) == (
        n,
        count_value(r.puzzle.solution@, BLACK),
        largest_region_size(
            &r.puzzle.grid,
            blank_cells(r.puzzle.solution@, clue_cells_of(r.puzzle.grid.size(), r.puzzle.clues@)),
        ),
        largest_region_size(&r.puzzle.grid, clueless_cells(&r.puzzle.grid, r.puzzle.solution@)),
        r.stats.attempts as nat,
        r.stats.nodes as nat,
        solve_ms,
        r.stats.checks as nat,
        r.stats.max_check_nodes as nat,
    ));
}

/// A block of the print report that shows a puzzle shows the run begun
/// from its own seed: its header gives that run's clue count, the walls of
/// its solution, its largest blank and clue-free patches, its attempts and
/// removed clues; then come that run's puzzle, of the asked size, and its
/// solution, which is the puzzle's only one; the check line counts that one
/// solution and no other, unless the check gave up.
pub proof fn law_printed_block_shows_its_seeds_run(b: Seq<char>, s: u64, w: nat, h: nat)
    requires
        print_block(b, s, w, h),
        b != failed_print(s),
    ensures
        exists|r: GenResult, centis: u64, found: nat, aborted: bool, nodes: u64|
            {
                &&& r.drawn_from() == s
                &&& r.puzzle.grid.w == w
                &&& r.puzzle.grid.h == h
                &&& forall|t: Seq<u8>|
                    #[trigger] is_solution(&r.puzzle.grid, t, r.puzzle.clues@) <==> t
                        == r.puzzle.solution@
                &&& found <= 1
                &&& !aborted ==> found == 1
                &&& b == #[trigger] printed(
                    w,
                    h,
                    s,
                    (
                        r.puzzle.clues@.len(),
                        count_value(r.puzzle.solution@, BLACK),
                        largest_region_size(
                            &r.puzzle.grid,
                            blank_cells(
                                r.puzzle.solution@,
                                clue_cells_of(r.puzzle.grid.size(), r.puzzle.clues@),
                            ),
                        ),
                        largest_region_size(
                            &r.puzzle.grid,
                            clueless_cells(&r.puzzle.grid, r.puzzle.solution@),
                        ),
                        r.stats.attempts as nat,
                        r.stats.removals as nat,
                        centis as nat,
                    ),
                    r.puzzle,
                    true,
                    found,
                    aborted,
                    nodes,
                )
            },
{
    let (r, centis, found, aborted, nodes) = choose|
        r: GenResult,
        centis: u64,
        found: nat,
        aborted: bool,
        nodes: u64,
    |
        {
            &&& b == #[trigger] printed(
                w,
                h,
                s,
                block_stats(r, centis),
                r.puzzle,
                true,
                found,
                aborted,
                nodes,
            )
            &&& r.drawn_from() == s
            &&& stats_describe(r)
            &&& r.puzzle.grid.w == w
            &&& r.puzzle.grid.h == h
            &&& is_solution(&r.puzzle.grid, r.puzzle.solution@, r.puzzle.clues@)
            &&& forall|t: Seq<u8>|
                #[trigger] is_solution(&r.puzzle.grid, t, r.puzzle.clues@) ==> t == r.puzzle.solution@
            &&& found <= 1
            &&& !aborted ==> found == 1
        };
    assert(block_stats(r, centis) == (
        r.puzzle.clues@.len(),
        count_value(r.puzzle.solution@, BLACK),
        largest_region_size(
            &r.puzzle.grid,
            blank_cells(r.puzzle.solution@, clue_cells_of(r.puzzle.grid.size(), r.puzzle.clues@)),
        ),
        largest_region_size(&r.puzzle.grid, clueless_cells(&r.puzzle.grid, r.puzzle.solution@)),
        r.stats.attempts as nat,
        r.stats.removals as nat,
        centis as nat,
    ));
    assert forall|t: Seq<u8>| #[trigger] is_solution(&r.puzzle.grid, t, r.puzzle.clues@) <==> t
        == r.puzzle.solution@ by {
    }
}

} // verus!
