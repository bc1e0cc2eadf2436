use tapa_core::grid::Grid;
use tapa_core::model::{
    clue_deductions, clue_is_showable, clue_is_valid, clue_masks, clue_of, clue_satisfiable,
    clue_step, clue_text, feasible_masks, mask_fits_marks, runs_clockwise, Clue, Puzzle, BLACK,
    UNKNOWN, WHITE,
};
use tapa_core::rules::{
    largest_blank_region, largest_clueless_region, line_cells, live_errors, validate,
    wall_component,
};

#[test]
fn runs_of_known_masks() {
    assert_eq!(runs_clockwise(0), Vec::<u8>::new());
    assert_eq!(runs_clockwise(0xFF), vec![8]);
    // single black at up-left
    assert_eq!(runs_clockwise(1 << 0), vec![1]);
    // up + up-right + right
    assert_eq!(runs_clockwise(0b0000_1110), vec![3]);
    // up-left, then up-right..right
    assert_eq!(runs_clockwise(0b0000_1101), vec![2, 1]);
    // alternating
    assert_eq!(runs_clockwise(0b1010_1010), vec![1, 1, 1, 1]);
}

#[test]
fn clue_mask_counts() {
    assert_eq!(clue_masks(&[8]), vec![0xFF]);
    assert_eq!(clue_masks(&[1]).len(), 8);
    assert_eq!(clue_masks(&[2]).len(), 8);
    // two non adjacent cells on an 8-cycle: 8 * 5 / 2
    assert_eq!(clue_masks(&[1, 1]).len(), 20);
    // three non adjacent cells on an 8-cycle
    assert_eq!(clue_masks(&[1, 1, 1]).len(), 16);
    // four runs of one = alternating
    assert_eq!(clue_masks(&[1, 1, 1, 1]).len(), 2);
    // a 2-run (8 places) plus an isolated black (4 legal places)
    assert_eq!(clue_masks(&[2, 1]).len(), 32);
    // a 3-run (8 places) plus an isolated black (3 legal places)
    assert_eq!(clue_masks(&[3, 1]).len(), 24);
    assert!(clue_masks(&[1, 2]).contains(&0b0000_1101));
}

#[test]
fn impossible_clues() {
    // 1 + 2 + 3 = 6 black cells plus 3 separators needs 9 cells
    assert!(clue_masks(&[1, 2, 3]).is_empty());
    assert!(!clue_is_valid(&[1, 2, 3]));
    assert!(clue_is_valid(&[1, 2, 2]));
    assert!(clue_is_valid(&[8]));
    assert!(!clue_is_valid(&[9]));
    assert!(!clue_is_valid(&[]));
}

#[test]
fn runs_are_cyclic() {
    // bits 0, 2, 3, 5, 6, 7: the run at 7..0 wraps around the corner
    let m = 0b1110_1101u8;
    assert_eq!(runs_clockwise(m), vec![2, 4]);
    // 0 1 1 0 1 1 0 1 -> runs [2,2,1]
    let m2 = 0b1011_0110u8;
    assert_eq!(runs_clockwise(m2), vec![2, 2, 1]);
    assert!(clue_masks(&[1, 2, 2]).contains(&m2));
}

#[test]
fn clue_of_round_trip() {
    let grid = Grid::new(3, 3);
    let mut cells = vec![WHITE; 9];
    // black ring around the centre
    for i in 0..9 {
        if i != 4 {
            cells[i] = BLACK;
        }
    }
    assert_eq!(clue_of(&cells, &grid, 4), vec![8]);
    // only the corner is black
    let mut cells2 = vec![WHITE; 9];
    cells2[0] = BLACK;
    assert_eq!(clue_of(&cells2, &grid, 4), vec![1]);
}

#[test]
fn validate_detects_problems() {
    let grid = Grid::new(2, 2);
    let cells = vec![BLACK; 4];
    let errors = validate(&grid, &cells, &[]);
    assert!(errors.iter().any(|e| e.contains("2x2")));
}

#[test]
fn wall_component_finds_the_group() {
    let grid = Grid::new(4, 4);
    let mut marks = vec![WHITE; 16];
    marks[0] = BLACK;
    marks[1] = BLACK;
    marks[5] = BLACK; // (1,1)
    marks[10] = BLACK; // separate
    let group = wall_component(&grid, &marks, 0);
    assert!(group[0] && group[1] && group[5]);
    assert!(!group[10]);
    assert_eq!(group.iter().filter(|&&b| b).count(), 3);
}

#[test]
fn clue_satisfiability() {
    let grid = Grid::new(3, 3);
    let clue = vec![1u8];
    let mut marks = vec![UNKNOWN; 9];
    assert!(clue_satisfiable(&grid, &marks, 4, &clue));
    marks[0] = BLACK; // exactly one wall around the centre
    assert!(clue_satisfiable(&grid, &marks, 4, &clue));
    marks[2] = BLACK; // now two, a clue of 1 can never be met
    assert!(!clue_satisfiable(&grid, &marks, 4, &clue));
    marks[2] = UNKNOWN;
    assert!(clue_satisfiable(&grid, &marks, 4, &clue));
}

#[test]
fn live_errors_flags_2x2() {
    let grid = Grid::new(4, 4);
    let mut marks = vec![UNKNOWN; 16];
    for i in [0usize, 1, 4, 5] {
        marks[i] = BLACK;
    }
    let errors = live_errors(&grid, &marks, &[], None);
    for i in [0usize, 1, 4, 5] {
        assert!(errors.cells[i], "cell {i} should be flagged");
    }
}

#[test]
fn live_errors_flags_sealed_wall_group() {
    let grid = Grid::new(5, 5);
    let mut marks = vec![UNKNOWN; 25];
    marks[0] = BLACK; // (0,0)
    marks[24] = BLACK; // (4,4), in the open area
    // seal (0,0) off: all its orthogonal neighbours become empty
    marks[1] = WHITE;
    marks[5] = WHITE;
    let errors = live_errors(&grid, &marks, &[], Some(0));
    assert!(errors.cells[0], "the sealed group must be flagged");
    assert!(!errors.cells[24], "the open group must not be flagged");
}

#[test]
fn live_errors_flags_a_lone_wall_that_is_sealed_in() {
    // the only wall on the board, cut off by empty marks
    let grid = Grid::new(5, 5);
    let mut marks = vec![UNKNOWN; 25];
    marks[12] = BLACK; // (2,2)
    for nb in [7usize, 8, 9, 11, 13, 17, 18, 19] {
        marks[nb] = WHITE;
    }
    let errors = live_errors(&grid, &marks, &[], Some(12));
    assert!(errors.cells[12], "a lone sealed wall must be flagged");
}

#[test]
fn live_errors_flags_a_wall_sealed_in_by_clue_cells() {
    // clue cells count as empty, so a pocket of clue cells seals a wall too
    let grid = Grid::new(5, 5);
    let mut marks = vec![UNKNOWN; 25];
    marks[12] = BLACK; // (2,2)
    let clues: Vec<(usize, Clue)> = [7usize, 8, 9, 11, 13, 17, 18, 19]
        .iter()
        .map(|&i| (i, vec![1u8]))
        .collect();
    for (i, _) in clues.iter() {
        marks[*i] = WHITE; // clue cells are given as empty
    }
    let errors = live_errors(&grid, &marks, &clues, Some(12));
    assert!(errors.cells[12], "a wall inside a ring of clues is stranded");
}

#[test]
fn live_errors_leaves_a_lone_open_wall_alone() {
    let grid = Grid::new(5, 5);
    let mut marks = vec![UNKNOWN; 25];
    marks[12] = BLACK;
    let errors = live_errors(&grid, &marks, &[], Some(12));
    assert!(!errors.cells.iter().any(|&b| b), "nothing is sealed yet");
}

#[test]
fn live_errors_ignores_groups_that_can_still_join() {
    let grid = Grid::new(5, 5);
    let mut marks = vec![UNKNOWN; 25];
    marks[0] = BLACK;
    marks[24] = BLACK;
    // nothing sealed: both groups sit in the same undecided area
    let errors = live_errors(&grid, &marks, &[], None);
    assert!(!errors.cells.iter().any(|&b| b));
}

#[test]
fn one_step_deductions() {
    // 3x3, clue "1" at the centre. Marking one neighbour empty leaves
    // exactly one place for the single wall: the opposite one.
    let grid = Grid::new(3, 3);
    let clues = vec![(4usize, vec![1u8])];
    let mut marks = vec![UNKNOWN; 9];
    marks[4] = WHITE; // clue cells are given as empty
    let found = clue_deductions(&grid, &marks, &clues);
    assert!(found.is_empty(), "nothing is forced yet");

    // every neighbour empty except one -> that one must be the wall
    for i in [0usize, 1, 2, 3, 5, 6, 7] {
        marks[i] = WHITE;
    }
    let found = clue_deductions(&grid, &marks, &clues);
    assert_eq!(found, vec![(8, BLACK)]);

    // clue "2" with one neighbour already black forces the other wall
    let clues = vec![(4usize, vec![2u8])];
    let mut marks = vec![UNKNOWN; 9];
    marks[4] = WHITE;
    marks[0] = BLACK;
    for i in [2usize, 3, 5, 6, 7] {
        marks[i] = WHITE;
    }
    let found = clue_deductions(&grid, &marks, &clues);
    assert!(found.contains(&(1, BLACK)) || found.contains(&(3, BLACK)));
}

#[test]
fn single_clue_step_is_local() {
    // 4x3 grid, one clue at (1,1). Marking seven of its neighbours empty
    // leaves exactly one place for the wall the clue asks for.
    let grid = Grid::new(4, 3);
    let clue = vec![1u8];
    let mut marks = vec![UNKNOWN; 12];
    marks[5] = WHITE; // the clue cell itself, at (1,1)
    for i in [0usize, 1, 2, 4, 6, 8, 9] {
        marks[i] = WHITE;
    }
    let step = clue_step(&grid, &marks, 5, &clue);
    assert_eq!(step, vec![(10, BLACK)]);

    // the step only ever touches the eight cells of its own clue
    for (cell, _) in &step {
        let (x, y) = grid.xy(*cell);
        let (cx, cy) = grid.xy(5);
        assert!((x as i32 - cx as i32).abs() <= 1 && (y as i32 - cy as i32).abs() <= 1);
    }

    // one unknown too many: nothing is forced
    marks[9] = UNKNOWN;
    assert!(clue_step(&grid, &marks, 5, &clue).is_empty());
}

#[test]
fn live_errors_flags_impossible_clue() {
    let grid = Grid::new(3, 3);
    let mut marks = vec![UNKNOWN; 9];
    marks[0] = BLACK;
    marks[2] = BLACK;
    let clues = vec![(4usize, vec![1u8])];
    let errors = live_errors(&grid, &marks, &clues, None);
    assert!(errors.clues[4]);
    assert!(errors.cells[4]);
}

// ---- further cases of the same functions ----

#[test]
fn grid_geometry_round_trips() {
    let grid = Grid::new(4, 3);
    assert_eq!(grid.len(), 12);
    assert_eq!(grid.idx(3, 2), 11);
    assert_eq!(grid.xy(6), (2, 1));
    // the corner has no up-left, up or left neighbour; clockwise from up-left
    let nb = grid.neighbors(0);
    assert_eq!(nb[0], None);
    assert_eq!(nb[1], None);
    assert_eq!(nb[3], Some(1));
    assert_eq!(nb[4], Some(5));
    assert_eq!(nb[5], Some(4));
    assert_eq!(nb[7], None);
    let centre = Grid::new(3, 3);
    assert_eq!(
        centre.neighbors(4),
        &[Some(0), Some(1), Some(2), Some(5), Some(8), Some(7), Some(6), Some(3)]
    );
    let o = grid.ortho(5);
    assert_eq!(o, &[Some(1), Some(6), Some(9), Some(4)]);
}

#[test]
fn clue_text_and_showable() {
    assert_eq!(clue_text(&[1, 3]), "13");
    assert_eq!(clue_text(&[8]), "8");
    assert!(clue_is_showable(&[1, 1, 1, 1]));
    assert!(!clue_is_showable(&[]));
}

#[test]
fn clue_round_trip_law_on_every_mask() {
    // the clue read off any ring is a clue that ring satisfies
    for m in 0..=255u8 {
        let runs = runs_clockwise(m);
        if runs.is_empty() {
            continue;
        }
        assert!(clue_masks(&runs).contains(&m), "mask {m}");
    }
}

#[test]
fn feasible_masks_respect_the_border() {
    let grid = Grid::new(3, 3);
    // at the corner only three neighbours exist, so a clue of 4 cannot fit
    assert!(feasible_masks(&grid, 0, &vec![4u8]).is_empty());
    let m = feasible_masks(&grid, 0, &vec![3u8]);
    assert_eq!(m.len(), 1);
    let marks = vec![UNKNOWN; 9];
    assert!(mask_fits_marks(&grid, 4, 0b0000_0001, &marks));
    let mut marks2 = marks.clone();
    marks2[0] = WHITE;
    assert!(!mask_fits_marks(&grid, 4, 0b0000_0001, &marks2));
}

#[test]
fn line_cells_walks_a_diagonal() {
    let grid = Grid::new(4, 4);
    let path = line_cells(&grid, 0, 15);
    assert_eq!(path, vec![0, 5, 10, 15]);
    assert_eq!(line_cells(&grid, 6, 6), vec![6]);
}

#[test]
fn a_shallow_line_takes_one_cell_per_column() {
    let grid = Grid::new(8, 4);
    // from (0, 0) to (7, 2)
    assert_eq!(line_cells(&grid, 0, 23), vec![0, 1, 10, 11, 12, 13, 22, 23]);
    assert_eq!(line_cells(&grid, 23, 0), vec![23, 22, 13, 12, 11, 10, 1, 0]);
    // a steep line takes one cell per row: (1, 0) to (2, 3)
    assert_eq!(line_cells(&grid, 1, 26).len(), 4);
}

#[test]
fn a_knight_move_line_steps_across_first() {
    let grid = Grid::new(3, 3);
    assert_eq!(line_cells(&grid, 0, 8), vec![0, 4, 8]);
    assert_eq!(line_cells(&grid, 8, 0), vec![8, 4, 0]);
    assert_eq!(line_cells(&grid, 0, 5), vec![0, 1, 5]);
    assert_eq!(line_cells(&grid, 4, 4), vec![4]);
}

#[test]
fn validate_accepts_a_solved_board() {
    let grid = Grid::new(3, 3);
    let mut cells = vec![WHITE; 9];
    cells[0] = BLACK;
    cells[1] = BLACK;
    let clues = vec![(4usize, clue_of(&cells, &grid, 4))];
    assert!(validate(&grid, &cells, &clues).is_empty());
    // an unknown cell is reported
    cells[8] = UNKNOWN;
    let errors = validate(&grid, &cells, &clues);
    assert!(errors.iter().any(|e| e == "cell (2,2) is empty"), "{errors:?}");
}

#[test]
fn validate_reports_split_walls() {
    let grid = Grid::new(3, 3);
    let mut cells = vec![WHITE; 9];
    cells[0] = BLACK;
    cells[8] = BLACK;
    let errors = validate(&grid, &cells, &[]);
    assert!(
        errors.iter().any(|e| e == "black cells are not connected (1 of 2 reachable)"),
        "{errors:?}"
    );
}

#[test]
fn regions_are_measured() {
    let grid = Grid::new(3, 3);
    let mut cells = vec![WHITE; 9];
    cells[3] = BLACK;
    cells[4] = BLACK;
    cells[5] = BLACK;
    let is_clue = vec![false; 9];
    assert_eq!(largest_blank_region(&grid, &cells, &is_clue), 3);
    // every white cell touches the wall row
    assert_eq!(largest_clueless_region(&grid, &cells), 0);
    let open = vec![WHITE; 9];
    assert_eq!(largest_clueless_region(&grid, &open), 9);
}

#[test]
fn puzzle_lookup_finds_clues() {
    let grid = Grid::new(2, 2);
    let mut solution = vec![WHITE; 4];
    solution[0] = BLACK;
    let puzzle = Puzzle::new(grid, vec![(3, vec![1])], solution, 5);
    assert!(puzzle.is_clue(3));
    assert!(!puzzle.is_clue(0));
    assert_eq!(puzzle.clue_at(3), Some(&vec![1u8]));
    assert_eq!(puzzle.clue_at(1), None);
    assert_eq!(puzzle.seed, 5);
}

#[test]
fn live_errors_any_reports_a_flag() {
    let grid = Grid::new(4, 4);
    let mut marks = vec![UNKNOWN; 16];
    for i in [0usize, 1, 4, 5] {
        marks[i] = BLACK;
    }
    assert!(live_errors(&grid, &marks, &[], None).any());
    let calm = vec![UNKNOWN; 16];
    assert!(!live_errors(&grid, &calm, &[], None).any());
}

#[test]
fn runs_of_every_ring_add_up_and_turn_with_it() {
    for m in 0..=255u8 {
        let runs = runs_clockwise(m);
        assert!(runs.len() <= 4);
        assert!(runs.iter().all(|&r| (1..=8).contains(&r)));
        assert_eq!(runs.iter().map(|&r| r as u32).sum::<u32>(), m.count_ones());
        assert_eq!(runs.is_empty(), m == 0);
        let turned = runs_clockwise(m.rotate_left(1));
        assert_eq!(turned.len(), runs.len());
        let n = runs.len();
        assert!(n == 0 || (0..n).any(|s| (0..n).all(|k| runs[(s + k) % n] == turned[k])));
    }
}

#[test]
fn a_clue_is_valid_exactly_when_it_has_a_mask() {
    let clues: Vec<Vec<u8>> = vec![
        vec![1], vec![8], vec![9], vec![0], vec![1, 1], vec![3, 3], vec![4, 3], vec![1, 1, 1, 1],
        vec![1, 1, 1, 1, 1], vec![2, 1, 1], vec![2, 2, 1], vec![7], vec![1, 6],
    ];
    for clue in clues {
        assert_eq!(clue_is_valid(&clue), !clue_masks(&clue).is_empty(), "clue {clue:?}");
    }
}

#[test]
fn puzzle_keeps_the_order_of_clues_on_one_cell() {
    let grid = Grid::new(3, 3);
    let clues: Vec<(usize, Clue)> = vec![(4, vec![2]), (1, vec![1]), (4, vec![1, 1]), (0, vec![3])];
    let puzzle = Puzzle::new(grid, clues, vec![UNKNOWN; 9], 0);
    let cells: Vec<usize> = puzzle.clues.iter().map(|c| c.0).collect();
    assert_eq!(cells, vec![0, 1, 4, 4]);
    assert_eq!(puzzle.clues[2].1, vec![2]);
    assert_eq!(puzzle.clues[3].1, vec![1, 1]);
}
