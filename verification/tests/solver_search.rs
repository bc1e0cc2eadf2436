use tapa_core::grid::Grid;
use tapa_core::maskset::MaskSet;
use tapa_core::model::{clue_of, BLACK, UNKNOWN, WHITE};
use tapa_core::solver::{SolveLimits, Solver};

/// Build the full clue set of a solution and check the solver recovers it.
fn round_trip(w: usize, h: usize, blacks: &[usize]) {
    let grid = Grid::new(w, h);
    let mut cells = vec![WHITE; grid.len()];
    for &b in blacks {
        cells[b] = BLACK;
    }
    let mut clues = Vec::new();
    for i in 0..grid.len() {
        if cells[i] == WHITE {
            let clue = clue_of(&cells, &grid, i);
            if !clue.is_empty() {
                clues.push((i, clue));
            }
        }
    }
    let solver = Solver::new(grid, &clues);
    let outcome = solver.solve(&solver.fresh_state(), &SolveLimits::unique_check(None));
    assert!(!outcome.aborted);
    assert_eq!(outcome.solutions.len(), 1, "puzzle is not unique");
    assert_eq!(outcome.solutions[0], cells, "solver returned a different grid");
    assert!(outcome.is_unique());
}

#[test]
fn single_black_cell() {
    round_trip(3, 3, &[4]);
}

#[test]
fn two_black_cells() {
    round_trip(3, 3, &[0, 1]);
}

#[test]
fn snake_on_5x5() {
    round_trip(5, 5, &[0, 1, 2, 7, 12, 17, 22, 23, 24]);
}

#[test]
fn rejects_illegal_states() {
    let grid = Grid::new(3, 3);
    // clue "1" at the centre, but two black neighbours -> contradiction
    let clues = vec![(4usize, vec![1u8])];
    let solver = Solver::new(grid, &clues);
    let mut state = solver.fresh_state();
    state[0] = BLACK;
    state[2] = BLACK;
    assert!(!solver.propagate(&mut state));
}

#[test]
fn forced_2x2() {
    let grid = Grid::new(3, 3);
    let solver = Solver::new(grid, &[]);
    let mut state = solver.fresh_state();
    state[0] = BLACK;
    state[1] = BLACK;
    state[3] = BLACK;
    assert!(solver.propagate(&mut state));
    assert_eq!(state[4], WHITE);
}

#[test]
fn mask_set_arithmetic() {
    let mut set = MaskSet::empty();
    assert!(set.is_empty());
    assert_eq!(set.count(), 0);
    for m in [0u8, 5, 63, 64, 200, 255] {
        set.insert(m);
    }
    assert_eq!(set.count(), 6);
    assert!(!set.is_empty());
    assert!(set.intersects(set));
    assert_eq!(set.and(MaskSet::empty()), MaskSet::empty());
    assert_eq!(set.and(set), set);
    let mut list = set.to_vec();
    list.sort_unstable();
    assert_eq!(list, vec![0, 5, 63, 64, 200, 255]);
}

#[test]
fn arc_consistency_matches_naive_filter() {
    let grid = Grid::new(5, 5);
    let clues = vec![(12usize, vec![2u8, 1]), (7usize, vec![1u8])];
    let solver = Solver::new(grid.clone(), &clues);
    let mut state = solver.fresh_state();
    state[11] = BLACK;
    state[13] = WHITE;
    state[6] = WHITE;
    for (k, (cell, _)) in clues.iter().enumerate() {
        let bitset = solver.alive_for(k, &state);
        let mut naive: Vec<u8> = solver.sets[k]
            .all
            .to_vec()
            .into_iter()
            .filter(|&m| {
                grid.neighbors(*cell).iter().enumerate().all(|(b, nb)| match nb {
                    None => true,
                    Some(nb) => match state[*nb] {
                        BLACK => m & (1 << b) != 0,
                        WHITE => m & (1 << b) == 0,
                        _ => true,
                    },
                })
            })
            .collect();
        naive.sort_unstable();
        let mut got = bitset.to_vec();
        got.sort_unstable();
        assert_eq!(got, naive);
    }
}

// ---- further cases ----

#[test]
fn fresh_state_leaves_every_cell_open() {
    let grid = Grid::new(3, 3);
    let solver = Solver::new(grid, &[(4usize, vec![1u8])]);
    let state = solver.fresh_state();
    assert_eq!(state, vec![UNKNOWN; 9]);
}

#[test]
fn an_ambiguous_puzzle_reports_two_solutions() {
    // a lone clue "1" in the middle of a 3x3 board: the wall may stand on
    // any of the eight neighbours
    let grid = Grid::new(3, 3);
    let solver = Solver::new(grid, &[(4usize, vec![1u8])]);
    let outcome = solver.solve(&solver.fresh_state(), &SolveLimits::unique_check(None));
    assert_eq!(outcome.solutions.len(), 2);
    assert!(!outcome.is_unique());
    assert_ne!(outcome.solutions[0], outcome.solutions[1]);
}

#[test]
fn a_contradictory_puzzle_has_no_solution() {
    let grid = Grid::new(3, 3);
    // "8" needs all eight neighbours black, "1" at the corner then sees three
    let solver = Solver::new(grid, &[(4usize, vec![8u8]), (0usize, vec![1u8])]);
    let outcome = solver.solve(&solver.fresh_state(), &SolveLimits::unique_check(None));
    assert!(!outcome.aborted);
    assert!(outcome.solutions.is_empty());
}

#[test]
fn a_tiny_node_budget_aborts() {
    let grid = Grid::new(6, 6);
    let solver = Solver::new(grid, &[]);
    let limits = SolveLimits::unique_check(None).with_node_budget(1);
    let outcome = solver.solve(&solver.fresh_state(), &limits);
    assert!(outcome.nodes <= 1);
    assert!(outcome.aborted);
}

#[test]
fn solving_respects_given_marks() {
    let grid = Grid::new(3, 3);
    let solver = Solver::new(grid, &[(4usize, vec![1u8])]);
    let mut start = solver.fresh_state();
    for i in [0usize, 1, 2, 3, 5, 6, 7] {
        start[i] = WHITE;
    }
    let outcome = solver.solve(&start, &SolveLimits::unique_check(None));
    assert_eq!(outcome.solutions.len(), 1);
    assert_eq!(outcome.solutions[0][8], BLACK);
}

#[test]
fn branching_weights_count_the_clues_around_a_cell() {
    let grid = Grid::new(3, 3);
    let clues = vec![(0usize, vec![1u8]), (4usize, vec![1u8])];
    let solver = Solver::new(grid, &clues);
    // a clue cell weighs 255 plus the clues around it
    assert_eq!(solver.weight[0], 256);
    assert_eq!(solver.weight[4], 256);
    // cells next to both clues
    assert_eq!(solver.weight[1], 2);
    assert_eq!(solver.weight[3], 2);
    // cells next to the centre only
    assert_eq!(solver.weight[2], 1);
    assert_eq!(solver.weight[8], 1);
}

#[test]
fn walls_in_the_start_are_joined_up() {
    let solver = Solver::new(Grid::new(3, 1), &[]);
    let initial = vec![BLACK, UNKNOWN, BLACK];
    let r = solver.solve(&initial, &SolveLimits::unique_check(None));
    assert!(!r.aborted);
    assert_eq!(r.solutions, vec![vec![BLACK, BLACK, BLACK]]);
    assert!(r.is_unique());
}

#[test]
fn a_start_with_a_wall_block_has_no_solution() {
    let solver = Solver::new(Grid::new(2, 2), &[]);
    let r = solver.solve(&[BLACK; 4], &SolveLimits::unique_check(None));
    assert!(!r.aborted);
    assert!(r.solutions.is_empty());
}

#[test]
fn a_start_with_a_strange_mark_has_no_solution() {
    let solver = Solver::new(Grid::new(2, 1), &[]);
    let r = solver.solve(&[7, UNKNOWN], &SolveLimits::unique_check(None));
    assert!(!r.aborted);
    assert!(r.solutions.is_empty());
    assert_eq!(r.nodes, 0);
}

#[test]
fn an_open_board_is_searched_within_its_tree() {
    // 2^(9 + 1) - 1 nodes at most for nine open cells
    let solver = Solver::new(Grid::new(3, 3), &[]);
    let r = solver.solve(&solver.fresh_state(), &SolveLimits::unique_check(None).with_node_budget(1024));
    assert!(!r.aborted);
    assert!(r.nodes <= 1023);
    assert_eq!(r.solutions.len(), 2);
}

#[test]
fn an_open_cell_cut_off_from_the_walls_turns_empty() {
    let solver = Solver::new(Grid::new(3, 1), &[]);
    let mut state = vec![BLACK, WHITE, UNKNOWN];
    assert!(solver.propagate(&mut state));
    assert_eq!(state, vec![BLACK, WHITE, WHITE]);
}
