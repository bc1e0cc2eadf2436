use tapa_core::grid::Grid;
use tapa_core::model::{Puzzle, BLACK, UNKNOWN, WHITE};
use tapa_core::text::{render_cells, render_puzzle};

#[test]
fn renders_clues_and_marks() {
    let grid = Grid::new(2, 2);
    let mut solution = vec![WHITE; 4];
    solution[0] = BLACK;
    solution[1] = BLACK;
    let puzzle = Puzzle::new(grid, vec![(3, vec![2])], solution.clone(), 1);
    let text = render_puzzle(&puzzle);
    assert_eq!(text, "  .  .\n  .  2\n");
    let marks = render_cells(&puzzle, &solution);
    assert_eq!(marks, "  #  #\n  .  .\n");
}

#[test]
fn renders_unknown_marks_and_multi_digit_clues() {
    let grid = Grid::new(3, 1);
    let solution = vec![BLACK, WHITE, BLACK];
    let puzzle = Puzzle::new(grid, vec![(1, vec![1, 1])], solution, 3);
    assert_eq!(render_puzzle(&puzzle), "  . 11  .\n");
    assert_eq!(render_cells(&puzzle, &[UNKNOWN, WHITE, BLACK]), "  ?  .  #\n");
}
