use tapa_core::engine::{Engine, Field, Kind, Panel, Request};
use tapa_core::generator::GenConfig;
use tapa_core::model::{BLACK, UNKNOWN, WHITE};

fn engine_with_puzzle(size: usize, seed: u64) -> Engine {
    let mut engine = Engine::new();
    let mut cfg = GenConfig::for_size(size, size);
    cfg.node_budget = 1_000_000;
    cfg.time_budget_ms = 20_000;
    engine.new_puzzle(seed, &cfg);
    engine
}

fn panel(size: usize) -> Panel {
    let field = |key: &str, label: &str, help: &str, value: &str| Field {
        key: key.to_string(),
        label: label.to_string(),
        help: help.to_string(),
        value: value.to_string(),
    };
    Panel {
        size,
        text: "size = 6\n".to_string(),
        fields: vec![
            field("size", "Board size (3-60)", "board is size x size", "6"),
            field(
                "max_attempts",
                "Max attempts",
                "how many shapes to try before giving up",
                "200",
            ),
        ],
    }
}

#[test]
fn generates_and_starts_blank_apart_from_clues() {
    let engine = engine_with_puzzle(8, 7);
    let puzzle = engine.puzzle.as_ref().expect("puzzle");
    assert_eq!(engine.cells.len(), 64);
    for i in 0..64 {
        if puzzle.is_clue(i) {
            assert_eq!(engine.cells[i], WHITE, "clue cell {i}");
        } else {
            assert_eq!(engine.cells[i], UNKNOWN, "cell {i}");
        }
    }
}

#[test]
fn painting_a_wall_twice_clears_it() {
    let mut engine = engine_with_puzzle(8, 11);
    let free = (0..64)
        .find(|&i| !engine.puzzle.as_ref().unwrap().is_clue(i))
        .unwrap();
    let (x, y) = engine.puzzle.as_ref().unwrap().grid.xy(free);
    engine.begin_drag(x as i64, y as i64, true);
    assert_eq!(engine.cells[free], BLACK);
    assert_eq!(engine.anchor, Some(free));
    engine.begin_drag(x as i64, y as i64, true);
    assert_eq!(engine.cells[free], UNKNOWN);
    engine.undo();
    assert_eq!(engine.cells[free], BLACK);
    engine.undo();
    assert_eq!(engine.cells[free], UNKNOWN);
}

#[test]
fn one_step_agrees_with_the_solution() {
    let mut engine = engine_with_puzzle(10, 3);
    engine.one_step();
    let puzzle = engine.puzzle.as_ref().unwrap();
    for i in 0..engine.cells.len() {
        if engine.cells[i] != UNKNOWN && !puzzle.is_clue(i) {
            assert_eq!(engine.cells[i], puzzle.solution[i], "cell {i}");
        }
    }
}

#[test]
fn check_marks_wrong_cells_only() {
    let mut engine = engine_with_puzzle(8, 5);
    let puzzle = engine.puzzle.as_ref().unwrap();
    let (mut black, mut white) = (None, None);
    for i in 0..engine.cells.len() {
        if puzzle.is_clue(i) {
            continue;
        }
        if puzzle.solution[i] == BLACK && black.is_none() {
            black = Some(i);
        }
        if puzzle.solution[i] == WHITE && white.is_none() {
            white = Some(i);
        }
    }
    let black = black.unwrap();
    let white = white.unwrap();
    engine.set_cell(black, WHITE);
    engine.set_cell(white, BLACK);
    engine.check();
    assert!(engine.wrong[black]);
    assert!(engine.wrong[white]);
    assert_eq!(engine.wrong.iter().filter(|&&w| w).count(), 2);
}

#[test]
fn state_json_carries_the_board() {
    let engine = engine_with_puzzle(6, 9);
    let json = engine.state_json("", false, &panel(6));
    assert!(json.contains("\"w\":6"));
    assert!(json.contains("\"cells\":\""), "{json}");
    assert!(json.contains("\"clues\":\""), "{json}");
    assert!(json.starts_with("{\"ok\":true"));

    let with_fields = engine.state_json("", true, &panel(6));
    assert!(with_fields.contains("\"fields\":["), "{with_fields}");
    assert!(with_fields.contains("\"key\":\"max_attempts\""), "{with_fields}");
    assert!(with_fields.contains("\"help\":\""), "{with_fields}");
}

#[test]
fn a_tap_cycles_wall_empty_unmarked() {
    let mut engine = engine_with_puzzle(8, 21);
    let free = (0..64)
        .find(|&i| !engine.puzzle.as_ref().unwrap().is_clue(i))
        .unwrap();
    let (x, y) = engine.puzzle.as_ref().unwrap().grid.xy(free);

    engine.tap_cell(x as i64, y as i64);
    assert_eq!(engine.cells[free], BLACK, "first tap marks a wall");
    assert_eq!(engine.anchor, Some(free), "the new wall is spotlighted");

    engine.tap_cell(x as i64, y as i64);
    assert_eq!(engine.cells[free], WHITE, "second tap marks empty");
    assert_eq!(engine.anchor, None);

    engine.tap_cell(x as i64, y as i64);
    assert_eq!(engine.cells[free], UNKNOWN, "third tap clears the cell");

    // every tap is a normal, undoable move
    engine.undo();
    assert_eq!(engine.cells[free], WHITE);
    engine.undo();
    assert_eq!(engine.cells[free], BLACK);
    engine.undo();
    assert_eq!(engine.cells[free], UNKNOWN);
}

#[test]
fn a_tap_on_a_clue_steps_it_instead_of_marking_it() {
    let mut engine = engine_with_puzzle(10, 22);
    let clue = engine.puzzle.as_ref().unwrap().clues[0].0;
    let (x, y) = engine.puzzle.as_ref().unwrap().grid.xy(clue);
    let before = engine.cells.clone();

    engine.tap_cell(x as i64, y as i64);

    assert_eq!(engine.cells[clue], before[clue], "the clue cell itself is untouched");
    let filled = (0..engine.cells.len())
        .filter(|&i| engine.cells[i] != before[i])
        .count();
    assert!(filled > 0, "the clue step should fill something: {}", engine.status);
    assert!(engine.status.starts_with("Clue ("), "{}", engine.status);
}

#[test]
fn taps_do_nothing_while_the_solution_is_shown() {
    let mut engine = engine_with_puzzle(8, 23);
    let free = (0..64)
        .find(|&i| !engine.puzzle.as_ref().unwrap().is_clue(i))
        .unwrap();
    let (x, y) = engine.puzzle.as_ref().unwrap().grid.xy(free);
    engine.toggle_solution();
    engine.tap_cell(x as i64, y as i64);
    assert_eq!(engine.cells[free], UNKNOWN);
}

#[test]
fn unknown_commands_are_reported() {
    let mut engine = Engine::new();
    assert!(engine.command("nonsense").is_err());
    assert!(engine.command("cluestep 1").is_err());
    assert!(engine.command("paint sideways 0 0").is_err());
}

// ---- further cases ----

#[test]
fn command_errors_are_worded_exactly() {
    let mut engine = Engine::new();
    let err = |r: Result<Request, String>| r.err().unwrap();
    assert_eq!(err(engine.command("nonsense")), "unknown command 'nonsense'");
    assert_eq!(err(engine.command("cluestep 1")), "missing coordinate");
    assert_eq!(err(engine.command("tap x 1")), "bad coordinate");
    assert_eq!(err(engine.command("paint sideways 0 0")), "unknown paint phase 'sideways'");
    assert_eq!(err(engine.command("paint")), "paint needs a phase");
    assert_eq!(err(engine.command("paint begin 1 2 7")), "paint begin wants 0 or 1");
    assert_eq!(err(engine.command("set")), "set needs a key");
    assert_eq!(err(engine.command("generate abc")), "bad seed");
    assert_eq!(err(engine.command("print -3")), "bad count");
}

#[test]
fn settings_requests_go_back_to_the_caller() {
    let mut engine = Engine::new();
    match engine.command("  set   density 0.30-0.40  ").unwrap() {
        Request::Setting { key, value } => {
            assert_eq!(key, "density");
            assert_eq!(value, "0.30-0.40");
        }
        _ => panic!("expected a setting"),
    }
    match engine.command("set seed").unwrap() {
        Request::Setting { key, value } => {
            assert_eq!(key, "seed");
            assert_eq!(value, "");
        }
        _ => panic!("expected a setting"),
    }
    assert!(matches!(engine.command("defaults").unwrap(), Request::Defaults));
    assert!(matches!(engine.command("generate 17").unwrap(), Request::Generate { seed: 17 }));
    assert!(matches!(engine.command("generate").unwrap(), Request::Generate { seed: 0 }));
    assert!(matches!(engine.command("print").unwrap(), Request::Print { count: 1 }));
    assert!(matches!(engine.command("bench 500").unwrap(), Request::Bench { count: 200 }));
    assert!(matches!(engine.command("").unwrap(), Request::Done));
    assert!(matches!(engine.command("undo").unwrap(), Request::Done));
    assert_eq!(engine.status, "Nothing to undo.");
}

#[test]
fn commands_drive_the_board() {
    let mut engine = engine_with_puzzle(8, 31);
    let free = (0..64)
        .find(|&i| !engine.puzzle.as_ref().unwrap().is_clue(i))
        .unwrap();
    let (x, y) = engine.puzzle.as_ref().unwrap().grid.xy(free);
    engine.command(&format!("paint begin {x} {y} 1")).unwrap();
    assert_eq!(engine.cells[free], BLACK);
    engine.command("paint end").unwrap();
    assert!(engine.drag.is_none());
    engine.command("reset").unwrap();
    assert_eq!(engine.cells[free], UNKNOWN);
    engine.command("undo").unwrap();
    assert_eq!(engine.cells[free], BLACK);
    engine.command(&format!("tap {x} {y}")).unwrap();
    assert_eq!(engine.cells[free], WHITE);
    engine.command("solution").unwrap();
    assert!(engine.show_solution);
    assert_eq!(engine.status, "Showing the solution (S to hide)");
}

#[test]
fn a_drag_paints_the_cells_in_between() {
    let mut engine = engine_with_puzzle(8, 41);
    let puzzle = engine.puzzle.as_ref().unwrap().clone();
    engine.begin_drag(0, 0, true);
    engine.drag_to(7, 0);
    for x in 0..8 {
        let i = puzzle.grid.idx(x, 0);
        if puzzle.is_clue(i) {
            assert_eq!(engine.cells[i], WHITE);
        } else {
            assert_eq!(engine.cells[i], BLACK, "cell {x},0");
        }
    }
}

#[test]
fn a_full_correct_board_is_solved() {
    let mut engine = engine_with_puzzle(6, 13);
    let solution = engine.puzzle.as_ref().unwrap().solution.clone();
    for i in 0..solution.len() {
        if !engine.puzzle.as_ref().unwrap().is_clue(i) {
            engine.set_cell(i, solution[i]);
        }
    }
    assert!(engine.solved);
    assert_eq!(engine.status, "Solved! Press N for a new puzzle.");
    assert_eq!(engine.kind, Kind::Good);
    engine.check();
    assert_eq!(engine.status, "No mistakes so far.");
}

#[test]
fn progress_is_counted_in_the_status() {
    let mut engine = engine_with_puzzle(6, 14);
    let open = engine.cells.iter().filter(|&&c| c == UNKNOWN).count();
    let free = (0..36)
        .find(|&i| !engine.puzzle.as_ref().unwrap().is_clue(i))
        .unwrap();
    engine.set_cell(free, WHITE);
    assert_eq!(engine.status, format!("{} cells left", open - 1));
    assert_eq!(engine.kind, Kind::Info);
}

#[test]
fn the_state_of_a_fresh_engine() {
    let engine = Engine::new();
    let json = engine.state_json("oops \"x\"", false, &panel(20));
    assert_eq!(
        json,
        "{\"ok\":false,\"error\":\"oops \\\"x\\\"\",\"status\":\"Press New puzzle to generate one.\",\
         \"settingsError\":\"\",\"stats\":\"\",\"w\":20,\"h\":20,\"kind\":0,\"seed\":0,\
         \"solved\":false,\"showSolution\":false,\"generating\":true,\"canUndo\":false,\
         \"anchor\":-1,\"clueCount\":0,\"settingsText\":\"size = 6\\n\",\"cells\":\"\",\
         \"clues\":\"\",\"errorsCells\":\"\",\"errorsClues\":\"\",\"wrong\":\"\",\"solution\":\"\"}"
    );
}
