use tapa_core::clock::{Deadline, Timer};
use tapa_core::generator::{generate_with, GenConfig};
use tapa_core::model::{clue_deductions, clue_is_showable, clue_of, BLACK, UNKNOWN, WHITE};
use tapa_core::rng::Rng;
use tapa_core::rules::validate;
use tapa_core::solver::{SolveLimits, Solver};

fn check_generated(w: usize, h: usize, seed: u64, strict_minimal: bool) {
    let mut rng = Rng::new(seed);
    let mut cfg = GenConfig::for_size(w, h);
    cfg.deadline = Some(Deadline::after_ms(120_000));
    if strict_minimal {
        // a budget abort keeps a clue, so unbounded runs are needed to
        // assert strict minimality
        cfg.node_budget = u64::MAX;
        cfg.time_budget_ms = 0;
        cfg.check_min_nodes = u64::MAX;
    }
    let result = generate_with(&mut rng, &cfg).expect("generation failed");
    let puzzle = result.puzzle;

    // the stored solution obeys every rule
    assert!(validate(&puzzle.grid, &puzzle.solution, &puzzle.clues).is_empty());
    assert!(puzzle.clues.len() >= 4);

    // exactly one solution
    let solver = Solver::new(puzzle.grid.clone(), &puzzle.clues);
    let outcome = solver.solve(&solver.fresh_state(), &SolveLimits::unique_check(None));
    assert!(!outcome.aborted);
    assert_eq!(outcome.solutions.len(), 1, "puzzle is ambiguous");
    assert_eq!(outcome.solutions[0], puzzle.solution);

    // no clue of 8 is ever shown
    for (_, clue) in puzzle.clues.iter() {
        assert_ne!(clue.as_slice(), [8u8], "clue 8 must not appear");
        assert!(clue_is_showable(clue));
    }

    if !strict_minimal {
        return;
    }

    // minimality: dropping any single clue must make the puzzle ambiguous
    for k in 0..puzzle.clues.len() {
        let mut fewer = puzzle.clues.clone();
        fewer.remove(k);
        let solver = Solver::new(puzzle.grid.clone(), &fewer);
        let outcome = solver.solve(&solver.fresh_state(), &SolveLimits::unique_check(None));
        assert!(!outcome.aborted);
        assert!(
            !outcome.is_unique(),
            "clue {k} is redundant, the set is not minimal"
        );
    }
}

#[test]
fn one_step_deductions_match_the_solution() {
    let mut rng = Rng::new(2024);
    let cfg = GenConfig::for_size(20, 20);
    let result = generate_with(&mut rng, &cfg).expect("generation failed");
    let puzzle = result.puzzle;

    let mut marks = vec![UNKNOWN; puzzle.grid.len()];
    for (i, _) in puzzle.clues.iter() {
        marks[*i] = WHITE;
    }
    let deduced = clue_deductions(&puzzle.grid, &marks, &puzzle.clues);
    println!("one step from a fresh board filled {} cells", deduced.len());
    for (cell, value) in &deduced {
        assert_eq!(
            *value, puzzle.solution[*cell],
            "one step deduced a wrong value for cell {cell}"
        );
    }

    // applying them and stepping again must stay sound and stop eventually
    for (cell, value) in &deduced {
        marks[*cell] = *value;
    }
    let more = clue_deductions(&puzzle.grid, &marks, &puzzle.clues);
    for (cell, value) in &more {
        assert_eq!(*value, puzzle.solution[*cell]);
    }
    println!("second step filled {} more", more.len());
}

#[test]
fn generates_unique_small() {
    check_generated(6, 6, 1, true);
}

#[test]
fn generates_unique_medium() {
    check_generated(10, 10, 42, true);
}

#[test]
fn generates_unique_20x20() {
    check_generated(20, 20, 2024, false);
}

#[test]
fn timer_moves_forward() {
    let timer = Timer::start();
    let before = timer.elapsed_ms();
    let mut sum = 0u64;
    for i in 0..200_000u64 {
        sum = sum.wrapping_add(i);
    }
    assert!(sum > 0);
    assert!(timer.elapsed_ms() >= before);
}

// ---- further cases ----

#[test]
fn generation_stats_count_the_clues() {
    let mut rng = Rng::new(7);
    let cfg = GenConfig::for_size(8, 8);
    let result = generate_with(&mut rng, &cfg).expect("generation failed");
    assert_eq!(result.stats.clue_count, result.puzzle.clues.len());
    assert_eq!(result.puzzle.grid.w, 8);
    assert_eq!(result.puzzle.grid.h, 8);
    assert!(result.stats.attempts >= 1);
    assert!(result.stats.attempts <= cfg.max_attempts);
    let blacks = result.puzzle.solution.iter().filter(|&&c| c == BLACK).count();
    assert_eq!(result.stats.black_count, blacks);
    assert!(blacks >= 6);
    assert!(result.stats.clueless_region <= cfg.max_clueless_region);
}

#[test]
fn generated_walls_never_ring_a_cell() {
    for seed in [3u64, 5, 8] {
        let mut rng = Rng::new(seed);
        let cfg = GenConfig::for_size(10, 10);
        let result = generate_with(&mut rng, &cfg).expect("generation failed");
        let puzzle = &result.puzzle;
        for i in 0..puzzle.grid.len() {
            let ring = puzzle
                .grid
                .neighbors(i)
                .iter()
                .all(|nb| matches!(nb, Some(j) if puzzle.solution[*j] == BLACK));
            assert!(!ring, "cell {i} is ringed by walls");
        }
    }
}

#[test]
fn removed_and_kept_clues_make_up_the_maximal_set() {
    let mut rng = Rng::new(19);
    let cfg = GenConfig::for_size(8, 8);
    let result = generate_with(&mut rng, &cfg).expect("generation failed");
    let puzzle = &result.puzzle;
    let mut maximal = 0;
    for i in 0..puzzle.grid.len() {
        if puzzle.solution[i] == WHITE && clue_is_showable(&clue_of(&puzzle.solution, &puzzle.grid, i)) {
            maximal += 1;
        }
    }
    assert_eq!(result.stats.removals + result.stats.clue_count, maximal);
}

#[test]
fn unbounded_runs_never_give_up_a_proof() {
    let mut rng = Rng::new(11);
    let mut cfg = GenConfig::for_size(6, 6);
    cfg.deadline = Some(Deadline::after_ms(120_000));
    cfg.node_budget = u64::MAX;
    cfg.time_budget_ms = 0;
    cfg.check_min_nodes = u64::MAX;
    let result = generate_with(&mut rng, &cfg).expect("generation failed");
    assert!(!result.stats.gave_up);
}

#[test]
fn clock_free_runs_with_room_give_minimal_clues() {
    let mut rng = Rng::new(23);
    let mut cfg = GenConfig::for_size(5, 5);
    cfg.deadline = None;
    cfg.node_budget = u64::MAX;
    cfg.time_budget_ms = 0;
    cfg.check_min_nodes = u64::MAX;
    let result = generate_with(&mut rng, &cfg).expect("generation failed");
    assert!(!result.stats.gave_up);
    let puzzle = result.puzzle;
    for k in 0..puzzle.clues.len() {
        let mut fewer = puzzle.clues.clone();
        fewer.remove(k);
        let solver = Solver::new(puzzle.grid.clone(), &fewer);
        let outcome = solver.solve(&solver.fresh_state(), &SolveLimits::unique_check(None));
        assert!(!outcome.aborted);
        assert!(!outcome.is_unique());
    }
}

#[test]
fn a_failed_run_reports_its_attempts() {
    let mut rng = Rng::new(7);
    let mut cfg = GenConfig::for_size(8, 8);
    cfg.deadline = None;
    cfg.time_budget_ms = 0;
    cfg.node_budget = 0;
    let stats = match generate_with(&mut rng, &cfg) {
        Ok(_) => panic!("an empty pool cannot prove anything"),
        Err(stats) => stats,
    };
    assert_eq!(stats.nodes, 0);
    assert_eq!(stats.attempts, 0);
}

#[test]
fn no_attempts_means_no_puzzle() {
    let mut rng = Rng::new(7);
    let mut cfg = GenConfig::for_size(8, 8);
    cfg.max_attempts = 0;
    assert!(generate_with(&mut rng, &cfg).is_err());
}

#[test]
fn for_size_fills_in_the_defaults() {
    let cfg = GenConfig::for_size(20, 20);
    assert_eq!(cfg.max_clueless_region, 60);
    assert_eq!(cfg.max_attempts, 200);
    assert_eq!(cfg.black_lo, 400);
    assert_eq!(cfg.black_hi, 500);
    assert_eq!(cfg.node_budget, 150_000);
    assert_eq!(cfg.time_budget_ms, 2_000);
}

#[test]
fn a_passed_deadline_is_reported() {
    let d = Deadline::after_ms(0);
    assert!(d.passed());
    assert_eq!(d.remaining_ms(), 0);
    let later = Deadline::after_ms(600_000);
    assert!(!later.passed());
    assert!(later.remaining_ms() <= 600_000);
}

#[test]
fn seeded_generators_repeat_themselves() {
    let mut a = Rng::new(99);
    let mut b = Rng::new(99);
    for _ in 0..10 {
        assert_eq!(a.next_u64(), b.next_u64());
    }
    let mut r = Rng::new(5);
    for n in 1..50usize {
        assert!(r.below(n) < n);
    }
    let mut items: Vec<u32> = (0..20).collect();
    r.shuffle(&mut items);
    let mut sorted = items.clone();
    sorted.sort_unstable();
    assert_eq!(sorted, (0..20).collect::<Vec<u32>>());
}

#[test]
fn a_shuffle_follows_the_seed() {
    let mut r = Rng::new(5);
    let mut items: Vec<u32> = (0..6).collect();
    r.shuffle(&mut items);
    assert_eq!(items, vec![0, 1, 5, 3, 4, 2]);
    assert_eq!(r.state, 1_663_341_875_487_337_582);
    let mut first = Rng::new(5);
    assert_eq!(first.next_u64(), 7_134_611_160_154_358_618);
}
