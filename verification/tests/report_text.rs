use std::time::Duration;
use tapa_core::clock::{capped, micros, ms_from_micros, rounded_ms};
use tapa_core::engine::{Engine, Kind};
use tapa_core::generator::GenConfig;
use tapa_core::report::{bench, print_puzzles};

#[test]
fn prints_a_puzzle_with_a_check_line() {
    let cfg = GenConfig::for_size(8, 8);
    let text = print_puzzles(1, &cfg, 1);
    assert!(text.contains("check: rules=ok solutions=1"), "{text}");
    assert!(text.contains("solution:"), "{text}");
}

#[test]
fn bench_reports_every_seed() {
    let cfg = GenConfig::for_size(8, 8);
    let text = bench(2, &cfg, 100);
    assert_eq!(text.matches("seed ").count(), 2, "{text}");
    assert!(text.contains("clues "), "{text}");
}

// ---- further cases ----

#[test]
fn the_print_header_names_board_and_seed() {
    let cfg = GenConfig::for_size(6, 6);
    let text = print_puzzles(2, &cfg, u64::MAX);
    // the second seed wraps around
    assert!(text.starts_with("Tapa 6x6  seed=18446744073709551615  clues="), "{text}");
    assert!(text.contains("Tapa 6x6  seed=0  clues="), "{text}");
    assert_eq!(text.matches("check: rules=ok").count(), 2, "{text}");
}

#[test]
fn failed_runs_are_reported() {
    let mut cfg = GenConfig::for_size(6, 6);
    cfg.max_attempts = 0;
    assert_eq!(print_puzzles(1, &cfg, 5), "seed 5: generation failed\n\n");
    let text = bench(2, &cfg, 5);
    assert!(text.starts_with("seed 5: FAILED\nseed 6: FAILED\n"), "{text}");
    assert!(text.ends_with("\n6x6: 2 puzzle(s), 2 failed, avg 0 ms, slowest 0 ms, clues 0..0\n"), "{text}");
}

#[test]
fn the_engine_shows_reports_in_its_output() {
    let mut engine = Engine::new();
    let cfg = GenConfig::for_size(6, 6);
    engine.print_puzzles(1, &cfg);
    assert_eq!(engine.status, "Printed 1 puzzle(s) below");
    assert_eq!(engine.kind, Kind::Good);
    assert!(engine.output.starts_with("Tapa 6x6  seed=1  clues="), "{}", engine.output);
    engine.bench(1, &cfg);
    assert!(engine.status.starts_with("Bench: 1 puzzle(s) in "), "{}", engine.status);
    assert!(engine.output.contains("6x6: 1 puzzle(s)"), "{}", engine.output);
}

#[test]
fn microseconds_round_to_the_nearest_millisecond() {
    assert_eq!(ms_from_micros(0), 0);
    assert_eq!(ms_from_micros(1499), 1);
    assert_eq!(ms_from_micros(1500), 2);
    assert_eq!(capped(7), 7);
    assert_eq!(capped(u128::MAX), u64::MAX);
    assert_eq!(micros(&Duration::from_millis(3)), 3000);
    assert_eq!(rounded_ms(&Duration::from_micros(2500)), 3);
}
