//! The Tapa engine: the board, the clues and the rules, a propagating
//! solver, a generator of puzzles with a provably unique solution, and plain
//! text rendering.
//!
//! * [`grid`] - board geometry and neighbour tables
//! * [`model`] - clue encoding, masks, one-clue deductions and puzzles
//! * [`rules`] - the rule check, wall groups, regions and live feedback
//! * [`solver`], [`propagation`], [`search`] - arc consistency plus search,
//!   counting solutions up to a limit
//! * [`generator`] - tree-shaped puzzles whose clues prove a unique solution
//! * [`engine`] - the playing engine behind a small text command language
//! * [`report`] - the printed and timed reports of generated puzzles
//! * [`layout`] - window layout arithmetic of the game
//! * [`rng`] - a small deterministic generator, so seeds reproduce puzzles
//! * [`text`], [`command`] - plain text boards, command words and JSON text
//! * [`clock`], [`config`] - time budgets and settings errors

pub mod clock;
pub mod command;
pub mod config;
pub mod engine;
pub mod generator;
pub mod grid;
pub mod layout;
pub mod maskset;
pub mod model;
pub mod propagation;
pub mod report;
pub mod region;
pub mod rng;
pub mod rules;
pub mod search;
pub mod solver;
pub mod text;
