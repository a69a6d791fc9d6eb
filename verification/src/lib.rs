//! A verified solver core for a turn-based combat puzzle, and a handful of
//! small verified building blocks that live beside it.
//!
//! The puzzle: a line of heroes attacks a monster round by round; can a
//! bounded number of damage boosts make one chosen hero land the killing
//! blow? `problem` holds the puzzle, `simulation` replays a fight,
//! `solution` writes the puzzle as an integer program (`model`) and reads a
//! solver's verdict, and `soundness` proves that the program says what the
//! fight does.
//!
//! Beside it: linked lists (`lists`), a vault of primes (`primes`), readers
//! of numbers and lines (`readers`), prefix sums over words
//! (`ptrs_vs_arrays`), and counts of sums (`sums`).

pub mod lists;
pub mod model;
pub mod primes;
pub mod problem;
pub mod ptrs_vs_arrays;
pub mod readers;
pub mod simulation;
pub mod solution;
pub mod soundness;
pub mod sums;
