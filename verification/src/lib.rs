//! Solvers for the first sixteen days of a series of daily puzzles.
//!
//! Each day is a module with a part for each of its puzzles. A part states the
//! answer to its puzzle as a function `answer` of the characters of the input,
//! computes it by `solve`, which gives `None` where the input has no answer,
//! and writes it by `process`, which asks for an input that has one.
//!
//! The module `day_12` counts the arrangements of damaged springs that agree
//! with a condition record. It states what an arrangement is, proves that the
//! counting table holds the numbers of arrangements, and proves the laws that
//! these numbers obey.
//!
//! The modules `text` and `tally` hold what the days share: text as a sequence
//! of characters, and sums of results of which some may be missing.

pub mod text;
pub mod tally;
pub mod day_01;
pub mod day_02;
pub mod day_03;
pub mod day_04;
pub mod day_05;
pub mod day_06;
pub mod day_07;
pub mod day_08;
pub mod day_09;
pub mod day_10;
pub mod day_11;
pub mod day_12;
pub mod day_13;
pub mod day_14;
pub mod day_15;
pub mod day_16;
