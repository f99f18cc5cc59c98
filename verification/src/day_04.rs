//! Scratch cards: winning numbers and the numbers one has.


pub mod part1;
pub mod part2;
