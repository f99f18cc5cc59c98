//! Boat races: the ways to beat the record distance.

pub mod part1;

pub mod part2;
