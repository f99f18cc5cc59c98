//! A platform of round and square rocks that tilts.

pub mod part1;
pub mod part2;
