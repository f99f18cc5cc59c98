//! Patterns of ash and rocks, and the lines in which they mirror themselves.

pub mod mirrors;
pub mod part1;
pub mod part2;
