//! Galaxies in an expanding universe, and the distances between them.

pub mod pairs;
pub mod part1;
pub mod part2;
