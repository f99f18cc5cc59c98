//! A beam of light that mirrors and splitters send through a grid.

pub mod part1;
pub mod part2;
