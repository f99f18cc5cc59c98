//! An engine schematic: numbers and the symbols next to them.

pub mod schematic;
pub mod part1;
pub mod part2;
