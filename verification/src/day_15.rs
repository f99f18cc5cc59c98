//! The holiday hash and the boxes of lenses that it sorts.

pub mod part1;

pub mod part2;
