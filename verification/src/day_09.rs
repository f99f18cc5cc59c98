//! Histories of readings, continued by their differences.

pub mod part1;
