//! Calibration values: the first and the last digit of each line.

pub mod part1;

pub mod part2;
