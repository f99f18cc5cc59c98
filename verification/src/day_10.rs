//! A loop of pipes, and the place on it farthest from the start.

pub mod part1;
