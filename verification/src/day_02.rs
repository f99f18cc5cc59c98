//! Games of coloured cubes drawn from a bag.

pub mod cubes;


pub mod part1;
pub mod part2;
