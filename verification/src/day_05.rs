//! An almanac of maps that lead from seeds to locations.

pub mod part1;
