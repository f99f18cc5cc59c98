//! Hands of camel cards, ranked by their type and their cards.

pub mod cards;
pub mod part1;
pub mod part1_b;
pub mod part2;
