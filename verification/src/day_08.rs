//! A network of nodes, walked by instructions to turn left or right.

pub mod part1;
