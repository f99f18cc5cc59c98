//! Condition records of springs: counting the arrangements of damaged springs
//! that agree with a record's cells and with its list of run lengths.

pub mod record;
pub mod arrangements;
pub mod semantics;
pub mod counter;
pub mod laws;
pub mod part1;
pub mod part2;
