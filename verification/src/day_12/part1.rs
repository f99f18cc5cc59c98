use vstd::prelude::*;
use crate::day_12::counter::{capped, sum_arrangements, total_arrangements};
use crate::day_12::record::{parse_groups, parsed_records};
use crate::text::{chars_of, decimal, decimal_string, lines, lines_of};

verus! {

/// The answer to the puzzle `input`, one record to a line: the number of
/// arrangements of all its records together. There is none if a line has no
/// word.
pub open spec fn answer(input: Seq<char>) -> Option<u64> {
    match parsed_records(lines(input)) {
        Some(all) => Some(capped(total_arrangements(all))),
        None => None,
    }
}

/// Computes the answer to the puzzle `input`, if it has one.
pub fn solve(input: &Vec<char>) -> (found: Option<u64>)
    ensures
        found == answer(input@),
{
    let all_lines = lines_of(input);
    match parse_groups(&all_lines) {
        Some(groups) => Some(sum_arrangements(groups)),
        None => None,
    }
}

/// The answer to the puzzle `input`, in decimal digits.
pub fn process(input: &str) -> (out: String)
    requires
        answer(input@) is Some,
    ensures
        out@ == decimal(answer(input@)->0 as nat),
{
    let chars = chars_of(input);
    decimal_string(solve(&chars).unwrap())
}

} // verus!
