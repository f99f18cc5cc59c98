use vstd::prelude::*;
use vstd::arithmetic::power2::{lemma2_to64, lemma_pow2_strictly_increases, lemma_pow2_unfold, pow2};
use crate::day_04::part2::{count_matches, matches_of};
use crate::tally::{sum_u32, total_u32};
use crate::text::{chars_of, decimal, decimal_string, split, split_on, views};

verus! {

/// The points of a card with `count` matches, the count taken as a number of
/// 32 bits: none without a match, one for the first match, and twice as many
/// for each further one. There are none if the points do not fit in 32 bits.
pub open spec fn points(count: nat) -> Option<u32> {
    let c = count % 0x1_0000_0000;
    if c == 0 {
        Some(0)
    } else if c <= 32 {
        Some(pow2((c - 1) as nat) as u32)
    } else {
        None
    }
}

/// The points of the card on `line`, if it can be read.
pub open spec fn line_points(line: Seq<char>) -> Option<u32> {
    match matches_of(line) {
        Some(count) => points(count),
        None => None,
    }
}

/// The points of the cards on `lines`.
pub open spec fn all_points(lines: Seq<Seq<char>>) -> Seq<Option<u32>> {
    Seq::new(lines.len(), |i: int| line_points(lines[i]))
}

/// The answer to the puzzle `input`: the sum of the points of its cards, one
/// card to a line, which a line feed separates. There is none if a card cannot
/// be read or its points or the sum do not fit in 32 bits.
pub open spec fn answer(input: Seq<char>) -> Option<u32> {
    total_u32(all_points(split_on(input, '\n')))
}

/// Computes the points of a card with `count` matches.
pub fn points_of(count: usize) -> (found: Option<u32>)
    ensures
        found == points(count as nat),
{
    let c: u32 = (count as u64 % 0x1_0000_0000u64) as u32;
    if c == 0 {
        return Some(0);
    }
    if c > 32 {
        return None;
    }
    let mut value: u32 = 1;
    let mut k: u32 = 1;
    proof {
        lemma2_to64();
    }
    while k < c
        invariant
            1 <= k <= c <= 32,
            value == pow2((k - 1) as nat),
        decreases c - k,
    {
        proof {
            lemma_pow2_unfold(k as nat);
            lemma2_to64();
            if k < 32 {
                lemma_pow2_strictly_increases(k as nat, 32);
            }
        }
        value = value * 2;
        k += 1;
    }
    Some(value)
}

/// Computes the points of the card on `line`, if it can be read.
pub fn points_of_line(line: &Vec<char>) -> (found: Option<u32>)
    ensures
        found == line_points(line@),
{
    match count_matches(line) {
        Some(count) => points_of(count),
        None => None,
    }
}

/// Computes the answer to the puzzle `input`, if it has one.
pub fn solve(input: &Vec<char>) -> (found: Option<u32>)
    ensures
        found == answer(input@),
{
    let all = split(input, '\n');
    let mut values: Vec<Option<u32>> = Vec::new();
    let mut i: usize = 0;
    while i < all.len()
        invariant
            i <= all.len(),
            values.len() == i,
            forall|k: int| 0 <= k < i ==> (#[trigger] values[k]) == line_points(all[k]@),
        decreases all.len() - i,
    {
        values.push(points_of_line(&all[i]));
        i += 1;
    }
    assert(values@ =~= all_points(views(all@)));
    sum_u32(&values)
}

/// The answer to the puzzle `input`, in decimal digits.
pub fn process(_input: &str) -> (out: String)
    requires
        answer(_input@) is Some,
    ensures
        out@ == decimal(answer(_input@)->0 as nat),
{
    let chars = chars_of(_input);
    decimal_string(solve(&chars).unwrap() as u64)
}

} // verus!
