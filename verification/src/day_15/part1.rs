use vstd::prelude::*;
use crate::tally::{sum_u32, total_u32};
use crate::text::{chars_of, decimal, decimal_string, split, split_on, views};

verus! {

/// The hash of `s`: from zero, for each character in turn, its code is added,
/// the sum multiplied by 17, and the remainder by 256 kept.
pub open spec fn hash(s: Seq<char>) -> u32
    decreases s.len(),
{
    if s.len() == 0 {
        0
    } else {
        (((hash(s.drop_last()) + s.last() as u32) * 17) % 256) as u32
    }
}

/// The hashes of `steps`.
pub open spec fn hashes(steps: Seq<Seq<char>>) -> Seq<Option<u32>> {
    Seq::new(steps.len(), |i: int| Some(hash(steps[i])))
}

/// The answer to the puzzle `input`: the sum of the hashes of its steps, which
/// a comma separates. There is none if the sum does not fit in 32 bits.
pub open spec fn answer(input: Seq<char>) -> Option<u32> {
    total_u32(hashes(split_on(input, ',')))
}

/// The code of the character `c`.
pub fn code_of(c: char) -> (code: u32)
    ensures
        code == c as u32,
        code <= 0x10FFFF,
{
    c as u32
}

/// Computes the hash of the characters `s`.
pub fn hash_chars(s: &Vec<char>) -> (h: u32)
    ensures
        h == hash(s@),
        h < 256,
{
    let mut acc: u32 = 0;
    let mut i: usize = 0;
    assert(s@.take(0) =~= Seq::<char>::empty());
    while i < s.len()
        invariant
            i <= s.len(),
            acc == hash(s@.take(i as int)),
            acc < 256,
        decreases s.len() - i,
    {
        proof {
            assert(s@.take(i + 1).drop_last() =~= s@.take(i as int));
            assert(s@.take(i + 1).last() == s@[i as int]);
        }
        acc = ((acc + code_of(s[i])) * 17) % 256;
        i += 1;
    }
    assert(s@.take(s.len() as int) =~= s@);
    acc
}

/// The hash of `input`.
pub fn hash_string(input: &str) -> (h: u32)
    ensures
        h == hash(input@),
        h < 256,
{
    let chars = chars_of(input);
    hash_chars(&chars)
}

/// Computes the answer to the puzzle `input`, if it has one.
pub fn solve(input: &Vec<char>) -> (found: Option<u32>)
    ensures
        found == answer(input@),
{
    let all = split(input, ',');
    let mut values: Vec<Option<u32>> = Vec::new();
    let mut i: usize = 0;
    while i < all.len()
        invariant
            i <= all.len(),
            values.len() == i,
            forall|k: int| 0 <= k < i ==> (#[trigger] values[k]) == Some(hash(all[k]@)),
        decreases all.len() - i,
    {
        values.push(Some(hash_chars(&all[i])));
        i += 1;
    }
    assert(values@ =~= hashes(views(all@)));
    sum_u32(&values)
}

/// The answer to the puzzle `input`, in decimal digits.
pub fn process(input: &str) -> (out: String)
    requires
        answer(input@) is Some,
    ensures
        out@ == decimal(answer(input@)->0 as nat),
{
    let chars = chars_of(input);
    decimal_string(solve(&chars).unwrap() as u64)
}

} // verus!
