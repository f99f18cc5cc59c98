use vstd::prelude::*;
use crate::tally::{sum_u32, total_u32};
use crate::text::{
    chars_of, decimal, decimal_string, digit_of, digit_value, is_digit, split, split_on, views,
};

verus! {

/// The values of the decimal digits among the characters of `line`, in order.
pub open spec fn digits_in(line: Seq<char>) -> Seq<nat>
    decreases line.len(),
{
    if line.len() == 0 {
        Seq::empty()
    } else {
        let prev = digits_in(line.drop_last());
        if is_digit(line.last()) {
            prev.push(digit_value(line.last()))
        } else {
            prev
        }
    }
}

/// The calibration value of `line`: its first digit as tens and its last digit
/// as units. A line without a digit has none.
pub open spec fn calibration(line: Seq<char>) -> Option<u32> {
    let found = digits_in(line);
    if found.len() > 0 {
        Some((found.first() * 10 + found.last()) as u32)
    } else {
        None
    }
}

/// The calibration values of `lines`.
pub open spec fn calibrations(lines: Seq<Seq<char>>) -> Seq<Option<u32>> {
    Seq::new(lines.len(), |i: int| calibration(lines[i]))
}

/// The answer to the puzzle `input`: the sum of the calibration values of its
/// lines, which a line feed separates. There is none if a line has no digit or
/// the sum does not fit in 32 bits.
pub open spec fn answer(input: Seq<char>) -> Option<u32> {
    total_u32(calibrations(split_on(input, '\n')))
}

/// Computes the calibration value of `line`, if it has one.
pub fn calibration_of(line: &Vec<char>) -> (found: Option<u32>)
    ensures
        found == calibration(line@),
{
    let mut first: Option<u32> = None;
    let mut last: u32 = 0;
    let mut i: usize = 0;
    assert(line@.take(0) =~= Seq::<char>::empty());
    while i < line.len()
        invariant
            i <= line.len(),
            first is Some <==> digits_in(line@.take(i as int)).len() > 0,
            first is Some ==> first->0 == digits_in(line@.take(i as int)).first() && last
                == digits_in(line@.take(i as int)).last(),
            first is Some ==> first->0 < 10 && last < 10,
        decreases line.len() - i,
    {
        proof {
            assert(line@.take(i + 1).drop_last() =~= line@.take(i as int));
            assert(line@.take(i + 1).last() == line@[i as int]);
        }
        match digit_of(line[i]) {
            Some(d) => {
                if first.is_none() {
                    first = Some(d as u32);
                }
                last = d as u32;
            },
            None => {},
        }
        i += 1;
    }
    assert(line@.take(line.len() as int) =~= line@);
    match first {
        Some(f) => Some(f * 10 + last),
        None => None,
    }
}

/// Computes the answer to the puzzle `input`, if it has one.
pub fn solve(input: &Vec<char>) -> (found: Option<u32>)
    ensures
        found == answer(input@),
{
    let all = split(input, '\n');
    let mut values: Vec<Option<u32>> = Vec::new();
    let mut i: usize = 0;
    while i < all.len()
        invariant
            i <= all.len(),
            values.len() == i,
            forall|k: int| 0 <= k < i ==> (#[trigger] values[k]) == calibration(all[k]@),
        decreases all.len() - i,
    {
        values.push(calibration_of(&all[i]));
        i += 1;
    }
    assert(values@ =~= calibrations(views(all@)));
    sum_u32(&values)
}

/// The answer to the puzzle `input`, in decimal digits.
pub fn process(_input: &str) -> (out: String)
    requires
        answer(_input@) is Some,
    ensures
        out@ == decimal(answer(_input@)->0 as nat),
{
    let chars = chars_of(_input);
    decimal_string(solve(&chars).unwrap() as u64)
}

} // verus!
