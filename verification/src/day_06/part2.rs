use vstd::prelude::*;
use crate::day_06::part1::{lemma_ways_among_start, ways, ways_among};
use crate::text::{
    chars_of, decimal, decimal_string, is_blank, is_space, lines, lines_of, parse_u64,
    parse_unsigned, views,
};

verus! {

/// The characters of `s` that are no blanks, in order.
pub open spec fn squeezed(s: Seq<char>) -> Seq<char>
    decreases s.len(),
{
    if s.len() == 0 {
        Seq::empty()
    } else if is_space(s.last()) {
        squeezed(s.drop_last())
    } else {
        squeezed(s.drop_last()).push(s.last())
    }
}

/// `s` from its character `n` on; nothing if it has no more than `n`.
pub open spec fn from(s: Seq<char>, n: int) -> Seq<char> {
    if n <= s.len() {
        s.skip(n)
    } else {
        Seq::empty()
    }
}

/// The number of 64 bits that the digits of `line` from its character `n` on
/// denote, with the blanks among them left out.
pub open spec fn joined_number(line: Seq<char>, n: int) -> Option<u64> {
    match parse_unsigned(squeezed(from(line, n)), u64::MAX as nat) {
        Some(v) => Some(v as u64),
        None => None,
    }
}

/// The one race that `input` describes: its time is the number after the
/// first six characters of the first line, its record distance the number
/// after the first ten characters of the last line.
pub open spec fn race(input: Seq<char>) -> Option<(u64, u64)> {
    let all = lines(input);
    if all.len() == 0 {
        None
    } else {
        match (joined_number(all.first(), 6), joined_number(all.last(), 10)) {
            (Some(time), Some(record)) => Some((time, record)),
            _ => None,
        }
    }
}

/// The answer to the puzzle `input`: the number of ways to win its race.
pub open spec fn answer(input: Seq<char>) -> Option<u64> {
    match race(input) {
        Some((time, record)) => match ways(time as nat, record as nat, u64::MAX as nat) {
            Some(v) => Some(v as u64),
            None => None,
        },
        None => None,
    }
}

/// Reads the number in `line` from its character `n` on.
pub fn read_joined(line: &Vec<char>, n: usize) -> (found: Option<u64>)
    ensures
        found == joined_number(line@, n as int),
{
    let mut digits: Vec<char> = Vec::new();
    if n <= line.len() {
        let ghost tail = line@.skip(n as int);
        let mut i: usize = n;
        assert(tail.take(0) =~= Seq::<char>::empty());
        while i < line.len()
            invariant
                n <= i <= line.len(),
                tail == line@.skip(n as int),
                digits@ == squeezed(tail.take(i - n)),
            decreases line.len() - i,
        {
            proof {
                assert(tail.take(i + 1 - n).drop_last() =~= tail.take(i - n));
                assert(tail.take(i + 1 - n).last() == line@[i as int]);
            }
            if !is_blank(line[i]) {
                digits.push(line[i]);
            }
            i += 1;
        }
        assert(tail.take(line.len() - n) =~= tail);
    }
    parse_u64(&digits)
}

/// Reads the race that the lines `all` describe.
pub fn read_race(all: &Vec<Vec<char>>) -> (found: Option<(u64, u64)>)
    requires
        all.len() > 0,
    ensures
        found == (match (joined_number(all[0]@, 6), joined_number(all[all.len() - 1]@, 10)) {
            (Some(time), Some(record)) => Some((time, record)),
            _ => None,
        }),
{
    match (read_joined(&all[0], 6), read_joined(&all[all.len() - 1], 10)) {
        (Some(time), Some(record)) => Some((time, record)),
        _ => None,
    }
}

/// The race that `input` describes.
pub fn generate_race(input: &str) -> (found: (u64, u64))
    requires
        race(input@) is Some,
    ensures
        found == race(input@)->0,
{
    let chars = chars_of(input);
    let all = lines_of(&chars);
    assert(views(all@).first() == all[0]@);
    assert(views(all@).last() == all[all.len() - 1]@);
    read_race(&all).unwrap()
}

/// Counts the ways to go further than `record` in a race of `time`, with
/// distances of 64 bits.
pub fn count_ways(time: u64, record: u64) -> (found: Option<u64>)
    ensures
        found is Some <==> ways(time as nat, record as nat, u64::MAX as nat) is Some,
        found is Some ==> found->0 == ways(time as nat, record as nat, u64::MAX as nat)->0,
{
    if time == 0 {
        return Some(0);
    }
    let mut count: u64 = 0;
    let mut i: u64 = 1;
    while i < time
        invariant
            1 <= i <= time,
            ways_among(time as nat, record as nat, u64::MAX as nat, (i - 1) as nat) == Some(
                count as nat,
            ),
            count <= i - 1,
        decreases time - i,
    {
        match i.checked_mul(time - i) {
            Some(far) => {
                if far > record {
                    count += 1;
                }
            },
            None => {
                proof {
                    if ways(time as nat, record as nat, u64::MAX as nat) is Some {
                        lemma_ways_among_start(
                            time as nat,
                            record as nat,
                            u64::MAX as nat,
                            i as nat,
                            (time - 1) as nat,
                        );
                    }
                }
                return None;
            },
        }
        i += 1;
    }
    Some(count)
}

/// Computes the answer to the puzzle `input`, if it has one.
pub fn solve(input: &Vec<char>) -> (found: Option<u64>)
    ensures
        found == answer(input@),
{
    let all = lines_of(input);
    if all.len() == 0 {
        return None;
    }
    assert(views(all@).first() == all[0]@);
    assert(views(all@).last() == all[all.len() - 1]@);
    match read_race(&all) {
        Some((time, record)) => count_ways(time, record),
        None => None,
    }
}

/// The answer to the puzzle `input`, in decimal digits.
pub fn process(input: &str) -> (out: String)
    requires
        answer(input@) is Some,
    ensures
        out@ == decimal(answer(input@)->0 as nat),
{
    let chars = chars_of(input);
    decimal_string(solve(&chars).unwrap())
}

} // verus!
