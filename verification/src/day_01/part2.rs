use vstd::prelude::*;
use crate::day_01::part1::digits_in;
use crate::tally::{sum_u32, total_u32};
use crate::text::{
    chars_of, contains, contains_word, copy_range, decimal, decimal_string, digit_of, split,
    split_on, views,
};

verus! {

/// The English names of the ten digits, at the place of their value.
pub open spec fn digit_names() -> Seq<Seq<char>> {
    seq![
        "zero"@,
        "one"@,
        "two"@,
        "three"@,
        "four"@,
        "five"@,
        "six"@,
        "seven"@,
        "eight"@,
        "nine"@,
    ]
}

/// The least value from `from` on whose name stands in `s`, if there is one.
pub open spec fn named_digit(s: Seq<char>, from: int) -> Option<u32>
    decreases 10 - from,
{
    if from < 0 || from >= 10 {
        None
    } else if contains_word(s, digit_names()[from]) {
        Some(from as u32)
    } else {
        named_digit(s, from + 1)
    }
}

/// The number found in `s`: the value of its first digit, or, if it holds no
/// digit, the least value whose name stands in it.
pub open spec fn found_number(s: Seq<char>) -> Option<u32> {
    let found = digits_in(s);
    if found.len() > 0 {
        Some(found.first() as u32)
    } else {
        named_digit(s, 0)
    }
}

/// The number found in the shortest start of `line` of at least `len`
/// characters that holds one, and zero if none does.
pub open spec fn first_number(line: Seq<char>, len: int) -> u32
    decreases line.len() + 1 - len,
{
    if len < 0 || len > line.len() {
        0
    } else {
        match found_number(line.take(len)) {
            Some(v) => v,
            None => first_number(line, len + 1),
        }
    }
}

/// The number found in the shortest end of `line` of at least `len`
/// characters that holds one, and zero if none does.
pub open spec fn last_number(line: Seq<char>, len: int) -> u32
    decreases line.len() + 1 - len,
{
    if len < 0 || len > line.len() {
        0
    } else {
        match found_number(line.skip(line.len() - len)) {
            Some(v) => v,
            None => last_number(line, len + 1),
        }
    }
}

/// The calibration value of `line`: the first number found from its start as
/// tens, and the first number found from its end as units.
pub open spec fn line_value(line: Seq<char>) -> int {
    first_number(line, 1) * 10 + last_number(line, 1)
}

/// The calibration values of `lines`, each if it fits in 32 bits.
pub open spec fn line_values(lines: Seq<Seq<char>>) -> Seq<Option<u32>> {
    Seq::new(lines.len(), |i: int| Some(line_value(lines[i]) as u32))
}

/// The answer to the puzzle `input`: the sum of the calibration values of its
/// lines, which a line feed separates. There is none if the sum does not fit
/// in 32 bits.
pub open spec fn answer(input: Seq<char>) -> Option<u32> {
    total_u32(line_values(split_on(input, '\n')))
}

/// A number found by its digit or by its name is less than ten.
pub proof fn lemma_found_number_small(s: Seq<char>)
    ensures
        found_number(s) is Some ==> found_number(s)->0 < 10,
{
    lemma_first_digit_small(s);
    lemma_named_digit_small(s, 0);
}

/// The first digit found in a text is less than ten.
proof fn lemma_first_digit_small(s: Seq<char>)
    ensures
        digits_in(s).len() > 0 ==> digits_in(s).first() < 10,
    decreases s.len(),
{
    if s.len() > 0 {
        lemma_first_digit_small(s.drop_last());
    }
}

/// A value found by its name is less than ten.
proof fn lemma_named_digit_small(s: Seq<char>, from: int)
    ensures
        named_digit(s, from) is Some ==> named_digit(s, from)->0 < 10,
    decreases 10 - from,
{
    if 0 <= from < 10 && !contains_word(s, digit_names()[from]) {
        lemma_named_digit_small(s, from + 1);
    }
}

/// The numbers found from the start and from the end of a line are less than
/// ten.
pub proof fn lemma_numbers_small(line: Seq<char>, len: int)
    ensures
        first_number(line, len) < 10,
        last_number(line, len) < 10,
    decreases line.len() + 1 - len,
{
    if 0 <= len <= line.len() {
        lemma_found_number_small(line.take(len));
        lemma_found_number_small(line.skip(line.len() - len));
        lemma_numbers_small(line, len + 1);
    }
}

/// The names of the ten digits.
fn names() -> (all: Vec<Vec<char>>)
    ensures
        all.len() == 10,
        views(all@) == digit_names(),
{
    let mut all: Vec<Vec<char>> = Vec::new();
    all.push(chars_of("zero"));
    all.push(chars_of("one"));
    all.push(chars_of("two"));
    all.push(chars_of("three"));
    all.push(chars_of("four"));
    all.push(chars_of("five"));
    all.push(chars_of("six"));
    all.push(chars_of("seven"));
    all.push(chars_of("eight"));
    all.push(chars_of("nine"));
    assert(views(all@) =~= digit_names());
    all
}

/// Finds a number in `substring`: the value of its first digit, or, if it
/// holds no digit, the least value whose name stands in it.
pub fn find_number(substring: &Vec<char>) -> (found: Option<u32>)
    ensures
        found == found_number(substring@),
{
    let mut first: Option<u32> = None;
    let mut i: usize = 0;
    assert(substring@.take(0) =~= Seq::<char>::empty());
    while i < substring.len()
        invariant
            i <= substring.len(),
            first is Some <==> digits_in(substring@.take(i as int)).len() > 0,
            first is Some ==> first->0 == digits_in(substring@.take(i as int)).first(),
            first is Some ==> first->0 < 10,
        decreases substring.len() - i,
    {
        proof {
            assert(substring@.take(i + 1).drop_last() =~= substring@.take(i as int));
            assert(substring@.take(i + 1).last() == substring@[i as int]);
        }
        match digit_of(substring[i]) {
            Some(d) => {
                if first.is_none() {
                    first = Some(d as u32);
                }
            },
            None => {},
        }
        i += 1;
    }
    assert(substring@.take(substring.len() as int) =~= substring@);
    if first.is_some() {
        return first;
    }
    let all = names();
    let mut k: usize = 0;
    while k < 10
        invariant
            k <= 10,
            all.len() == 10,
            views(all@) == digit_names(),
            digits_in(substring@).len() == 0,
            named_digit(substring@, 0) == named_digit(substring@, k as int),
        decreases 10 - k,
    {
        assert(all[k as int]@ == digit_names()[k as int]);
        if contains(substring, &all[k]) {
            return Some(k as u32);
        }
        k += 1;
    }
    None
}

/// Finds the number in the shortest start of `line` that holds one; zero if
/// none does.
fn first_of(line: &Vec<char>) -> (first: u32)
    ensures
        first == first_number(line@, 1),
{
    let n: usize = line.len();
    let mut len: usize = 1;
    while len <= n
        invariant
            1 <= len <= n + 1,
            n == line.len(),
            first_number(line@, 1) == first_number(line@, len as int),
        decreases n + 1 - len,
    {
        let substring = copy_range(line, 0, len);
        assert(substring@ =~= line@.take(len as int));
        match find_number(&substring) {
            Some(v) => {
                return v;
            },
            None => {},
        }
        if len == n {
            assert(first_number(line@, n + 1) == 0);
            return 0;
        }
        len += 1;
    }
    0
}

/// Finds the number in the shortest end of `line` that holds one; zero if none
/// does.
fn last_of(line: &Vec<char>) -> (last: u32)
    ensures
        last == last_number(line@, 1),
{
    let n: usize = line.len();
    let mut len: usize = 1;
    while len <= n
        invariant
            1 <= len <= n + 1,
            n == line.len(),
            last_number(line@, 1) == last_number(line@, len as int),
        decreases n + 1 - len,
    {
        let substring = copy_range(line, n - len, n);
        assert(substring@ =~= line@.skip(n - len));
        match find_number(&substring) {
            Some(v) => {
                return v;
            },
            None => {},
        }
        if len == n {
            assert(last_number(line@, n + 1) == 0);
            return 0;
        }
        len += 1;
    }
    0
}

/// Computes the calibration value of `line`.
pub fn value_of(line: &Vec<char>) -> (value: u32)
    ensures
        value == line_value(line@),
{
    let first = first_of(line);
    let last = last_of(line);
    proof {
        lemma_numbers_small(line@, 1);
    }
    first * 10 + last
}

/// The calibration value of `line`.
pub fn process_line(line: &str) -> (value: u32)
    ensures
        value == line_value(line@),
{
    let chars = chars_of(line);
    value_of(&chars)
}

/// Computes the answer to the puzzle `input`, if it has one.
pub fn solve(input: &Vec<char>) -> (found: Option<u32>)
    ensures
        found == answer(input@),
{
    let all = split(input, '\n');
    let mut values: Vec<Option<u32>> = Vec::new();
    let mut i: usize = 0;
    while i < all.len()
        invariant
            i <= all.len(),
            values.len() == i,
            forall|k: int|
                0 <= k < i ==> (#[trigger] values[k]) == Some(line_value(all[k]@) as u32),
        decreases all.len() - i,
    {
        values.push(Some(value_of(&all[i])));
        i += 1;
    }
    assert(values@ =~= line_values(views(all@)));
    sum_u32(&values)
}

/// The answer to the puzzle `input`, in decimal digits.
pub fn process(_input: &str) -> (out: String)
    requires
        answer(_input@) is Some,
    ensures
        out@ == decimal(answer(_input@)->0 as nat),
{
    let chars = chars_of(_input);
    decimal_string(solve(&chars).unwrap() as u64)
}

} // verus!
