use vstd::prelude::*;
use crate::day_13::mirrors::{can_turn, first_split, first_split_of, rotate, turned, Mirror};
use crate::tally::{sum_usize, total_usize};
use crate::text::{blocks, blocks_of, chars_of, decimal, decimal_string, lines, lines_of, views};

verus! {

/// The line in which `rows` mirrors itself: the first between two rows, or,
/// if there is none, the first between two columns. There is none if `rows`
/// has no row, or has no such line between two rows and cannot be turned, has
/// no column, or has no such line between two columns either.
pub open spec fn mirror_of(rows: Seq<Seq<char>>) -> Option<Mirror> {
    if rows.len() == 0 {
        None
    } else {
        match first_split(rows, 1) {
            Some(i) => Some(Mirror::Horizontal(i)),
            None => if can_turn(rows) && rows[0].len() > 0 {
                match first_split(turned(rows), 1) {
                    Some(i) => Some(Mirror::Vertical(i)),
                    None => None,
                }
            } else {
                None
            },
        }
    }
}

/// What a line of reflection adds to the answer: the columns to its left, or a
/// hundred times the rows above it, if that fits in a machine-sized number.
pub open spec fn score(m: Mirror) -> Option<usize> {
    match m {
        Mirror::Vertical(v) => Some(v),
        Mirror::Horizontal(v) => if v * 100 <= usize::MAX {
            Some((v * 100) as usize)
        } else {
            None
        },
    }
}

/// What the pattern `block` adds to the answer.
pub open spec fn block_score(block: Seq<char>) -> Option<usize> {
    match mirror_of(lines(block)) {
        Some(m) => score(m),
        None => None,
    }
}

/// What the patterns `all` add to the answer.
pub open spec fn block_scores(all: Seq<Seq<char>>) -> Seq<Option<usize>> {
    Seq::new(all.len(), |i: int| block_score(all[i]))
}

/// The answer to the puzzle `input`, whose patterns empty lines separate: the
/// sum of what its patterns add. There is none if a pattern has no line of
/// reflection or the sum does not fit in a machine-sized number.
pub open spec fn answer(input: Seq<char>) -> Option<usize> {
    total_usize(block_scores(blocks(input)))
}

/// Whether no row of `input` is shorter than the first.
pub fn check_turn(input: &Vec<Vec<char>>) -> (ok: bool)
    ensures
        ok == can_turn(views(input@)),
{
    if input.len() == 0 {
        return false;
    }
    let ghost rows = views(input@);
    assert(rows[0] == input[0]@);
    let width: usize = input[0].len();
    let mut r: usize = 0;
    while r < input.len()
        invariant
            r <= input.len(),
            rows == views(input@),
            width == rows[0].len(),
            forall|i: int| 0 <= i < r ==> (#[trigger] rows[i]).len() >= width,
        decreases input.len() - r,
    {
        assert(rows[r as int] == input[r as int]@);
        if input[r].len() < width {
            return false;
        }
        r += 1;
    }
    true
}

/// Turns `input`: the columns become the rows.
pub fn rotate_matrix(input: Vec<Vec<char>>) -> (output: Vec<Vec<char>>)
    requires
        can_turn(views(input@)),
    ensures
        views(output@) == turned(views(input@)),
{
    rotate(&input)
}

/// The first line between two rows in which `input` mirrors itself.
pub fn find_split(input: &[Vec<char>]) -> (found: Option<usize>)
    ensures
        found == first_split(views(input@), 1),
{
    first_split_of(input)
}

/// Finds the line in which `input` mirrors itself, if there is one.
pub fn try_find_mirror(input: &Vec<Vec<char>>) -> (found: Option<Mirror>)
    ensures
        found == mirror_of(views(input@)),
{
    if input.len() == 0 {
        return None;
    }
    if let Some(i) = first_split_of(input.as_slice()) {
        return Some(Mirror::Horizontal(i));
    }
    assert(views(input@)[0] == input[0]@);
    if !check_turn(input) || input[0].len() == 0 {
        return None;
    }
    let rotated = rotate(input);
    match first_split_of(rotated.as_slice()) {
        Some(i) => Some(Mirror::Vertical(i)),
        None => None,
    }
}

/// The line in which `input` mirrors itself.
pub fn find_mirror(input: Vec<Vec<char>>) -> (found: Mirror)
    requires
        mirror_of(views(input@)) is Some,
    ensures
        found == mirror_of(views(input@))->0,
{
    try_find_mirror(&input).unwrap()
}

/// Computes what a line of reflection adds to the answer.
pub fn score_of(m: Mirror) -> (found: Option<usize>)
    ensures
        found == score(m),
{
    match m {
        Mirror::Vertical(v) => Some(v),
        Mirror::Horizontal(v) => v.checked_mul(100),
    }
}

/// Computes the answer to the puzzle `input`, if it has one.
pub fn solve(input: &Vec<char>) -> (found: Option<usize>)
    ensures
        found == answer(input@),
{
    let chunks = blocks_of(input);
    let mut values: Vec<Option<usize>> = Vec::new();
    let mut i: usize = 0;
    while i < chunks.len()
        invariant
            i <= chunks.len(),
            values.len() == i,
            forall|k: int| 0 <= k < i ==> (#[trigger] values[k]) == block_score(chunks[k]@),
        decreases chunks.len() - i,
    {
        let map = lines_of(&chunks[i]);
        let value = match try_find_mirror(&map) {
            Some(m) => score_of(m),
            None => None,
        };
        values.push(value);
        i += 1;
    }
    assert(values@ =~= block_scores(views(chunks@)));
    sum_usize(&values)
}

/// The decimal digits of a machine-sized number.
pub fn usize_string(n: usize) -> (out: String)
    ensures
        out@ == decimal(n as nat),
{
    decimal_string(n as u64)
}

/// The answer to the puzzle `input`, in decimal digits.
pub fn process(input: &str) -> (out: String)
    requires
        answer(input@) is Some,
    ensures
        out@ == decimal(answer(input@)->0 as nat),
{
    let chars = chars_of(input);
    usize_string(solve(&chars).unwrap())
}

} // verus!
