use vstd::prelude::*;
use crate::text::{same_chars, views};

verus! {

/// A line of reflection: between two columns, with the number of columns to
/// its left, or between two rows, with the number of rows above it.
#[derive(Debug, PartialEq, Eq, Clone, Copy, Structural)]
pub enum Mirror {
    Vertical(usize),
    Horizontal(usize),
}

/// Whether `rows` mirrors itself in the line below its first `r` rows: each
/// row above the line is the same as the row as far below it, as far as both
/// are there.
pub open spec fn mirrors_at(rows: Seq<Seq<char>>, r: int) -> bool {
    1 <= r < rows.len() && forall|k: int|
        0 <= k < r && r + k < rows.len() ==> #[trigger] rows[r - 1 - k] == rows[r + k]
}

/// The least line from `r` on in which `rows` mirrors itself.
pub open spec fn first_split(rows: Seq<Seq<char>>, r: int) -> Option<usize>
    decreases rows.len() - r,
{
    if r < 1 || r >= rows.len() {
        None
    } else if mirrors_at(rows, r) {
        Some(r as usize)
    } else {
        first_split(rows, r + 1)
    }
}

/// The lines below `r` in which `rows` mirrors itself, from the top.
pub open spec fn splits(rows: Seq<Seq<char>>, r: int) -> Seq<usize>
    decreases r,
{
    if r <= 1 {
        Seq::empty()
    } else if mirrors_at(rows, r - 1) {
        splits(rows, r - 1).push((r - 1) as usize)
    } else {
        splits(rows, r - 1)
    }
}

/// Whether `rows` can be turned: it has a row, and no row is shorter than the
/// first.
pub open spec fn can_turn(rows: Seq<Seq<char>>) -> bool {
    rows.len() > 0 && forall|r: int| 0 <= r < rows.len() ==> (#[trigger] rows[r]).len()
        >= rows[0].len()
}

/// `rows` turned: for each column of the first row, the characters of all rows
/// in that column, from the top.
pub open spec fn turned(rows: Seq<Seq<char>>) -> Seq<Seq<char>> {
    Seq::new(rows[0].len(), |c: int| Seq::new(rows.len(), |r: int| rows[r][c]))
}

/// Turns `input`: the columns become the rows.
pub fn rotate(input: &Vec<Vec<char>>) -> (output: Vec<Vec<char>>)
    requires
        can_turn(views(input@)),
    ensures
        views(output@) == turned(views(input@)),
{
    let width: usize = input[0].len();
    let ghost rows = views(input@);
    assert(rows[0] == input[0]@);
    let mut output: Vec<Vec<char>> = Vec::new();
    let mut c: usize = 0;
    while c < width
        invariant
            c <= width,
            width == input[0]@.len(),
            rows == views(input@),
            can_turn(rows),
            output.len() == c,
            forall|i: int| 0 <= i < c ==> (#[trigger] output[i])@ == turned(rows)[i],
        decreases width - c,
    {
        let mut column: Vec<char> = Vec::new();
        let mut r: usize = 0;
        while r < input.len()
            invariant
                r <= input.len(),
                c < width,
                width == input[0]@.len(),
                rows == views(input@),
                can_turn(rows),
                column.len() == r,
                forall|i: int| 0 <= i < r ==> (#[trigger] column[i]) == rows[i][c as int],
            decreases input.len() - r,
        {
            assert(rows[r as int] == input[r as int]@);
            column.push(input[r][c]);
            r += 1;
        }
        assert(column@ =~= turned(rows)[c as int]);
        output.push(column);
        c += 1;
    }
    assert(views(output@) =~= turned(rows));
    output
}

/// Whether `input` mirrors itself in the line below its first `r` rows.
pub fn is_mirror(input: &[Vec<char>], r: usize) -> (found: bool)
    requires
        1 <= r < input.len(),
    ensures
        found == mirrors_at(views(input@), r as int),
{
    let ghost rows = views(input@);
    let mut k: usize = 0;
    while k < r && k < input.len() - r
        invariant
            1 <= r < input.len(),
            k <= r,
            rows == views(input@),
            forall|j: int|
                0 <= j < k && r + j < rows.len() ==> #[trigger] rows[r - 1 - j] == rows[r + j],
        decreases r - k,
    {
        assert(rows[r - 1 - k] == input[r - 1 - k]@);
        assert(rows[r + k] == input[r + k]@);
        if !same_chars(&input[r - 1 - k], &input[r + k]) {
            return false;
        }
        k += 1;
    }
    true
}

/// Finds the first line in which `input` mirrors itself.
pub fn first_split_of(input: &[Vec<char>]) -> (found: Option<usize>)
    ensures
        found == first_split(views(input@), 1),
{
    let mut r: usize = 1;
    while r < input.len()
        invariant
            1 <= r,
            first_split(views(input@), 1) == first_split(views(input@), r as int),
        decreases input.len() - r,
    {
        if is_mirror(input, r) {
            return Some(r);
        }
        r += 1;
    }
    None
}

/// Finds all lines in which `input` mirrors itself, from the top.
pub fn all_splits_of(input: &[Vec<char>]) -> (found: Vec<usize>)
    ensures
        found@ == splits(views(input@), input@.len() as int),
{
    let mut found: Vec<usize> = Vec::new();
    let mut r: usize = 1;
    if input.len() == 0 {
        return found;
    }
    while r < input.len()
        invariant
            1 <= r <= input.len(),
            found@ == splits(views(input@), r as int),
        decreases input.len() - r,
    {
        if is_mirror(input, r) {
            found.push(r);
        }
        r += 1;
    }
    found
}

} // verus!
