use vstd::prelude::*;
use crate::day_13::mirrors::{all_splits_of, can_turn, rotate, splits, turned, Mirror};
use crate::day_13::part1::{check_turn, score, score_of, usize_string};
use crate::tally::{sum_usize, total_usize};
use crate::text::{blocks, blocks_of, chars_of, decimal, lines, lines_of, views};

verus! {

/// Whether the lines of reflection of `rows` can be looked for: it can be
/// turned and has a column.
pub open spec fn valid_grid(rows: Seq<Seq<char>>) -> bool {
    can_turn(rows) && rows[0].len() > 0
}

/// The lines between two rows at `found`, in order.
pub open spec fn horizontals(found: Seq<usize>) -> Seq<Mirror> {
    Seq::new(found.len(), |i: int| Mirror::Horizontal(found[i]))
}

/// The lines between two columns at `found`, in order.
pub open spec fn verticals(found: Seq<usize>) -> Seq<Mirror> {
    Seq::new(found.len(), |i: int| Mirror::Vertical(found[i]))
}

/// All lines in which `rows` mirrors itself: those between two rows from the
/// top, then those between two columns from the left.
pub open spec fn all_mirrors(rows: Seq<Seq<char>>) -> Seq<Mirror> {
    horizontals(splits(rows, rows.len() as int)) + verticals(
        splits(turned(rows), turned(rows).len() as int),
    )
}

/// The character that a smudge turns `c` into: ash into rock and rock into
/// ash. No other character can be smudged.
pub open spec fn flipped(c: char) -> Option<char> {
    if c == '.' {
        Some('#')
    } else if c == '#' {
        Some('.')
    } else {
        None
    }
}

/// `rows` with the character in row `i` and column `j` replaced by `c`.
pub open spec fn with_cell(rows: Seq<Seq<char>>, i: int, j: int, c: char) -> Seq<Seq<char>> {
    rows.update(i, rows[i].update(j, c))
}

/// The first of `mirrors` from place `k` on that is not `old_mirror`.
pub open spec fn first_other(mirrors: Seq<Mirror>, old_mirror: Mirror, k: int) -> Option<Mirror>
    decreases mirrors.len() - k,
{
    if k < 0 || k >= mirrors.len() {
        None
    } else if mirrors[k] != old_mirror {
        Some(mirrors[k])
    } else {
        first_other(mirrors, old_mirror, k + 1)
    }
}

/// The line of reflection that the first smudge brings out: the places of
/// `rows` are smudged one at a time, row by row from row `i` and column `j`
/// on, and the first smudge after which `rows` has a line of reflection other
/// than `old_mirror` gives the first such line. There is none if a place that
/// is tried holds neither ash nor rock, or if no smudge brings out a line.
pub open spec fn smudge_from(rows: Seq<Seq<char>>, old_mirror: Mirror, i: int, j: int) -> Option<
    Mirror,
>
    decreases rows.len() - i, rows[i].len() - j,
{
    if i < 0 || i >= rows.len() || j < 0 {
        None
    } else if j >= rows[i].len() {
        smudge_from(rows, old_mirror, i + 1, 0)
    } else {
        match flipped(rows[i][j]) {
            Some(c) => match first_other(all_mirrors(with_cell(rows, i, j, c)), old_mirror, 0) {
                Some(m) => Some(m),
                None => smudge_from(rows, old_mirror, i, j + 1),
            },
            None => None,
        }
    }
}

/// The line of reflection of `rows` once its smudge is mended. There is none
/// if `rows` cannot be searched, does not have exactly one line of reflection
/// as it stands, or no smudge brings out another.
pub open spec fn smudge_mirror(rows: Seq<Seq<char>>) -> Option<Mirror> {
    if valid_grid(rows) && all_mirrors(rows).len() == 1 {
        smudge_from(rows, all_mirrors(rows)[0], 0, 0)
    } else {
        None
    }
}

/// What the pattern `block` adds to the answer.
pub open spec fn block_score(block: Seq<char>) -> Option<usize> {
    match smudge_mirror(lines(block)) {
        Some(m) => score(m),
        None => None,
    }
}

/// What the patterns `all` add to the answer.
pub open spec fn block_scores(all: Seq<Seq<char>>) -> Seq<Option<usize>> {
    Seq::new(all.len(), |i: int| block_score(all[i]))
}

/// The answer to the puzzle `input`, whose patterns empty lines separate: the
/// sum of what its patterns add once their smudges are mended.
pub open spec fn answer(input: Seq<char>) -> Option<usize> {
    total_usize(block_scores(blocks(input)))
}

/// Turns `input`: the columns become the rows.
pub fn rotate_matrix(input: &[Vec<char>]) -> (output: Vec<Vec<char>>)
    requires
        can_turn(views(input@)),
    ensures
        views(output@) == turned(views(input@)),
{
    let mut rows: Vec<Vec<char>> = Vec::new();
    let mut r: usize = 0;
    while r < input.len()
        invariant
            r <= input.len(),
            rows.len() == r,
            forall|i: int| 0 <= i < r ==> (#[trigger] rows[i])@ == input[i]@,
        decreases input.len() - r,
    {
        rows.push(copy_row(&input[r]));
        r += 1;
    }
    assert(views(rows@) =~= views(input@));
    rotate(&rows)
}

/// A row like `row`.
fn copy_row(row: &Vec<char>) -> (copy: Vec<char>)
    ensures
        copy@ == row@,
{
    let mut copy: Vec<char> = Vec::new();
    let mut i: usize = 0;
    while i < row.len()
        invariant
            i <= row.len(),
            copy@ == row@.take(i as int),
        decreases row.len() - i,
    {
        copy.push(row[i]);
        assert(copy@ =~= row@.take(i + 1));
        i += 1;
    }
    assert(row@.take(row.len() as int) =~= row@);
    copy
}

/// All lines between two rows in which `input` mirrors itself, from the top.
pub fn find_splits(input: &[Vec<char>]) -> (found: Vec<usize>)
    ensures
        found@ == splits(views(input@), input@.len() as int),
{
    all_splits_of(input)
}

/// All lines in which `input` mirrors itself.
pub fn find_mirrors(input: &[Vec<char>]) -> (mirrors: Vec<Mirror>)
    requires
        valid_grid(views(input@)),
    ensures
        mirrors@ == all_mirrors(views(input@)),
{
    let mut mirrors: Vec<Mirror> = Vec::new();
    let across = find_splits(input);
    let mut i: usize = 0;
    while i < across.len()
        invariant
            i <= across.len(),
            mirrors@ == horizontals(across@.take(i as int)),
        decreases across.len() - i,
    {
        mirrors.push(Mirror::Horizontal(across[i]));
        assert(mirrors@ =~= horizontals(across@.take(i + 1)));
        i += 1;
    }
    assert(across@.take(across.len() as int) =~= across@);
    let rotated = rotate_matrix(input);
    let down = find_splits(rotated.as_slice());
    let ghost first = mirrors@;
    let mut k: usize = 0;
    while k < down.len()
        invariant
            k <= down.len(),
            mirrors@ == first + verticals(down@.take(k as int)),
        decreases down.len() - k,
    {
        mirrors.push(Mirror::Vertical(down[k]));
        assert(mirrors@ =~= first + verticals(down@.take(k + 1)));
        k += 1;
    }
    assert(down@.take(down.len() as int) =~= down@);
    mirrors
}

/// `input` with the character in row `i` and column `j` replaced by `c`.
fn smudged(input: &Vec<Vec<char>>, i: usize, j: usize, c: char) -> (output: Vec<Vec<char>>)
    requires
        i < input.len(),
        j < input[i as int].len(),
    ensures
        views(output@) == with_cell(views(input@), i as int, j as int, c),
{
    let mut output: Vec<Vec<char>> = Vec::new();
    let mut r: usize = 0;
    while r < input.len()
        invariant
            r <= input.len(),
            i < input.len(),
            j < input[i as int].len(),
            output.len() == r,
            forall|k: int|
                0 <= k < r ==> (#[trigger] output[k])@ == (if k == i {
                    input[k]@.update(j as int, c)
                } else {
                    input[k]@
                }),
        decreases input.len() - r,
    {
        let mut row = copy_row(&input[r]);
        if r == i {
            row.set(j, c);
        }
        output.push(row);
        r += 1;
    }
    assert(views(output@) =~= with_cell(views(input@), i as int, j as int, c));
    output
}

/// Finds the first of `mirrors` that is not `old_mirror`.
fn find_other(mirrors: &Vec<Mirror>, old_mirror: Mirror) -> (found: Option<Mirror>)
    ensures
        found == first_other(mirrors@, old_mirror, 0),
{
    let mut k: usize = 0;
    while k < mirrors.len()
        invariant
            k <= mirrors.len(),
            first_other(mirrors@, old_mirror, 0) == first_other(mirrors@, old_mirror, k as int),
        decreases mirrors.len() - k,
    {
        if mirrors[k] != old_mirror {
            return Some(mirrors[k]);
        }
        k += 1;
    }
    None
}

/// Smudging one place keeps a pattern fit to be searched.
pub proof fn lemma_with_cell_valid(rows: Seq<Seq<char>>, i: int, j: int, c: char)
    requires
        valid_grid(rows),
        0 <= i < rows.len(),
        0 <= j < rows[i].len(),
    ensures
        valid_grid(with_cell(rows, i, j, c)),
{
    let changed = with_cell(rows, i, j, c);
    assert forall|r: int| 0 <= r < changed.len() implies (#[trigger] changed[r]).len()
        >= changed[0].len() by {
        assert(rows[r].len() >= rows[0].len());
    }
}

/// Computes the character that a smudge turns `c` into.
fn flip(c: char) -> (found: Option<char>)
    ensures
        found == flipped(c),
{
    if c == '.' {
        Some('#')
    } else if c == '#' {
        Some('.')
    } else {
        None
    }
}

/// Finds the line of reflection of `input` once its smudge is mended, if
/// there is one.
pub fn try_find_smudge_mirror(input: &Vec<Vec<char>>) -> (found: Option<Mirror>)
    ensures
        found == smudge_mirror(views(input@)),
{
    let ghost rows = views(input@);
    if !check_turn(input) {
        return None;
    }
    assert(rows[0] == input[0]@);
    if input[0].len() == 0 {
        return None;
    }
    let og_mirrors = find_mirrors(input.as_slice());
    if og_mirrors.len() != 1 {
        return None;
    }
    let og_mirror = og_mirrors[0];
    let mut i: usize = 0;
    while i < input.len()
        invariant
            i <= input.len(),
            rows == views(input@),
            valid_grid(rows),
            smudge_mirror(rows) == smudge_from(rows, og_mirror, i as int, 0),
        decreases input.len() - i,
    {
        assert(rows[i as int] == input[i as int]@);
        let mut j: usize = 0;
        while j < input[i].len()
            invariant
                i < input.len(),
                j <= input[i as int].len(),
                rows == views(input@),
                rows[i as int] == input[i as int]@,
                valid_grid(rows),
                smudge_mirror(rows) == smudge_from(rows, og_mirror, i as int, j as int),
            decreases input[i as int].len() - j,
        {
            let og_val = input[i][j];
            match flip(og_val) {
                Some(c) => {
                    let changed = smudged(input, i, j, c);
                    proof {
                        lemma_with_cell_valid(rows, i as int, j as int, c);
                    }
                    let mirrors = find_mirrors(changed.as_slice());
                    match find_other(&mirrors, og_mirror) {
                        Some(m) => {
                            return Some(m);
                        },
                        None => {},
                    }
                },
                None => {
                    return None;
                },
            }
            j += 1;
        }
        i += 1;
    }
    None
}

/// The line of reflection of `input` once its smudge is mended.
pub fn find_smudge_mirror(input: Vec<Vec<char>>) -> (found: Mirror)
    requires
        smudge_mirror(views(input@)) is Some,
    ensures
        found == smudge_mirror(views(input@))->0,
{
    try_find_smudge_mirror(&input).unwrap()
}

/// Computes the answer to the puzzle `input`, if it has one.
pub fn solve(input: &Vec<char>) -> (found: Option<usize>)
    ensures
        found == answer(input@),
{
    let chunks = blocks_of(input);
    let mut values: Vec<Option<usize>> = Vec::new();
    let mut i: usize = 0;
    while i < chunks.len()
        invariant
            i <= chunks.len(),
            values.len() == i,
            forall|k: int| 0 <= k < i ==> (#[trigger] values[k]) == block_score(chunks[k]@),
        decreases chunks.len() - i,
    {
        let map = lines_of(&chunks[i]);
        let value = match try_find_smudge_mirror(&map) {
            Some(m) => score_of(m),
            None => None,
        };
        values.push(value);
        i += 1;
    }
    assert(values@ =~= block_scores(views(chunks@)));
    sum_usize(&values)
}

/// The answer to the puzzle `input`, in decimal digits.
pub fn process(input: &str) -> (out: String)
    requires
        answer(input@) is Some,
    ensures
        out@ == decimal(answer(input@)->0 as nat),
{
    let chars = chars_of(input);
    usize_string(solve(&chars).unwrap())
}

} // verus!
