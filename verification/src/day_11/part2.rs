use vstd::prelude::*;
use crate::day_11::pairs::{all_pairs, lemma_pairs_have_two, pair_views, pairs_of};
use crate::text::{chars_of, lines, lines_of, signed_decimal, signed_decimal_string, views};

verus! {

/// A cell of empty space.
pub const EMPTY: u32 = 0;

/// A cell with a galaxy.
pub const GALAXY: u32 = 1;

/// The mark of a cell in a row without a galaxy.
pub const ROW_GAP: u32 = 2;

/// The mark of a cell in a column without a galaxy.
pub const COL_GAP: u32 = 4;

/// Whether no cell of `row` holds a galaxy.
pub open spec fn no_galaxy(row: Seq<u32>) -> bool {
    forall|i: int| 0 <= i < row.len() ==> #[trigger] row[i] != GALAXY
}

/// A row of `width` cells marked as a gap.
pub open spec fn gap_row(width: nat) -> Seq<u32> {
    Seq::new(width, |i: int| ROW_GAP)
}

/// Whether no row of `rows` holds a galaxy in column `c`, as far as the rows
/// reach that column.
pub open spec fn gap_column(rows: Seq<Seq<u32>>, c: int) -> bool {
    forall|r: int| 0 <= r < rows.len() && c < (#[trigger] rows[r]).len() ==> rows[r][c] != GALAXY
}

/// Whether each of the first `width` columns that holds no galaxy in `rows` is
/// a column of `row`.
pub open spec fn reaches_gaps(row: Seq<u32>, rows: Seq<Seq<u32>>, width: int) -> bool {
    forall|c: int| 0 <= c < width && #[trigger] gap_column(rows, c) ==> c < row.len()
}

/// `row` with the mark of a gap on each of its cells in one of the first
/// `width` columns that holds no galaxy in `rows`.
pub open spec fn marked_row(row: Seq<u32>, rows: Seq<Seq<u32>>, width: int) -> Seq<u32> {
    Seq::new(
        row.len(),
        |c: int|
            if c < width && gap_column(rows, c) {
                row[c] | COL_GAP
            } else {
                row[c]
            },
    )
}

/// Row `r` of `rows` as it is before the columns are marked: a row of gap
/// cells as wide as the first row if it holds no galaxy, and itself otherwise.
pub open spec fn tall_row(rows: Seq<Seq<u32>>, r: int) -> Seq<u32> {
    if no_galaxy(rows[r]) {
        gap_row(rows[0].len())
    } else {
        rows[r]
    }
}

/// The universe `rows` with its gaps marked: each row without a galaxy
/// becomes a row of gap cells, and each cell in a column without a galaxy,
/// among the columns of the first row, is marked as well. There is none if
/// `rows` is empty or a row ends in front of a column that is to be marked.
pub open spec fn expanded(rows: Seq<Seq<u32>>) -> Option<Seq<Seq<u32>>> {
    if rows.len() == 0 {
        None
    } else {
        let width = rows[0].len() as int;
        if forall|r: int|
            0 <= r < rows.len() ==> #[trigger] reaches_gaps(tall_row(rows, r), rows, width) {
            Some(Seq::new(rows.len(), |r: int| marked_row(tall_row(rows, r), rows, width)))
        } else {
            None
        }
    }
}

/// The places of the galaxies in the first `k` cells of row `i`, which is
/// `row`, from the left.
pub open spec fn galaxies_in_row(row: Seq<u32>, i: int, k: int) -> Seq<(usize, usize)>
    decreases k,
{
    if k <= 0 {
        Seq::empty()
    } else if row[k - 1] == GALAXY {
        galaxies_in_row(row, i, k - 1).push((i as usize, (k - 1) as usize))
    } else {
        galaxies_in_row(row, i, k - 1)
    }
}

/// The places of the galaxies in the first `i` rows of `rows`, row by row.
pub open spec fn galaxies(rows: Seq<Seq<u32>>, i: int) -> Seq<(usize, usize)>
    decreases i,
{
    if i <= 0 {
        Seq::empty()
    } else {
        galaxies(rows, i - 1) + galaxies_in_row(rows[i - 1], i - 1, rows[i - 1].len() as int)
    }
}

/// How many of the rows of `rows` from `from` up to `to` are marked as gaps
/// in their first cell. There is none if one of these rows is empty.
pub open spec fn row_gaps(rows: Seq<Seq<u32>>, from: int, to: int) -> Option<int>
    decreases to - from,
{
    if to <= from || to > rows.len() || from < 0 {
        Some(0)
    } else {
        match row_gaps(rows, from, to - 1) {
            Some(n) => if rows[to - 1].len() == 0 {
                None
            } else if rows[to - 1][0] & ROW_GAP != 0 {
                Some(n + 1)
            } else {
                Some(n)
            },
            None => None,
        }
    }
}

/// How many of the cells of `row` from `from` up to `to` are marked as gaps
/// of a column.
pub open spec fn col_gaps(row: Seq<u32>, from: int, to: int) -> int
    decreases to - from,
{
    if to <= from || to > row.len() || from < 0 {
        0
    } else if row[to - 1] & COL_GAP != 0 {
        col_gaps(row, from, to - 1) + 1
    } else {
        col_gaps(row, from, to - 1)
    }
}

/// The lesser of two numbers.
pub open spec fn lesser(a: int, b: int) -> int {
    if a <= b {
        a
    } else {
        b
    }
}

/// The greater of two numbers.
pub open spec fn greater(a: int, b: int) -> int {
    if a >= b {
        a
    } else {
        b
    }
}

/// Whether `v` is a signed number of 64 bits.
pub open spec fn fits(v: int) -> bool {
    i64::MIN <= v <= i64::MAX
}

/// The distance between two places of the marked universe `rows`, in which a
/// gap counts for `gap_size` steps: the steps along the rows and columns, and
/// for each gap between the two places `gap_size - 1` steps more. The gaps of
/// rows are read from the first cell of each row, as far as `rows` has rows;
/// the gaps of columns from the first row, as far as it has cells. There is
/// none if a row or a column is negative, `rows` is empty or is empty in a
/// row between the two places, or a number on the way does not fit in 64
/// bits.
pub open spec fn gap_distance(
    rows: Seq<Seq<u32>>,
    gap_size: i64,
    y1: i64,
    x1: i64,
    y2: i64,
    x2: i64,
) -> Option<i64> {
    if y1 < 0 || x1 < 0 || y2 < 0 || x2 < 0 || rows.len() == 0 {
        None
    } else {
        let y_0 = lesser(y1 as int, y2 as int);
        let y_1 = greater(y1 as int, y2 as int);
        let x_0 = lesser(x1 as int, x2 as int);
        let x_1 = greater(x1 as int, x2 as int);
        match row_gaps(rows, lesser(y_0, rows.len() as int), lesser(y_1, rows.len() as int)) {
            Some(in_rows) => {
                let in_cols = col_gaps(
                    rows[0],
                    lesser(x_0, rows[0].len() as int),
                    lesser(x_1, rows[0].len() as int),
                );
                let steps = (x_1 - x_0) + (y_1 - y_0);
                let more = gap_size - 1;
                if fits(in_rows) && fits(in_cols) && fits(steps) && fits(more) && fits(
                    in_rows * more,
                ) && fits(
                    steps + in_rows * more,
                ) && fits(in_cols * more) && fits(steps + in_rows * more + in_cols * more) {
                    Some((steps + in_rows * more + in_cols * more) as i64)
                } else {
                    None
                }
            },
            None => None,
        }
    }
}

/// The distance between the two places of `pair`.
pub open spec fn pair_distance(rows: Seq<Seq<u32>>, gap_size: i64, pair: Seq<(usize, usize)>)
    -> Option<i64> {
    let a = pair[0];
    let b = pair[1];
    if a.0 <= i64::MAX && a.1 <= i64::MAX && b.0 <= i64::MAX && b.1 <= i64::MAX {
        gap_distance(rows, gap_size, a.0 as i64, a.1 as i64, b.0 as i64, b.1 as i64)
    } else {
        None
    }
}

/// The sum of the distances of `pairs`, added up in order. There is none if a
/// pair has no distance or a sum on the way does not fit in 64 bits.
pub open spec fn sum_of_distances(
    rows: Seq<Seq<u32>>,
    gap_size: i64,
    pairs: Seq<Seq<(usize, usize)>>,
) -> Option<i64>
    decreases pairs.len(),
{
    if pairs.len() == 0 {
        Some(0)
    } else {
        match (
            sum_of_distances(rows, gap_size, pairs.drop_last()),
            pair_distance(rows, gap_size, pairs.last()),
        ) {
            (Some(a), Some(b)) => if fits(a + b) {
                Some((a + b) as i64)
            } else {
                None
            },
            _ => None,
        }
    }
}

/// The universe that `lines` show: a galaxy wherever a `#` stands, and empty
/// space elsewhere.
pub open spec fn universe_of(lines: Seq<Seq<char>>) -> Seq<Seq<u32>> {
    Seq::new(
        lines.len(),
        |r: int|
            Seq::new(
                lines[r].len(),
                |c: int|
                    if lines[r][c] == '#' {
                        GALAXY
                    } else {
                        EMPTY
                    },
            ),
    )
}

/// The answer to the puzzle `input` where a gap counts for `gap_size` steps:
/// the sum of the distances between each two galaxies.
pub open spec fn answer(input: Seq<char>, gap_size: i64) -> Option<i64> {
    match expanded(universe_of(lines(input))) {
        Some(rows) => {
            let found = galaxies(rows, rows.len() as int);
            sum_of_distances(rows, gap_size, all_pairs(found, found.len() as int))
        },
        None => None,
    }
}

/// The contents of a universe.
pub open spec fn grid(universe: Seq<Vec<u32>>) -> Seq<Seq<u32>> {
    Seq::new(universe.len(), |i: int| universe[i]@)
}

/// Where the pairs have a sum of distances, so have the first `k` of them.
pub proof fn lemma_sum_of_distances_start(
    rows: Seq<Seq<u32>>,
    gap_size: i64,
    pairs: Seq<Seq<(usize, usize)>>,
    k: int,
)
    requires
        0 <= k <= pairs.len(),
        sum_of_distances(rows, gap_size, pairs) is Some,
    ensures
        sum_of_distances(rows, gap_size, pairs.take(k)) is Some,
    decreases pairs.len(),
{
    if k == pairs.len() {
        assert(pairs.take(k) =~= pairs);
    } else {
        lemma_sum_of_distances_start(rows, gap_size, pairs.drop_last(), k);
        assert(pairs.drop_last().take(k) =~= pairs.take(k));
    }
}

/// Where the rows up to `to` have a number of gaps, so have those up to `k`.
pub proof fn lemma_row_gaps_start(rows: Seq<Seq<u32>>, from: int, k: int, to: int)
    requires
        0 <= from <= k <= to <= rows.len(),
        row_gaps(rows, from, to) is Some,
    ensures
        row_gaps(rows, from, k) is Some,
    decreases to - k,
{
    if k < to {
        lemma_row_gaps_start(rows, from, k, to - 1);
    }
}

/// Counts the gaps among the rows of `universe` from `from` up to `to`.
fn count_row_gaps(universe: &[Vec<u32>], from: usize, to: usize) -> (found: Option<usize>)
    requires
        from <= to <= universe.len(),
    ensures
        found is Some <==> row_gaps(grid(universe@), from as int, to as int) is Some,
        found is Some ==> found->0 == row_gaps(grid(universe@), from as int, to as int)->0,
{
    let ghost rows = grid(universe@);
    let mut n: usize = 0;
    let mut r: usize = from;
    while r < to
        invariant
            from <= r <= to <= universe.len(),
            rows == grid(universe@),
            row_gaps(rows, from as int, r as int) == Some(n as int),
            0 <= n <= r - from,
        decreases to - r,
    {
        assert(rows[r as int] == universe[r as int]@);
        if universe[r].len() == 0 {
            proof {
                if row_gaps(rows, from as int, to as int) is Some {
                    lemma_row_gaps_start(rows, from as int, r + 1, to as int);
                }
            }
            return None;
        }
        if universe[r][0] & ROW_GAP != 0 {
            n += 1;
        }
        r += 1;
    }
    Some(n)
}

/// Counts the gaps among the cells of `row` from `from` up to `to`.
fn count_col_gaps(row: &Vec<u32>, from: usize, to: usize) -> (n: usize)
    requires
        from <= to <= row.len(),
    ensures
        n == col_gaps(row@, from as int, to as int),
{
    let mut n: usize = 0;
    let mut c: usize = from;
    while c < to
        invariant
            from <= c <= to <= row.len(),
            n == col_gaps(row@, from as int, c as int),
            0 <= n <= c - from,
        decreases to - c,
    {
        if row[c] & COL_GAP != 0 {
            n += 1;
        }
        c += 1;
    }
    n
}

/// The lesser of `v` and `len`, as a place.
fn bounded(v: i64, len: usize) -> (place: usize)
    requires
        v >= 0,
    ensures
        place == lesser(v as int, len as int),
{
    if v as u64 <= len as u64 {
        v as usize
    } else {
        len
    }
}

/// Computes the distance between two places of the marked universe, if it
/// has one.
pub fn checked_distance(
    universe: &[Vec<u32>],
    gap_size: i64,
    y1: i64,
    x1: i64,
    y2: i64,
    x2: i64,
) -> (found: Option<i64>)
    ensures
        found == gap_distance(grid(universe@), gap_size, y1, x1, y2, x2),
{
    if y1 < 0 || x1 < 0 || y2 < 0 || x2 < 0 || universe.len() == 0 {
        return None;
    }
    let ghost rows = grid(universe@);
    assert(rows[0] == universe[0]@);
    let x_0: i64 = if x1 <= x2 {
        x1
    } else {
        x2
    };
    let x_1: i64 = if x1 >= x2 {
        x1
    } else {
        x2
    };
    let y_0: i64 = if y1 <= y2 {
        y1
    } else {
        y2
    };
    let y_1: i64 = if y1 >= y2 {
        y1
    } else {
        y2
    };
    let row_count = match count_row_gaps(
        universe,
        bounded(y_0, universe.len()),
        bounded(y_1, universe.len()),
    ) {
        Some(n) => n,
        None => {
            return None;
        },
    };
    let first = &universe[0];
    let col_count = count_col_gaps(first, bounded(x_0, first.len()), bounded(x_1, first.len()));
    if row_count as u64 > 0x7FFF_FFFF_FFFF_FFFFu64 || col_count as u64 > 0x7FFF_FFFF_FFFF_FFFFu64 {
        return None;
    }
    let in_rows: i64 = row_count as i64;
    let in_cols: i64 = col_count as i64;
    let steps = match (x_1 - x_0).checked_add(y_1 - y_0) {
        Some(v) => v,
        None => {
            return None;
        },
    };
    let more = match gap_size.checked_sub(1) {
        Some(v) => v,
        None => {
            return None;
        },
    };
    let by_rows = match in_rows.checked_mul(more) {
        Some(v) => v,
        None => {
            return None;
        },
    };
    let with_rows = match steps.checked_add(by_rows) {
        Some(v) => v,
        None => {
            return None;
        },
    };
    let by_cols = match in_cols.checked_mul(more) {
        Some(v) => v,
        None => {
            return None;
        },
    };
    with_rows.checked_add(by_cols)
}

/// The distance between two places of the marked universe, in which a gap
/// counts for `gap_size` steps.
pub fn manhatten_distance(
    universe: &[Vec<u32>],
    gap_size: i64,
    y1: i64,
    x1: i64,
    y2: i64,
    x2: i64,
) -> (d: i64)
    requires
        gap_distance(grid(universe@), gap_size, y1, x1, y2, x2) is Some,
    ensures
        d == gap_distance(grid(universe@), gap_size, y1, x1, y2, x2)->0,
{
    checked_distance(universe, gap_size, y1, x1, y2, x2).unwrap()
}

/// The places of the galaxies of `universe`, row by row.
pub fn get_galaxies(universe: &[Vec<u32>]) -> (found: Vec<(usize, usize)>)
    ensures
        found@ == galaxies(grid(universe@), universe@.len() as int),
{
    let ghost rows = grid(universe@);
    let mut found: Vec<(usize, usize)> = Vec::new();
    let mut i: usize = 0;
    while i < universe.len()
        invariant
            i <= universe.len(),
            rows == grid(universe@),
            found@ == galaxies(rows, i as int),
        decreases universe.len() - i,
    {
        let row = &universe[i];
        let ghost before = found@;
        assert(rows[i as int] == row@);
        let mut j: usize = 0;
        while j < row.len()
            invariant
                j <= row.len(),
                found@ == before + galaxies_in_row(row@, i as int, j as int),
            decreases row.len() - j,
        {
            if row[j] == GALAXY {
                found.push((i, j));
            }
            assert(found@ =~= before + galaxies_in_row(row@, i as int, j + 1));
            j += 1;
        }
        i += 1;
    }
    found
}

/// Whether no cell of `row` holds a galaxy.
fn has_no_galaxy(row: &Vec<u32>) -> (b: bool)
    ensures
        b == no_galaxy(row@),
{
    let mut i: usize = 0;
    while i < row.len()
        invariant
            i <= row.len(),
            forall|k: int| 0 <= k < i ==> #[trigger] row@[k] != GALAXY,
        decreases row.len() - i,
    {
        if row[i] == GALAXY {
            return false;
        }
        i += 1;
    }
    true
}

/// Whether no row of `universe` holds a galaxy in column `c`.
fn is_gap_column(universe: &Vec<Vec<u32>>, c: usize) -> (b: bool)
    ensures
        b == gap_column(grid(universe@), c as int),
{
    let ghost rows = grid(universe@);
    let mut r: usize = 0;
    while r < universe.len()
        invariant
            r <= universe.len(),
            rows == grid(universe@),
            forall|k: int|
                0 <= k < r && c < (#[trigger] rows[k]).len() ==> rows[k][c as int] != GALAXY,
        decreases universe.len() - r,
    {
        assert(rows[r as int] == universe[r as int]@);
        if c < universe[r].len() && universe[r][c] == GALAXY {
            return false;
        }
        r += 1;
    }
    true
}

/// Marks the gaps of `universe`, if they can be marked.
#[verifier::loop_isolation(false)]
pub fn try_expand(universe: &Vec<Vec<u32>>) -> (found: Option<Vec<Vec<u32>>>)
    ensures
        found is Some <==> expanded(grid(universe@)) is Some,
        found is Some ==> grid(found->0@) == expanded(grid(universe@))->0,
{
    if universe.len() == 0 {
        return None;
    }
    let ghost rows = grid(universe@);
    assert(rows[0] == universe[0]@);
    let width: usize = universe[0].len();
    let mut flags: Vec<bool> = Vec::new();
    let mut c: usize = 0;
    while c < width
        invariant
            c <= width,
            flags.len() == c,
            forall|k: int| 0 <= k < c ==> (#[trigger] flags[k]) == gap_column(rows, k),
        decreases width - c,
    {
        flags.push(is_gap_column(universe, c));
        c += 1;
    }
    let mut new_universe: Vec<Vec<u32>> = Vec::new();
    let mut r: usize = 0;
    while r < universe.len()
        invariant
            r <= universe.len(),
            new_universe.len() == r,
            forall|k: int|
                0 <= k < r ==> #[trigger] reaches_gaps(tall_row(rows, k), rows, width as int),
            forall|k: int|
                0 <= k < r ==> (#[trigger] new_universe[k])@ == marked_row(
                    tall_row(rows, k),
                    rows,
                    width as int,
                ),
        decreases universe.len() - r,
    {
        assert(rows[r as int] == universe[r as int]@);
        let blank = has_no_galaxy(&universe[r]);
        let ghost tall = tall_row(rows, r as int);
        let len: usize = if blank {
            width
        } else {
            universe[r].len()
        };
        let mut row: Vec<u32> = Vec::new();
        let mut j: usize = 0;
        while j < len
            invariant
                j <= len,
                len == tall.len(),
                row.len() == j,
                forall|k: int| 0 <= k < j ==> (#[trigger] row[k]) == marked_row(
                    tall,
                    rows,
                    width as int,
                )[k],
            decreases len - j,
        {
            let cell: u32 = if blank {
                ROW_GAP
            } else {
                universe[r][j]
            };
            assert(cell == tall[j as int]);
            if j < width && flags[j] {
                row.push(cell | COL_GAP);
            } else {
                row.push(cell);
            }
            j += 1;
        }
        assert(row@ =~= marked_row(tall, rows, width as int));
        let mut k: usize = if len < width {
            len
        } else {
            width
        };
        while k < width
            invariant
                k <= width,
                len <= k || k == width,
                forall|c: int| len <= c < k && #[trigger] gap_column(rows, c) ==> c < tall.len(),
            decreases width - k,
        {
            if flags[k] {
                assert(gap_column(rows, k as int));
                assert(!reaches_gaps(tall_row(rows, r as int), rows, width as int));
                return None;
            }
            k += 1;
        }
        assert(reaches_gaps(tall, rows, width as int));
        new_universe.push(row);
        r += 1;
    }
    assert(grid(new_universe@) =~= expanded(rows)->0);
    Some(new_universe)
}

/// Marks the gaps of `universe`: each row without a galaxy becomes a row of
/// gap cells, and each cell in a column without a galaxy is marked as well.
pub fn expand_universe(universe: &mut Vec<Vec<u32>>)
    requires
        expanded(grid(old(universe)@)) is Some,
    ensures
        grid(final(universe)@) == expanded(grid(old(universe)@))->0,
{
    let new_universe = try_expand(universe).unwrap();
    *universe = new_universe;
}

/// Reads the universe that the lines `all` show.
pub fn read_universe(all: &Vec<Vec<char>>) -> (universe: Vec<Vec<u32>>)
    ensures
        grid(universe@) == universe_of(views(all@)),
{
    let mut universe: Vec<Vec<u32>> = Vec::new();
    let mut r: usize = 0;
    while r < all.len()
        invariant
            r <= all.len(),
            universe.len() == r,
            forall|k: int| 0 <= k < r ==> (#[trigger] universe[k])@ == universe_of(views(all@))[k],
        decreases all.len() - r,
    {
        let line = &all[r];
        let mut row: Vec<u32> = Vec::new();
        let mut c: usize = 0;
        while c < line.len()
            invariant
                c <= line.len(),
                row.len() == c,
                forall|k: int|
                    0 <= k < c ==> (#[trigger] row[k]) == (if line@[k] == '#' {
                        GALAXY
                    } else {
                        EMPTY
                    }),
            decreases line.len() - c,
        {
            if line[c] == '#' {
                row.push(GALAXY);
            } else {
                row.push(EMPTY);
            }
            c += 1;
        }
        assert(row@ =~= universe_of(views(all@))[r as int]);
        universe.push(row);
        r += 1;
    }
    assert(grid(universe@) =~= universe_of(views(all@)));
    universe
}

/// Computes the distance between the two places of `pair`.
fn distance_of(universe: &[Vec<u32>], gap_size: i64, pair: &Vec<(usize, usize)>) -> (found: Option<
    i64,
>)
    requires
        pair.len() == 2,
    ensures
        found == pair_distance(grid(universe@), gap_size, pair@),
{
    let a = pair[0];
    let b = pair[1];
    let max: u64 = 0x7FFF_FFFF_FFFF_FFFF;
    if a.0 as u64 <= max && a.1 as u64 <= max && b.0 as u64 <= max && b.1 as u64 <= max {
        checked_distance(universe, gap_size, a.0 as i64, a.1 as i64, b.0 as i64, b.1 as i64)
    } else {
        None
    }
}

/// Computes the answer to the puzzle `input`, if it has one.
pub fn solve(input: &Vec<char>, gap_size: i64) -> (found: Option<i64>)
    ensures
        found == answer(input@, gap_size),
{
    let all = lines_of(input);
    let universe = read_universe(&all);
    let marked = match try_expand(&universe) {
        Some(v) => v,
        None => {
            return None;
        },
    };
    let ghost rows = grid(marked@);
    let places = get_galaxies(marked.as_slice());
    let ghost found = places@;
    let pairs = pairs_of(places);
    let ghost spec_pairs = all_pairs(found, found.len() as int);
    let mut sum: i64 = 0;
    let mut i: usize = 0;
    assert(spec_pairs.take(0) =~= Seq::<Seq<(usize, usize)>>::empty());
    while i < pairs.len()
        invariant
            i <= pairs.len(),
            rows == grid(marked@),
            spec_pairs == all_pairs(found, found.len() as int),
            pair_views(pairs@) == spec_pairs,
            expanded(universe_of(lines(input@))) == Some(rows),
            found == galaxies(rows, rows.len() as int),
            sum_of_distances(rows, gap_size, spec_pairs.take(i as int)) == Some(sum),
        decreases pairs.len() - i,
    {
        proof {
            lemma_pairs_have_two(found, found.len() as int, i as int);
            assert(spec_pairs[i as int] == pairs[i as int]@);
            assert(spec_pairs.take(i + 1).drop_last() =~= spec_pairs.take(i as int));
            assert(spec_pairs.take(i + 1).last() == spec_pairs[i as int]);
            if sum_of_distances(rows, gap_size, spec_pairs) is Some {
                lemma_sum_of_distances_start(rows, gap_size, spec_pairs, i + 1);
            }
        }
        let next = match distance_of(marked.as_slice(), gap_size, &pairs[i]) {
            Some(d) => sum.checked_add(d),
            None => None,
        };
        match next {
            Some(v) => {
                sum = v;
            },
            None => {
                return None;
            },
        }
        i += 1;
    }
    assert(spec_pairs.take(pairs.len() as int) =~= spec_pairs);
    Some(sum)
}

/// The answer to the puzzle `input` where a gap counts for `gap_size` steps,
/// in decimal digits, with a minus sign if it is negative.
pub fn process(input: &str, gap_size: i64) -> (out: String)
    requires
        answer(input@, gap_size) is Some,
    ensures
        out@ == signed_decimal(answer(input@, gap_size)->0 as int),
{
    let chars = chars_of(input);
    signed_decimal_string(solve(&chars, gap_size).unwrap())
}

} // verus!
