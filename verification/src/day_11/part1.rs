use vstd::prelude::*;
use crate::day_11::pairs::{all_pairs, lemma_pairs_have_two, pair_views, pairs_of};
use crate::tally::{sum_within, total_within};
use crate::text::{chars_of, decimal, decimal_string, lines, lines_of, views};

verus! {

/// Whether no cell of `row` holds a galaxy.
pub open spec fn blank(row: Seq<bool>) -> bool {
    forall|i: int| 0 <= i < row.len() ==> !#[trigger] row[i]
}

/// A row of `width` cells without a galaxy.
pub open spec fn blank_row(width: nat) -> Seq<bool> {
    Seq::new(width, |i: int| false)
}

/// `rows` with a row of `width` empty cells in front of each of its rows that
/// holds no galaxy.
pub open spec fn with_blank_rows(rows: Seq<Seq<bool>>, width: nat) -> Seq<Seq<bool>>
    decreases rows.len(),
{
    if rows.len() == 0 {
        Seq::empty()
    } else if blank(rows.last()) {
        with_blank_rows(rows.drop_last(), width).push(blank_row(width)).push(rows.last())
    } else {
        with_blank_rows(rows.drop_last(), width).push(rows.last())
    }
}

/// Whether no row of `rows` holds a galaxy in column `c`, as far as the rows
/// reach that column.
pub open spec fn blank_column(rows: Seq<Seq<bool>>, c: int) -> bool {
    forall|r: int| 0 <= r < rows.len() && c < (#[trigger] rows[r]).len() ==> !rows[r][c]
}

/// `row` with an empty cell put in at each column from `c` on and in front of
/// `width` in which `rows` holds no galaxy, the last such column first. There
/// is none if such a column lies behind the end of the row.
pub open spec fn widened(row: Seq<bool>, rows: Seq<Seq<bool>>, width: int, c: int) -> Option<
    Seq<bool>,
>
    decreases width - c,
{
    if c < 0 || c >= width {
        Some(row)
    } else {
        match widened(row, rows, width, c + 1) {
            Some(wide) => if blank_column(rows, c) {
                if c <= wide.len() {
                    Some(wide.insert(c, false))
                } else {
                    None
                }
            } else {
                Some(wide)
            },
            None => None,
        }
    }
}

/// The universe `rows` expanded: each row and each column without a galaxy
/// stands twice. The columns are those of the first row. There is none if
/// `rows` is empty or a row ends in front of a column that is to be doubled.
pub open spec fn expanded(rows: Seq<Seq<bool>>) -> Option<Seq<Seq<bool>>> {
    if rows.len() == 0 {
        None
    } else {
        let width = rows[0].len();
        let tall = with_blank_rows(rows, width);
        if forall|r: int|
            0 <= r < tall.len() ==> (#[trigger] widened(tall[r], tall, width as int, 0)) is Some {
            Some(Seq::new(tall.len(), |r: int| widened(tall[r], tall, width as int, 0)->0))
        } else {
            None
        }
    }
}

/// The places of the galaxies in the first `k` cells of row `i`, which is
/// `row`, from the left.
pub open spec fn galaxies_in_row(row: Seq<bool>, i: int, k: int) -> Seq<(usize, usize)>
    decreases k,
{
    if k <= 0 {
        Seq::empty()
    } else if row[k - 1] {
        galaxies_in_row(row, i, k - 1).push((i as usize, (k - 1) as usize))
    } else {
        galaxies_in_row(row, i, k - 1)
    }
}

/// The places of the galaxies in the first `i` rows of `rows`, row by row:
/// each the number of its row and of its column.
pub open spec fn galaxies(rows: Seq<Seq<bool>>, i: int) -> Seq<(usize, usize)>
    decreases i,
{
    if i <= 0 {
        Seq::empty()
    } else {
        galaxies(rows, i - 1) + galaxies_in_row(rows[i - 1], i - 1, rows[i - 1].len() as int)
    }
}

/// The absolute value of `v`.
pub open spec fn magnitude(v: int) -> int {
    if v < 0 {
        -v
    } else {
        v
    }
}

/// Whether `v` is a signed number of 32 bits.
pub open spec fn fits(v: int) -> bool {
    i32::MIN <= v <= i32::MAX
}

/// The distance between two places by steps along the rows and columns, if it
/// and the differences and absolute values on the way fit in 32 bits.
pub open spec fn distance(y1: i32, x1: i32, y2: i32, x2: i32) -> Option<i32> {
    if fits(x1 - x2) && fits(magnitude(x1 - x2)) && fits(y1 - y2) && fits(magnitude(y1 - y2))
        && fits(magnitude(x1 - x2) + magnitude(y1 - y2)) {
        Some((magnitude(x1 - x2) + magnitude(y1 - y2)) as i32)
    } else {
        None
    }
}

/// The distance between the two places of `pair`, if their rows and columns
/// and the distance fit in 32 bits.
pub open spec fn pair_distance(pair: Seq<(usize, usize)>) -> Option<u64> {
    let a = pair[0];
    let b = pair[1];
    if a.0 <= i32::MAX && a.1 <= i32::MAX && b.0 <= i32::MAX && b.1 <= i32::MAX {
        match distance(a.0 as i32, a.1 as i32, b.0 as i32, b.1 as i32) {
            Some(d) => Some(d as u64),
            None => None,
        }
    } else {
        None
    }
}

/// The distances of `pairs`.
pub open spec fn pair_distances(pairs: Seq<Seq<(usize, usize)>>) -> Seq<Option<u64>> {
    Seq::new(pairs.len(), |i: int| pair_distance(pairs[i]))
}

/// The universe that `lines` show: a galaxy wherever a `#` stands.
pub open spec fn universe_of(lines: Seq<Seq<char>>) -> Seq<Seq<bool>> {
    Seq::new(lines.len(), |r: int| Seq::new(lines[r].len(), |c: int| lines[r][c] == '#'))
}

/// The answer to the puzzle `input`: the sum of the distances between each two
/// galaxies of the expanded universe. There is none if the universe cannot be
/// expanded, or a row, a column, a distance or the sum does not fit in 32
/// bits.
pub open spec fn answer(input: Seq<char>) -> Option<u64> {
    match expanded(universe_of(lines(input))) {
        Some(rows) => {
            let found = galaxies(rows, rows.len() as int);
            total_within(pair_distances(all_pairs(found, found.len() as int)), i32::MAX as nat)
        },
        None => None,
    }
}

/// The contents of a universe.
pub open spec fn grid(universe: Seq<Vec<bool>>) -> Seq<Seq<bool>> {
    Seq::new(universe.len(), |i: int| universe[i]@)
}

/// Computes the distance between two places, if it fits in 32 bits.
pub fn checked_distance(y1: i32, x1: i32, y2: i32, x2: i32) -> (found: Option<i32>)
    ensures
        found == distance(y1, x1, y2, x2),
{
    let dx = match x1.checked_sub(x2) {
        Some(v) => v,
        None => {
            return None;
        },
    };
    let dy = match y1.checked_sub(y2) {
        Some(v) => v,
        None => {
            return None;
        },
    };
    if dx == i32::MIN || dy == i32::MIN {
        return None;
    }
    let ax: i32 = if dx < 0 {
        -dx
    } else {
        dx
    };
    let ay: i32 = if dy < 0 {
        -dy
    } else {
        dy
    };
    ax.checked_add(ay)
}

/// The distance between two places by steps along the rows and columns.
pub fn manhatten_distance(y1: i32, x1: i32, y2: i32, x2: i32) -> (d: i32)
    requires
        distance(y1, x1, y2, x2) is Some,
    ensures
        d == distance(y1, x1, y2, x2)->0,
{
    checked_distance(y1, x1, y2, x2).unwrap()
}

/// The places of the galaxies of `universe`, row by row.
pub fn get_galaxies(universe: &[Vec<bool>]) -> (found: Vec<(usize, usize)>)
    ensures
        found@ == galaxies(grid(universe@), universe@.len() as int),
{
    let ghost rows = grid(universe@);
    let mut found: Vec<(usize, usize)> = Vec::new();
    let mut i: usize = 0;
    while i < universe.len()
        invariant
            i <= universe.len(),
            rows == grid(universe@),
            found@ == galaxies(rows, i as int),
        decreases universe.len() - i,
    {
        let row = &universe[i];
        let ghost before = found@;
        assert(rows[i as int] == row@);
        let mut j: usize = 0;
        while j < row.len()
            invariant
                j <= row.len(),
                found@ == before + galaxies_in_row(row@, i as int, j as int),
            decreases row.len() - j,
        {
            if row[j] {
                found.push((i, j));
            }
            assert(found@ =~= before + galaxies_in_row(row@, i as int, j + 1));
            j += 1;
        }
        i += 1;
    }
    found
}

/// Whether no cell of `row` holds a galaxy.
fn is_blank(row: &Vec<bool>) -> (b: bool)
    ensures
        b == blank(row@),
{
    let mut i: usize = 0;
    while i < row.len()
        invariant
            i <= row.len(),
            forall|k: int| 0 <= k < i ==> !#[trigger] row@[k],
        decreases row.len() - i,
    {
        if row[i] {
            return false;
        }
        i += 1;
    }
    true
}

/// Whether no row of `universe` holds a galaxy in column `c`.
fn is_blank_column(universe: &Vec<Vec<bool>>, c: usize) -> (b: bool)
    ensures
        b == blank_column(grid(universe@), c as int),
{
    let ghost rows = grid(universe@);
    let mut r: usize = 0;
    while r < universe.len()
        invariant
            r <= universe.len(),
            rows == grid(universe@),
            forall|k: int| 0 <= k < r && c < (#[trigger] rows[k]).len() ==> !rows[k][c as int],
        decreases universe.len() - r,
    {
        assert(rows[r as int] == universe[r as int]@);
        if c < universe[r].len() && universe[r][c] {
            return false;
        }
        r += 1;
    }
    true
}

/// A row like `row`.
fn copy_cells(row: &Vec<bool>) -> (copy: Vec<bool>)
    ensures
        copy@ == row@,
{
    let mut copy: Vec<bool> = Vec::new();
    let mut i: usize = 0;
    while i < row.len()
        invariant
            i <= row.len(),
            copy@ == row@.take(i as int),
        decreases row.len() - i,
    {
        copy.push(row[i]);
        assert(copy@ =~= row@.take(i + 1));
        i += 1;
    }
    assert(row@.take(row.len() as int) =~= row@);
    copy
}

/// Expands `universe`, if it can be expanded.
#[verifier::loop_isolation(false)]
pub fn try_expand(universe: &Vec<Vec<bool>>) -> (found: Option<Vec<Vec<bool>>>)
    ensures
        found is Some <==> expanded(grid(universe@)) is Some,
        found is Some ==> grid(found->0@) == expanded(grid(universe@))->0,
{
    if universe.len() == 0 {
        return None;
    }
    let ghost rows = grid(universe@);
    assert(rows[0] == universe[0]@);
    let width: usize = universe[0].len();
    // Add blank rows
    let mut blank_cells: Vec<bool> = Vec::new();
    while blank_cells.len() < width
        invariant
            blank_cells.len() <= width,
            forall|k: int| 0 <= k < blank_cells.len() ==> !blank_cells@[k],
        decreases width - blank_cells.len(),
    {
        blank_cells.push(false);
    }
    assert(blank_cells@ =~= blank_row(width as nat));
    let mut tall: Vec<Vec<bool>> = Vec::new();
    let mut i: usize = 0;
    assert(rows.take(0) =~= Seq::<Seq<bool>>::empty());
    assert(grid(tall@) =~= Seq::<Seq<bool>>::empty());
    while i < universe.len()
        invariant
            i <= universe.len(),
            rows == grid(universe@),
            blank_cells@ == blank_row(width as nat),
            grid(tall@) == with_blank_rows(rows.take(i as int), width as nat),
        decreases universe.len() - i,
    {
        proof {
            assert(rows.take(i + 1).drop_last() =~= rows.take(i as int));
            assert(rows.take(i + 1).last() == universe[i as int]@);
        }
        let ghost before = grid(tall@);
        if is_blank(&universe[i]) {
            tall.push(copy_cells(&blank_cells));
            tall.push(copy_cells(&universe[i]));
            assert(grid(tall@) =~= before.push(blank_row(width as nat)).push(universe[i as int]@));
        } else {
            tall.push(copy_cells(&universe[i]));
            assert(grid(tall@) =~= before.push(universe[i as int]@));
        }
        i += 1;
    }
    assert(rows.take(universe.len() as int) =~= rows);
    // Add blank columns
    let mut flags: Vec<bool> = Vec::new();
    let mut c: usize = 0;
    while c < width
        invariant
            c <= width,
            flags.len() == c,
            forall|k: int| 0 <= k < c ==> (#[trigger] flags[k]) == blank_column(grid(tall@), k),
        decreases width - c,
    {
        flags.push(is_blank_column(&tall, c));
        c += 1;
    }
    let ghost high = grid(tall@);
    let mut wide: Vec<Vec<bool>> = Vec::new();
    let mut r: usize = 0;
    while r < tall.len()
        invariant
            r <= tall.len(),
            high == grid(tall@),
            high == with_blank_rows(rows, width as nat),
            rows == grid(universe@),
            rows.len() > 0,
            width == rows[0].len(),
            flags.len() == width,
            forall|k: int| 0 <= k < width ==> (#[trigger] flags[k]) == blank_column(high, k),
            wide.len() == r,
            forall|k: int| 0 <= k < r ==> (#[trigger] widened(high[k], high, width as int, 0))
                is Some,
            forall|k: int|
                0 <= k < r ==> (#[trigger] wide[k])@ == widened(high[k], high, width as int, 0)->0,
        decreases tall.len() - r,
    {
        assert(high[r as int] == tall[r as int]@);
        let mut row = copy_cells(&tall[r]);
        let mut col: usize = width;
        while col > 0
            invariant
                col <= width,
                flags.len() == width,
                forall|k: int| 0 <= k < width ==> (#[trigger] flags[k]) == blank_column(high, k),
                widened(high[r as int], high, width as int, col as int) == Some(row@),
            decreases col,
        {
            col -= 1;
            if flags[col] {
                if col > row.len() {
                    assert(widened(high[r as int], high, width as int, col as int) is None);
                    proof {
                        lemma_widened_fails(high[r as int], high, width as int, col as int);
                    }
                    return None;
                }
                row.insert(col, false);
            }
        }
        wide.push(row);
        r += 1;
    }
    assert(grid(wide@) =~= expanded(rows)->0);
    Some(wide)
}

/// Where a row cannot be widened from column `c` on, it cannot be widened from
/// the first column on.
pub proof fn lemma_widened_fails(row: Seq<bool>, rows: Seq<Seq<bool>>, width: int, c: int)
    requires
        0 <= c,
        widened(row, rows, width, c) is None,
    ensures
        widened(row, rows, width, 0) is None,
    decreases c,
{
    if c > 0 {
        assert(widened(row, rows, width, c - 1) is None);
        lemma_widened_fails(row, rows, width, c - 1);
    }
}

/// Expands `universe`: each row and each column without a galaxy is doubled.
pub fn expand_universe(universe: &mut Vec<Vec<bool>>)
    requires
        expanded(grid(old(universe)@)) is Some,
    ensures
        grid(final(universe)@) == expanded(grid(old(universe)@))->0,
{
    let new_universe = try_expand(universe).unwrap();
    *universe = new_universe;
}

/// Computes the distance between the two places of `pair`.
fn distance_of(pair: &Vec<(usize, usize)>) -> (found: Option<u64>)
    requires
        pair.len() == 2,
    ensures
        found == pair_distance(pair@),
{
    let a = pair[0];
    let b = pair[1];
    let max: usize = 0x7FFF_FFFF;
    if a.0 <= max && a.1 <= max && b.0 <= max && b.1 <= max {
        match checked_distance(a.0 as i32, a.1 as i32, b.0 as i32, b.1 as i32) {
            Some(d) => Some(d as u64),
            None => None,
        }
    } else {
        None
    }
}

/// Reads the universe that the lines `all` show.
pub fn read_universe(all: &Vec<Vec<char>>) -> (universe: Vec<Vec<bool>>)
    ensures
        grid(universe@) == universe_of(views(all@)),
{
    let mut universe: Vec<Vec<bool>> = Vec::new();
    let mut r: usize = 0;
    while r < all.len()
        invariant
            r <= all.len(),
            universe.len() == r,
            forall|k: int| 0 <= k < r ==> (#[trigger] universe[k])@ == universe_of(views(all@))[k],
        decreases all.len() - r,
    {
        let line = &all[r];
        let mut row: Vec<bool> = Vec::new();
        let mut c: usize = 0;
        while c < line.len()
            invariant
                c <= line.len(),
                row.len() == c,
                forall|k: int| 0 <= k < c ==> (#[trigger] row[k]) == (line@[k] == '#'),
            decreases line.len() - c,
        {
            row.push(line[c] == '#');
            c += 1;
        }
        assert(row@ =~= universe_of(views(all@))[r as int]);
        universe.push(row);
        r += 1;
    }
    assert(grid(universe@) =~= universe_of(views(all@)));
    universe
}

/// Computes the answer to the puzzle `input`, if it has one.
pub fn solve(input: &Vec<char>) -> (found: Option<u64>)
    ensures
        found == answer(input@),
{
    let all = lines_of(input);
    let universe = read_universe(&all);
    let wide = match try_expand(&universe) {
        Some(v) => v,
        None => {
            return None;
        },
    };
    let places = get_galaxies(wide.as_slice());
    let ghost found = places@;
    let pairs = pairs_of(places);
    let ghost spec_pairs = all_pairs(found, found.len() as int);
    let mut values: Vec<Option<u64>> = Vec::new();
    let mut i: usize = 0;
    while i < pairs.len()
        invariant
            i <= pairs.len(),
            spec_pairs == all_pairs(found, found.len() as int),
            pair_views(pairs@) == spec_pairs,
            values.len() == i,
            forall|k: int| 0 <= k < i ==> (#[trigger] values[k]) == pair_distance(spec_pairs[k]),
        decreases pairs.len() - i,
    {
        proof {
            lemma_pairs_have_two(found, found.len() as int, i as int);
            assert(spec_pairs[i as int] == pairs[i as int]@);
        }
        values.push(distance_of(&pairs[i]));
        i += 1;
    }
    assert(values@ =~= pair_distances(spec_pairs));
    sum_within(&values, 0x7FFF_FFFF)
}

/// The answer to the puzzle `input`, in decimal digits.
pub fn process(input: &str) -> (out: String)
    requires
        answer(input@) is Some,
    ensures
        out@ == decimal(answer(input@)->0 as nat),
{
    let chars = chars_of(input);
    decimal_string(solve(&chars).unwrap())
}

} // verus!
