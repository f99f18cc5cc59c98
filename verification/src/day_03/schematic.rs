use vstd::prelude::*;
use crate::text::{
    decimal, digit_of, is_digit, lines, lines_of, number, parse_u32, trim, trimmed, views,
};

verus! {

/// A number of the schematic: its value, the column of its first digit, and
/// its row.
pub struct Spot {
    pub number: u32,
    pub x: i32,
    pub y: i32,
}

/// The rows of the schematic that `input` shows: its lines, each trimmed.
pub open spec fn rows_of(input: Seq<char>) -> Seq<Seq<char>> {
    Seq::new(lines(input).len(), |r: int| trim(lines(input)[r]))
}

/// The stretches of digits of `row`: for each maximal stretch the column of
/// its first digit and its digits, from the left.
pub open spec fn digit_runs(row: Seq<char>) -> Seq<(int, Seq<char>)>
    decreases row.len(),
{
    if row.len() == 0 {
        Seq::empty()
    } else {
        let prev = digit_runs(row.drop_last());
        if !is_digit(row.last()) {
            prev
        } else if row.len() >= 2 && is_digit(row[row.len() - 2]) {
            prev.drop_last().push((prev.last().0, prev.last().1.push(row.last())))
        } else {
            prev.push((row.len() - 1, seq![row.last()]))
        }
    }
}

/// Whether the schematic `rows` can be searched: it has a row, neither its
/// rows nor the columns of its first row are more than a signed number of 32
/// bits can count, no row is longer than the first, and no shorter row ends
/// in a digit.
pub open spec fn searchable(rows: Seq<Seq<char>>) -> bool {
    rows.len() > 0 && rows.len() <= i32::MAX && rows[0].len() <= i32::MAX && forall|r: int|
        0 <= r < rows.len() ==> (#[trigger] rows[r]).len() <= rows[0].len() && (rows[r].len()
            < rows[0].len() && rows[r].len() > 0 ==> !is_digit(rows[r].last()))
}

/// Whether each stretch of digits of `row` denotes a number of 32 bits.
pub open spec fn runs_fit(row: Seq<char>) -> bool {
    forall|k: int|
        0 <= k < digit_runs(row).len() ==> number((#[trigger] digit_runs(row)[k]).1) <= u32::MAX
}

/// The numbers of row `y`, which is `row`, from the left.
pub open spec fn spots_in_row(row: Seq<char>, y: int) -> Seq<Spot> {
    Seq::new(
        digit_runs(row).len(),
        |k: int|
            Spot {
                number: number(digit_runs(row)[k].1) as u32,
                x: digit_runs(row)[k].0 as i32,
                y: y as i32,
            },
    )
}

/// The numbers of the first `n` rows of `rows`, row by row.
pub open spec fn spots(rows: Seq<Seq<char>>, n: int) -> Seq<Spot>
    decreases n,
{
    if n <= 0 {
        Seq::empty()
    } else {
        spots(rows, n - 1) + spots_in_row(rows[n - 1], n - 1)
    }
}

/// The numbers of the schematic `rows`. There are none if it cannot be
/// searched or one of its numbers does not fit in 32 bits.
pub open spec fn all_spots(rows: Seq<Seq<char>>) -> Option<Seq<Spot>> {
    if searchable(rows) && forall|r: int| 0 <= r < rows.len() ==> #[trigger] runs_fit(rows[r]) {
        Some(spots(rows, rows.len() as int))
    } else {
        None
    }
}

/// Whether `c` is one of the symbols that tag a number.
pub open spec fn is_symbol(c: char) -> bool {
    c == '*' || c == '-' || c == '+' || c == '#' || c == '&' || c == '$' || c == '=' || c == '%'
        || c == '@' || c == '/'
}

/// Whether `c` is a mark: a gear, or, unless `gears_only` holds, any symbol.
pub open spec fn is_mark(c: char, gears_only: bool) -> bool {
    if gears_only {
        c == '*'
    } else {
        is_symbol(c)
    }
}

/// The width of a number in the schematic as it is searched: the number of
/// its decimal digits without leading zeros.
pub open spec fn size_of(value: u32) -> int {
    decimal(value as nat).len() as int
}

/// The first mark around the number `spot` of `rows`, from place `k` of the
/// search on: its column and its row. The search goes through the three rows
/// from the one above the number to the one below it, and in each row from
/// the column in front of the number to the column `size` behind its first
/// digit; places outside the rows of the schematic or the columns of its first
/// row are passed over. The outer result is missing if the search comes to a
/// place that its row does not have.
pub open spec fn first_mark(
    rows: Seq<Seq<char>>,
    spot: Spot,
    gears_only: bool,
    k: int,
) -> Option<Option<(i32, i32)>>
    decreases 3 * (size_of(spot.number) + 2) - k,
{
    let span = size_of(spot.number) + 2;
    if k < 0 || k >= 3 * span {
        Some(None)
    } else {
        let i = spot.y - 1 + k / span;
        let j = spot.x - 1 + k % span;
        if i < 0 || i >= rows.len() || j < 0 || j >= rows[0].len() {
            first_mark(rows, spot, gears_only, k + 1)
        } else if j >= rows[i].len() {
            None
        } else if is_mark(rows[i][j], gears_only) {
            Some(Some((j as i32, i as i32)))
        } else {
            first_mark(rows, spot, gears_only, k + 1)
        }
    }
}

/// The first mark around the number `spot` of `rows`. The outer result is
/// missing if the search comes to a place that its row does not have, or if
/// the last column of the search does not fit in 32 bits.
pub open spec fn mark_of(rows: Seq<Seq<char>>, spot: Spot, gears_only: bool) -> Option<
    Option<(i32, i32)>,
> {
    if spot.x + size_of(spot.number) <= i32::MAX {
        first_mark(rows, spot, gears_only, 0)
    } else {
        None
    }
}

/// The contents of a list of numbered stretches.
pub open spec fn run_views(runs: Seq<(usize, Vec<char>)>) -> Seq<(int, Seq<char>)> {
    Seq::new(runs.len(), |i: int| (runs[i].0 as int, runs[i].1@))
}

/// Reads the rows of the schematic that `input` shows.
pub fn read_rows(input: &Vec<char>) -> (grid: Vec<Vec<char>>)
    ensures
        views(grid@) == rows_of(input@),
{
    let all = lines_of(input);
    let mut grid: Vec<Vec<char>> = Vec::new();
    let mut r: usize = 0;
    while r < all.len()
        invariant
            r <= all.len(),
            views(all@) == lines(input@),
            grid.len() == r,
            forall|i: int| 0 <= i < r ==> (#[trigger] grid[i])@ == trim(all[i]@),
        decreases all.len() - r,
    {
        grid.push(trimmed(&all[r]));
        r += 1;
    }
    assert(views(grid@) =~= rows_of(input@));
    grid
}

/// Finds the stretches of digits of `row`.
pub fn find_runs(row: &Vec<char>) -> (found: Vec<(usize, Vec<char>)>)
    ensures
        run_views(found@) == digit_runs(row@),
{
    let mut done: Vec<(usize, Vec<char>)> = Vec::new();
    let mut cur: Vec<char> = Vec::new();
    let mut start: usize = 0;
    let mut i: usize = 0;
    assert(row@.take(0) =~= Seq::<char>::empty());
    assert(run_views(done@) =~= Seq::<(int, Seq<char>)>::empty());
    while i < row.len()
        invariant
            i <= row.len(),
            cur.len() > 0 <==> i > 0 && is_digit(row@[i - 1]),
            digit_runs(row@.take(i as int)) == (if cur.len() > 0 {
                run_views(done@).push((start as int, cur@))
            } else {
                run_views(done@)
            }),
        decreases row.len() - i,
    {
        let c = row[i];
        let ghost prev = digit_runs(row@.take(i as int));
        let ghost old_done = run_views(done@);
        let ghost old_cur = cur@;
        proof {
            assert(row@.take(i + 1).drop_last() =~= row@.take(i as int));
            assert(row@.take(i + 1).last() == c);
            if i > 0 {
                assert(row@.take(i + 1)[i - 1] == row@[i - 1]);
            }
        }
        if digit_of(c).is_some() {
            if cur.len() == 0 {
                start = i;
            }
            cur.push(c);
            proof {
                if old_cur.len() > 0 {
                    assert(prev.drop_last() =~= old_done);
                    assert(prev.last() == (start as int, old_cur));
                } else {
                    assert(cur@ =~= seq![c]);
                }
            }
        } else {
            if cur.len() > 0 {
                done.push((start, cur));
                cur = Vec::new();
                assert(run_views(done@) =~= old_done.push((start as int, old_cur)));
            }
        }
        i += 1;
    }
    assert(row@.take(row.len() as int) =~= row@);
    if cur.len() > 0 {
        let ghost before = run_views(done@);
        let ghost last = cur@;
        done.push((start, cur));
        assert(run_views(done@) =~= before.push((start as int, last)));
    }
    done
}

/// Every stretch of digits is a row of one or more digits that starts within
/// the row.
pub proof fn lemma_digit_runs(row: Seq<char>, k: int)
    requires
        0 <= k < digit_runs(row).len(),
    ensures
        digit_runs(row)[k].1.len() > 0,
        forall|i: int|
            0 <= i < digit_runs(row)[k].1.len() ==> is_digit(#[trigger] digit_runs(row)[k].1[i]),
        0 <= digit_runs(row)[k].0 < row.len(),
    decreases row.len(),
{
    if row.len() > 0 {
        let prev = digit_runs(row.drop_last());
        if !is_digit(row.last()) {
            lemma_digit_runs(row.drop_last(), k);
        } else if row.len() >= 2 && is_digit(row[row.len() - 2]) {
            lemma_digit_runs_last(row.drop_last());
            if k < prev.len() - 1 {
                lemma_digit_runs(row.drop_last(), k);
            } else {
                lemma_digit_runs(row.drop_last(), prev.len() - 1);
                let grown = prev.last().1.push(row.last());
                assert forall|i: int| 0 <= i < grown.len() implies is_digit(
                    #[trigger] grown[i],
                ) by {
                    if i < grown.len() - 1 {
                        assert(grown[i] == prev.last().1[i]);
                    }
                }
            }
        } else {
            if k < prev.len() {
                lemma_digit_runs(row.drop_last(), k);
            }
        }
    }
}

/// A row that ends in a digit has a stretch of digits.
proof fn lemma_digit_runs_last(row: Seq<char>)
    requires
        row.len() > 0,
        is_digit(row.last()),
    ensures
        digit_runs(row).len() > 0,
    decreases row.len(),
{
    if row.len() >= 2 && is_digit(row[row.len() - 2]) {
        lemma_digit_runs_last(row.drop_last());
    }
}

/// Whether the schematic `grid` can be searched.
pub fn check_grid(grid: &Vec<Vec<char>>) -> (ok: bool)
    ensures
        ok == searchable(views(grid@)),
{
    let ghost rows = views(grid@);
    if grid.len() == 0 {
        return false;
    }
    assert(rows[0] == grid[0]@);
    let width: usize = grid[0].len();
    if grid.len() as u64 > 0x7FFF_FFFFu64 || width as u64 > 0x7FFF_FFFFu64 {
        return false;
    }
    let mut r: usize = 0;
    while r < grid.len()
        invariant
            r <= grid.len(),
            rows == views(grid@),
            width == rows[0].len(),
            forall|i: int|
                0 <= i < r ==> (#[trigger] rows[i]).len() <= rows[0].len() && (rows[i].len()
                    < rows[0].len() && rows[i].len() > 0 ==> !is_digit(rows[i].last())),
        decreases grid.len() - r,
    {
        let row = &grid[r];
        assert(rows[r as int] == row@);
        if row.len() > width {
            return false;
        }
        if row.len() < width && row.len() > 0 && digit_of(row[row.len() - 1]).is_some() {
            return false;
        }
        r += 1;
    }
    true
}

/// Finds the numbers of the schematic `grid`, if it can be searched and its
/// numbers fit in 32 bits.
#[verifier::loop_isolation(false)]
pub fn find_spots(grid: &Vec<Vec<char>>) -> (found: Option<Vec<Spot>>)
    ensures
        found is Some <==> all_spots(views(grid@)) is Some,
        found is Some ==> found->0@ == all_spots(views(grid@))->0,
{
    let ghost rows = views(grid@);
    if !check_grid(grid) {
        return None;
    }
    assert(rows[0] == grid[0]@);
    let mut numbers: Vec<Spot> = Vec::new();
    let mut i: usize = 0;
    while i < grid.len()
        invariant
            i <= grid.len(),
            forall|r: int| 0 <= r < i ==> #[trigger] runs_fit(rows[r]),
            numbers@ == spots(rows, i as int),
        decreases grid.len() - i,
    {
        let row = &grid[i];
        assert(rows[i as int] == row@);
        let runs = find_runs(row);
        let ghost before = numbers@;
        let mut k: usize = 0;
        while k < runs.len()
            invariant
                k <= runs.len(),
                run_views(runs@) == digit_runs(row@),
                forall|n: int|
                    0 <= n < k ==> number((#[trigger] digit_runs(row@)[n]).1) <= u32::MAX,
                numbers@ == before + spots_in_row(row@, i as int).take(k as int),
            decreases runs.len() - k,
        {
            proof {
                lemma_digit_runs(row@, k as int);
                assert(run_views(runs@)[k as int] == (runs[k as int].0 as int, runs[k as int].1@));
            }
            let digits = &runs[k].1;
            assert(digits@[0] != '+');
            match parse_u32(digits) {
                Some(value) => {
                    numbers.push(Spot { number: value, x: runs[k].0 as i32, y: i as i32 });
                    assert(numbers@ =~= before + spots_in_row(row@, i as int).take(k + 1));
                },
                None => {
                    assert(!runs_fit(rows[i as int]));
                    return None;
                },
            }
            k += 1;
        }
        assert(spots_in_row(row@, i as int).take(runs.len() as int) =~= spots_in_row(
            row@,
            i as int,
        ));
        assert(runs_fit(rows[i as int]));
        i += 1;
    }
    Some(numbers)
}

/// Counts the decimal digits of `value`.
pub fn decimal_len(value: u32) -> (n: i32)
    ensures
        n == size_of(value),
        1 <= n <= 10,
    decreases value,
{
    if value < 10 {
        1
    } else {
        let n = decimal_len(value / 10);
        proof {
            lemma_decimal_len(value as nat);
        }
        n + 1
    }
}

/// A number of 32 bits has at most ten decimal digits.
proof fn lemma_decimal_len(n: nat)
    ensures
        n < 10 ==> decimal(n).len() <= 1,
        n < 100 ==> decimal(n).len() <= 2,
        n < 1000 ==> decimal(n).len() <= 3,
        n < 10000 ==> decimal(n).len() <= 4,
        n < 100000 ==> decimal(n).len() <= 5,
        n < 1000000 ==> decimal(n).len() <= 6,
        n < 10000000 ==> decimal(n).len() <= 7,
        n < 100000000 ==> decimal(n).len() <= 8,
        n < 1000000000 ==> decimal(n).len() <= 9,
        n < 10000000000 ==> decimal(n).len() <= 10,
    decreases n,
{
    if n >= 10 {
        lemma_decimal_len(n / 10);
    }
}

/// Whether `c` is a mark.
fn check_mark(c: char, gears_only: bool) -> (b: bool)
    ensures
        b == is_mark(c, gears_only),
{
    if gears_only {
        c == '*'
    } else {
        c == '*' || c == '-' || c == '+' || c == '#' || c == '&' || c == '$' || c == '='
            || c == '%' || c == '@' || c == '/'
    }
}

/// Searches the places around the number `spot` of `grid` for the first mark.
#[verifier::loop_isolation(false)]
pub fn find_mark(grid: &Vec<Vec<char>>, spot: &Spot, gears_only: bool) -> (found: Option<
    Option<(i32, i32)>,
>)
    requires
        grid.len() > 0,
        grid.len() <= i32::MAX,
        grid[0].len() <= i32::MAX,
        0 <= spot.x,
        0 <= spot.y < i32::MAX,
    ensures
        found == mark_of(views(grid@), *spot, gears_only),
{
    let ghost rows = views(grid@);
    assert(rows[0] == grid[0]@);
    let size: i32 = decimal_len(spot.number);
    if spot.x > i32::MAX - size {
        return None;
    }
    let span: i32 = size + 2;
    let height: i32 = grid.len() as i32;
    let width: i32 = grid[0].len() as i32;
    let mut di: i32 = 0;
    while di < 3
        invariant
            0 <= di <= 3,
            mark_of(rows, *spot, gears_only) == first_mark(rows, *spot, gears_only, di * span),
        decreases 3 - di,
    {
        let i: i32 = spot.y - 1 + di;
        let mut dj: i32 = 0;
        while dj < span
            invariant
                0 <= dj <= span,
                0 <= di < 3,
                i == spot.y - 1 + di,
                mark_of(rows, *spot, gears_only) == first_mark(
                    rows,
                    *spot,
                    gears_only,
                    di * span + dj,
                ),
            decreases span - dj,
        {
            let j: i32 = spot.x - 1 + dj;
            let ghost k: int = di * span + dj;
            proof {
                assert(k / (span as int) == di && k % (span as int) == dj) by (nonlinear_arith)
                    requires
                        k == di * span + dj,
                        0 <= dj < span,
                        0 <= di,
                ;
                assert(0 <= k < 3 * span) by (nonlinear_arith)
                    requires
                        k == di * span + dj,
                        0 <= dj < span,
                        0 <= di < 3,
                ;
            }
            if i >= 0 && i < height && j >= 0 && j < width {
                let row = &grid[i as usize];
                assert(rows[i as int] == row@);
                if j as usize >= row.len() {
                    return None;
                }
                if check_mark(row[j as usize], gears_only) {
                    return Some(Some((j, i)));
                }
            }
            dj += 1;
        }
        proof {
            assert(di * span + span == (di + 1) * span) by (nonlinear_arith);
        }
        di += 1;
    }
    Some(None)
}

/// Every number of a schematic lies within its rows and the columns of its
/// first row.
pub proof fn lemma_spots_within(rows: Seq<Seq<char>>, n: int, k: int)
    requires
        searchable(rows),
        0 <= n <= rows.len(),
        0 <= k < spots(rows, n).len(),
    ensures
        0 <= spots(rows, n)[k].x,
        0 <= spots(rows, n)[k].y < i32::MAX,
    decreases n,
{
    if n > 0 {
        if k < spots(rows, n - 1).len() {
            lemma_spots_within(rows, n - 1, k);
        } else {
            let m = k - spots(rows, n - 1).len();
            assert(rows[n - 1].len() <= rows[0].len());
            lemma_digit_runs(rows[n - 1], m);
        }
    }
}

} // verus!
