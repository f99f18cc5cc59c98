use vstd::prelude::*;
use crate::tally::{sum_usize, total_usize};
use crate::text::{chars_of, decimal, decimal_string, lines, lines_of, views};

verus! {

/// What lies on one place of the platform: a round rock, which rolls, a
/// square rock, which stays, or nothing.
#[derive(Copy, Clone, Debug, PartialEq, Eq, Structural)]
pub enum Thing {
    Sphere,
    Cube,
    Empty,
}

/// What the character `c` stands for: `O` for a round rock, `#` for a square
/// rock, and `.` for nothing. No other character stands for anything.
pub open spec fn thing_of(c: char) -> Option<Thing> {
    if c == 'O' {
        Some(Thing::Sphere)
    } else if c == '#' {
        Some(Thing::Cube)
    } else if c == '.' {
        Some(Thing::Empty)
    } else {
        None
    }
}

/// Whether each character of `lines` stands for something.
pub open spec fn readable(lines: Seq<Seq<char>>) -> bool {
    forall|r: int, c: int|
        0 <= r < lines.len() && 0 <= c < lines[r].len() ==> (#[trigger] thing_of(lines[r][c]))
            is Some
}

/// The platform that `lines` show.
pub open spec fn platform_of(lines: Seq<Seq<char>>) -> Seq<Seq<Thing>> {
    Seq::new(lines.len(), |r: int| Seq::new(lines[r].len(), |c: int| thing_of(lines[r][c])->0))
}

/// The contents of a platform.
pub open spec fn grid(platform: Seq<Vec<Thing>>) -> Seq<Seq<Thing>> {
    Seq::new(platform.len(), |i: int| platform[i]@)
}

/// The row in which a round rock that lies in row `i` and column `j` of
/// `rows` comes to rest when it rolls north: the first row at or above its own
/// with the edge of the platform or something other than nothing right above
/// it. There is none if the platform has no place right above the rock on its
/// way.
pub open spec fn resting_row(rows: Seq<Seq<Thing>>, i: int, j: int) -> Option<int>
    decreases i,
{
    if i <= 0 {
        Some(0)
    } else if j >= rows[i - 1].len() {
        None
    } else if rows[i - 1][j] == Thing::Empty {
        resting_row(rows, i - 1, j)
    } else {
        Some(i)
    }
}

/// `rows` with `thing` in row `i` and column `j`.
pub open spec fn with_thing(rows: Seq<Seq<Thing>>, i: int, j: int, thing: Thing) -> Seq<
    Seq<Thing>,
> {
    rows.update(i, rows[i].update(j, thing))
}

/// `rows` after the round rock in row `i` and column `j` has rolled north to
/// row `to`.
pub open spec fn rolled(rows: Seq<Seq<Thing>>, i: int, j: int, to: int) -> Seq<Seq<Thing>> {
    with_thing(with_thing(rows, i, j, Thing::Empty), to, j, Thing::Sphere)
}

/// `rows` after each round rock from row `i` and column `j` on, taken row by
/// row from the west, has rolled north until it came to rest.
pub open spec fn tilted_from(rows: Seq<Seq<Thing>>, i: int, j: int) -> Option<Seq<Seq<Thing>>>
    decreases rows.len() - i, rows[i].len() - j,
{
    if i < 0 || i >= rows.len() || j < 0 {
        Some(rows)
    } else if j >= rows[i].len() {
        tilted_from(rows, i + 1, 0)
    } else if rows[i][j] == Thing::Sphere {
        match resting_row(rows, i, j) {
            Some(to) => if 0 <= to <= i && j < rows[to].len() {
                let next = rolled(rows, i, j, to);
                if next.len() == rows.len() && next[i].len() == rows[i].len() {
                    tilted_from(next, i, j + 1)
                } else {
                    None
                }
            } else {
                None
            },
            None => None,
        }
    } else {
        tilted_from(rows, i, j + 1)
    }
}

/// The platform `rows` tilted north. There is none if a rock would roll over
/// a place that the platform does not have.
pub open spec fn tilted(rows: Seq<Seq<Thing>>) -> Option<Seq<Seq<Thing>>> {
    tilted_from(rows, 1, 0)
}

/// The number of round rocks in `row`.
pub open spec fn spheres_in(row: Seq<Thing>) -> nat
    decreases row.len(),
{
    if row.len() == 0 {
        0
    } else {
        spheres_in(row.drop_last()) + (if row.last() == Thing::Sphere {
            1nat
        } else {
            0nat
        })
    }
}

/// The load that row `i` of `rows` puts on the north beams: the number of its
/// round rocks times the number of rows from it to the south edge, if that
/// fits in a machine-sized number.
pub open spec fn row_load(rows: Seq<Seq<Thing>>, i: int) -> Option<usize> {
    let weight = spheres_in(rows[i]) * (rows.len() - i);
    if weight <= usize::MAX {
        Some(weight as usize)
    } else {
        None
    }
}

/// The loads of all rows of `rows`.
pub open spec fn row_loads(rows: Seq<Seq<Thing>>) -> Seq<Option<usize>> {
    Seq::new(rows.len(), |i: int| row_load(rows, i))
}

/// The total load of `rows` on the north beams.
pub open spec fn load(rows: Seq<Seq<Thing>>) -> Option<usize> {
    total_usize(row_loads(rows))
}

/// The answer to the puzzle `input`: the load of its platform once tilted
/// north.
pub open spec fn answer(input: Seq<char>) -> Option<usize> {
    if readable(lines(input)) {
        match tilted(platform_of(lines(input))) {
            Some(rows) => load(rows),
            None => None,
        }
    } else {
        None
    }
}

impl Thing {
    /// Reads what the character `c` stands for, if it stands for something.
    pub fn read(c: char) -> (found: Option<Thing>)
        ensures
            found == thing_of(c),
    {
        match c {
            'O' => Some(Thing::Sphere),
            '#' => Some(Thing::Cube),
            '.' => Some(Thing::Empty),
            _ => None,
        }
    }

    /// What the character `c` stands for.
    pub fn from_char(c: char) -> (thing: Thing)
        requires
            thing_of(c) is Some,
        ensures
            thing == thing_of(c)->0,
    {
        Thing::read(c).unwrap()
    }
}

/// Reads the platform that the lines `all` show, if they show one.
pub fn read_platform(all: &Vec<Vec<char>>) -> (found: Option<Vec<Vec<Thing>>>)
    ensures
        found is Some <==> readable(views(all@)),
        found is Some ==> grid(found->0@) == platform_of(views(all@)),
{
    let ghost shown = views(all@);
    let mut platform: Vec<Vec<Thing>> = Vec::new();
    let mut r: usize = 0;
    while r < all.len()
        invariant
            r <= all.len(),
            shown == views(all@),
            platform.len() == r,
            forall|i: int, c: int|
                0 <= i < r && 0 <= c < shown[i].len() ==> (#[trigger] thing_of(shown[i][c]))
                    is Some,
            forall|i: int| 0 <= i < r ==> (#[trigger] platform[i])@ == platform_of(shown)[i],
        decreases all.len() - r,
    {
        let line = &all[r];
        assert(shown[r as int] == line@);
        let mut row: Vec<Thing> = Vec::new();
        let mut c: usize = 0;
        while c < line.len()
            invariant
                c <= line.len(),
                r < all.len(),
                shown == views(all@),
                shown[r as int] == line@,
                row.len() == c,
                forall|k: int| 0 <= k < c ==> (#[trigger] thing_of(line@[k])) is Some,
                forall|k: int| 0 <= k < c ==> (#[trigger] row[k]) == thing_of(line@[k])->0,
            decreases line.len() - c,
        {
            match Thing::read(line[c]) {
                Some(thing) => {
                    row.push(thing);
                },
                None => {
                    assert(thing_of(shown[r as int][c as int]) is None);
                    return None;
                },
            }
            c += 1;
        }
        assert(row@ =~= platform_of(shown)[r as int]);
        platform.push(row);
        r += 1;
    }
    assert(grid(platform@) =~= platform_of(shown));
    Some(platform)
}

/// The platform that `input` shows, one row to a line.
pub fn parse_platform(input: &str) -> (platform: Vec<Vec<Thing>>)
    requires
        readable(lines(input@)),
    ensures
        grid(platform@) == platform_of(lines(input@)),
{
    let chars = chars_of(input);
    let all = lines_of(&chars);
    read_platform(&all).unwrap()
}

/// Lets the round rock in row `i` and column `j` roll north until it comes to
/// rest, if the platform has the places for it.
fn roll(platform: &mut Vec<Vec<Thing>>, i: usize, j: usize) -> (done: bool)
    requires
        i < old(platform).len(),
        j < old(platform)[i as int].len(),
        old(platform)[i as int][j as int] == Thing::Sphere,
    ensures
        final(platform).len() == old(platform).len(),
        final(platform)[i as int].len() == old(platform)[i as int].len(),
        done <==> resting_row(grid(old(platform)@), i as int, j as int) is Some,
        done ==> 0 <= resting_row(grid(old(platform)@), i as int, j as int)->0 <= i,
        done ==> j < old(platform)[resting_row(
            grid(old(platform)@),
            i as int,
            j as int,
        )->0].len(),
        done ==> grid(final(platform)@) == rolled(
            grid(old(platform)@),
            i as int,
            j as int,
            resting_row(grid(old(platform)@), i as int, j as int)->0,
        ),
{
    let ghost rows = grid(platform@);
    let mut i_index: usize = i;
    while i_index > 0 && j < platform[i_index - 1].len() && platform[i_index - 1][j]
        == Thing::Empty
        invariant
            i_index <= i < platform.len(),
            platform@ == old(platform)@,
            rows == grid(platform@),
            j < platform[i_index as int].len(),
            resting_row(rows, i as int, j as int) == resting_row(rows, i_index as int, j as int),
        decreases i_index,
    {
        assert(rows[i_index - 1] == platform[i_index - 1]@);
        i_index -= 1;
    }
    if i_index > 0 {
        assert(rows[i_index - 1] == platform[i_index - 1]@);
        if j >= platform[i_index - 1].len() {
            return false;
        }
    }
    assert(resting_row(rows, i as int, j as int) == Some(i_index as int));
    assert(rows[i as int] == platform[i as int]@);
    assert(rows[i_index as int] == platform[i_index as int]@);
    platform[i][j] = Thing::Empty;
    platform[i_index][j] = Thing::Sphere;
    assert(grid(platform@) =~= rolled(rows, i as int, j as int, i_index as int));
    true
}

/// Tilts `platform` north, if it has the places for its rocks to roll.
#[verifier::loop_isolation(false)]
pub fn try_tilt(platform: Vec<Vec<Thing>>) -> (found: Option<Vec<Vec<Thing>>>)
    ensures
        found is Some <==> tilted(grid(platform@)) is Some,
        found is Some ==> grid(found->0@) == tilted(grid(platform@))->0,
{
    let ghost start = grid(platform@);
    let n: usize = platform.len();
    let mut moved = platform;
    let mut i: usize = 1;
    while i < n
        invariant
            1 <= i,
            moved.len() == n,
            tilted(start) == tilted_from(grid(moved@), i as int, 0),
        decreases n - i,
    {
        let mut j: usize = 0;
        let width: usize = moved[i].len();
        while j < width
            invariant
                1 <= i < n,
                moved.len() == n,
                j <= width,
                width == moved[i as int].len(),
                tilted(start) == tilted_from(grid(moved@), i as int, j as int),
            decreases width - j,
        {
            assert(grid(moved@)[i as int] == moved[i as int]@);
            if moved[i][j] == Thing::Sphere {
                if !roll(&mut moved, i, j) {
                    return None;
                }
            }
            j += 1;
        }
        assert(grid(moved@)[i as int] == moved[i as int]@);
        i += 1;
    }
    Some(moved)
}

/// The platform tilted north: each round rock, taken row by row, has rolled
/// north until it came to rest.
pub fn tilt_platform(platform: Vec<Vec<Thing>>) -> (moved: Vec<Vec<Thing>>)
    requires
        tilted(grid(platform@)) is Some,
    ensures
        grid(moved@) == tilted(grid(platform@))->0,
{
    try_tilt(platform).unwrap()
}

/// Counts the round rocks in `row`.
pub fn count_spheres(row: &Vec<Thing>) -> (n: usize)
    ensures
        n == spheres_in(row@),
{
    let mut n: usize = 0;
    let mut i: usize = 0;
    assert(row@.take(0) =~= Seq::<Thing>::empty());
    while i < row.len()
        invariant
            i <= row.len(),
            n == spheres_in(row@.take(i as int)),
            n <= i,
        decreases row.len() - i,
    {
        assert(row@.take(i + 1).drop_last() =~= row@.take(i as int));
        if row[i] == Thing::Sphere {
            n += 1;
        }
        i += 1;
    }
    assert(row@.take(row.len() as int) =~= row@);
    n
}

/// Computes the total load of `platform` on the north beams, if it fits in a
/// machine-sized number.
pub fn checked_load(platform: &[Vec<Thing>]) -> (found: Option<usize>)
    ensures
        found == load(grid(platform@)),
{
    let total_rows: usize = platform.len();
    let ghost rows = grid(platform@);
    let mut loads: Vec<Option<usize>> = Vec::new();
    let mut i: usize = 0;
    while i < total_rows
        invariant
            i <= total_rows,
            total_rows == platform.len(),
            rows == grid(platform@),
            loads.len() == i,
            forall|k: int| 0 <= k < i ==> (#[trigger] loads[k]) == row_load(rows, k),
        decreases total_rows - i,
    {
        assert(rows[i as int] == platform[i as int]@);
        loads.push(count_spheres(&platform[i]).checked_mul(total_rows - i));
        i += 1;
    }
    assert(loads@ =~= row_loads(rows));
    sum_usize(&loads)
}

/// The total load of `platform` on the north beams: for each round rock the
/// number of rows from it to the south edge.
pub fn calculate_load(platform: &[Vec<Thing>]) -> (total: usize)
    requires
        load(grid(platform@)) is Some,
    ensures
        total == load(grid(platform@))->0,
{
    checked_load(platform).unwrap()
}

/// Computes the answer to the puzzle `input`, if it has one.
pub fn solve(input: &Vec<char>) -> (found: Option<usize>)
    ensures
        found == answer(input@),
{
    let all = lines_of(input);
    match read_platform(&all) {
        Some(platform) => match try_tilt(platform) {
            Some(moved) => checked_load(moved.as_slice()),
            None => None,
        },
        None => None,
    }
}

/// The answer to the puzzle `input`, in decimal digits.
pub fn process(input: &str) -> (out: String)
    requires
        answer(input@) is Some,
    ensures
        out@ == decimal(answer(input@)->0 as nat),
{
    let chars = chars_of(input);
    decimal_string(solve(&chars).unwrap() as u64)
}

} // verus!
