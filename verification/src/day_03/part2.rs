use vstd::prelude::*;
use crate::day_03::schematic::{
    all_spots, find_mark, find_spots, lemma_spots_within, mark_of, read_rows, rows_of, searchable,
    Spot,
};
use crate::tally::{sum_u32, total_u32};
use crate::text::{chars_of, decimal, decimal_string, views};

verus! {

/// The gear next to a number, if there is one: its column and its row.
#[derive(Debug, PartialEq, Eq)]
pub enum GearOrNot {
    NoGear,
    GearLoc(i32, i32),
}

/// The place of a gear.
#[derive(Debug, PartialEq, Eq, Hash)]
pub struct Gear {
    pub x: i32,
    pub y: i32,
}

/// A number of the schematic, and the gear next to it.
#[derive(Debug)]
pub struct Number {
    pub number: u32,
    pub x: i32,
    pub y: i32,
    pub gear: GearOrNot,
}

impl Number {
    /// The number with its place.
    pub open spec fn spot(self) -> Spot {
        Spot { number: self.number, x: self.x, y: self.y }
    }
}

/// The first gears around each of the numbers `found` of `rows`, if the
/// search around each of them can be done.
pub open spec fn gears_of(rows: Seq<Seq<char>>, found: Seq<Spot>) -> Option<
    Seq<Option<(i32, i32)>>,
> {
    if forall|k: int| 0 <= k < found.len() ==> (#[trigger] mark_of(rows, found[k], true)) is Some {
        Some(Seq::new(found.len(), |k: int| mark_of(rows, found[k], true)->0))
    } else {
        None
    }
}

/// How many of the first `n` numbers have the gear `gear`.
pub open spec fn count_with(gears: Seq<Option<(i32, i32)>>, gear: (i32, i32), n: int) -> nat
    decreases n,
{
    if n <= 0 {
        0
    } else {
        count_with(gears, gear, n - 1) + (if gears[n - 1] == Some(gear) {
            1nat
        } else {
            0nat
        })
    }
}

/// The product of those of the first `n` numbers that have the gear `gear`.
pub open spec fn product_with(
    found: Seq<Spot>,
    gears: Seq<Option<(i32, i32)>>,
    gear: (i32, i32),
    n: int,
) -> nat
    decreases n,
{
    if n <= 0 {
        1
    } else if gears[n - 1] == Some(gear) {
        product_with(found, gears, gear, n - 1) * (found[n - 1].number as nat)
    } else {
        product_with(found, gears, gear, n - 1)
    }
}

/// What number `k` adds to the answer: if it is the first number of its gear,
/// and that gear has exactly two numbers, the product of the two, and zero
/// otherwise. There is none if the product does not fit in 32 bits.
pub open spec fn ratio(found: Seq<Spot>, gears: Seq<Option<(i32, i32)>>, k: int) -> Option<u32> {
    match gears[k] {
        Some(gear) => if count_with(gears, gear, k) == 0 && count_with(
            gears,
            gear,
            gears.len() as int,
        ) == 2 {
            let product = product_with(found, gears, gear, gears.len() as int);
            if product <= u32::MAX {
                Some(product as u32)
            } else {
                None
            }
        } else {
            Some(0)
        },
        None => Some(0),
    }
}

/// What each number adds to the answer.
pub open spec fn ratios(found: Seq<Spot>, gears: Seq<Option<(i32, i32)>>) -> Seq<Option<u32>> {
    Seq::new(found.len(), |k: int| ratio(found, gears, k))
}

/// The answer to the puzzle `input`: the sum, over the gears with exactly two
/// numbers, of the product of the two. The gear of a number is the first gear
/// found around it. There is none if the schematic cannot be searched, or a
/// number, a product or the sum does not fit in 32 bits.
pub open spec fn answer(input: Seq<char>) -> Option<u32> {
    match all_spots(rows_of(input)) {
        Some(found) => match gears_of(rows_of(input), found) {
            Some(gears) => total_u32(ratios(found, gears)),
            None => None,
        },
        None => None,
    }
}

/// Notes on `number` the first gear that stands around it in `grid`.
pub fn is_geared(grid: &Vec<Vec<char>>, number: &mut Number)
    requires
        grid.len() > 0,
        grid.len() <= i32::MAX,
        grid[0].len() <= i32::MAX,
        0 <= old(number).x,
        0 <= old(number).y < i32::MAX,
        mark_of(views(grid@), old(number).spot(), true) is Some,
    ensures
        final(number).spot() == old(number).spot(),
        final(number).gear == (match mark_of(views(grid@), old(number).spot(), true)->0 {
            Some((x, y)) => GearOrNot::GearLoc(x, y),
            None => old(number).gear,
        }),
{
    let spot = Spot { number: number.number, x: number.x, y: number.y };
    match find_mark(grid, &spot, true) {
        Some(Some((j, i))) => {
            number.gear = GearOrNot::GearLoc(j, i);
        },
        _ => {},
    }
}

/// Computes what number `k` adds to the answer.
fn ratio_of(numbers: &Vec<Spot>, gears: &Vec<Option<(i32, i32)>>, k: usize) -> (found: Option<u32>)
    requires
        numbers.len() == gears.len(),
        k < numbers.len(),
    ensures
        found == ratio(numbers@, gears@, k as int),
{
    let gear = match gears[k] {
        Some(g) => g,
        None => {
            return Some(0);
        },
    };
    let mut count: usize = 0;
    let mut before: usize = 0;
    let mut product: u64 = 1;
    let mut i: usize = 0;
    while i < numbers.len()
        invariant
            i <= numbers.len(),
            numbers.len() == gears.len(),
            k < numbers.len(),
            gears[k as int] == Some(gear),
            count == count_with(gears@, gear, i as int),
            count <= i,
            before == count_with(gears@, gear, if i <= k {
                i as int
            } else {
                k as int
            }),
            count == 0 ==> product == 1,
            count == 1 ==> product <= u32::MAX,
            count <= 2 ==> product == product_with(numbers@, gears@, gear, i as int),
        decreases numbers.len() - i,
    {
        let same = match gears[i] {
            Some(g) => g.0 == gear.0 && g.1 == gear.1,
            None => false,
        };
        assert(same == (gears[i as int] == Some(gear)));
        if same {
            if count < 2 {
                let value: u64 = numbers[i].number as u64;
                assert(product * value <= 0xFFFF_FFFF * 0xFFFF_FFFF) by (nonlinear_arith)
                    requires
                        product <= 0xFFFF_FFFF,
                        value <= 0xFFFF_FFFF,
                ;
                product = product * value;
            }
            count += 1;
            if i < k {
                before += 1;
            }
        }
        i += 1;
    }
    if before == 0 && count == 2 {
        if product > u32::MAX as u64 {
            None
        } else {
            Some(product as u32)
        }
    } else {
        Some(0)
    }
}

/// Computes the answer to the puzzle `input`, if it has one.
pub fn solve(input: &Vec<char>) -> (found: Option<u32>)
    ensures
        found == answer(input@),
{
    let grid = read_rows(input);
    let ghost rows = views(grid@);
    let numbers = match find_spots(&grid) {
        Some(v) => v,
        None => {
            return None;
        },
    };
    assert(rows[0] == grid[0]@);
    let mut gears: Vec<Option<(i32, i32)>> = Vec::new();
    let mut k: usize = 0;
    while k < numbers.len()
        invariant
            k <= numbers.len(),
            rows == views(grid@),
            rows == rows_of(input@),
            searchable(rows),
            rows[0] == grid[0]@,
            numbers@ == all_spots(rows)->0,
            all_spots(rows) is Some,
            gears.len() == k,
            forall|i: int| 0 <= i < k ==> (#[trigger] mark_of(rows, numbers@[i], true)) is Some,
            forall|i: int| 0 <= i < k ==> (#[trigger] gears[i]) == mark_of(
                rows,
                numbers@[i],
                true,
            )->0,
        decreases numbers.len() - k,
    {
        proof {
            lemma_spots_within(rows, rows.len() as int, k as int);
        }
        match find_mark(&grid, &numbers[k], true) {
            Some(gear) => {
                gears.push(gear);
            },
            None => {
                assert(mark_of(rows, numbers@[k as int], true) is None);
                return None;
            },
        }
        k += 1;
    }
    assert(gears@ =~= gears_of(rows, numbers@)->0);
    let mut values: Vec<Option<u32>> = Vec::new();
    let mut n: usize = 0;
    while n < numbers.len()
        invariant
            n <= numbers.len(),
            numbers.len() == gears.len(),
            values.len() == n,
            forall|i: int| 0 <= i < n ==> (#[trigger] values[i]) == ratio(numbers@, gears@, i),
        decreases numbers.len() - n,
    {
        values.push(ratio_of(&numbers, &gears, n));
        n += 1;
    }
    assert(values@ =~= ratios(numbers@, gears@));
    sum_u32(&values)
}

/// The answer to the puzzle `input`, in decimal digits.
pub fn process(_input: &str) -> (out: String)
    requires
        answer(_input@) is Some,
    ensures
        out@ == decimal(answer(_input@)->0 as nat),
{
    let chars = chars_of(_input);
    decimal_string(solve(&chars).unwrap() as u64)
}

} // verus!
