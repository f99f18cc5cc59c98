use vstd::prelude::*;
use crate::day_03::schematic::{
    all_spots, find_mark, find_spots, lemma_spots_within, mark_of, read_rows, rows_of, searchable,
    Spot,
};
use crate::tally::{sum_u32, total_u32};
use crate::text::{chars_of, decimal, decimal_string, views};

verus! {

/// A number of the schematic, and whether a symbol stands next to it.
pub struct Number {
    pub number: u32,
    pub x: i32,
    pub y: i32,
    pub tagged: bool,
}

impl Number {
    /// The number with its place.
    pub open spec fn spot(self) -> Spot {
        Spot { number: self.number, x: self.x, y: self.y }
    }
}

/// What the number `spot` of `rows` adds to the answer: its value if a symbol
/// stands around it, and zero otherwise. There is none if the search around it
/// cannot be done.
pub open spec fn part_value(rows: Seq<Seq<char>>, spot: Spot) -> Option<u32> {
    match mark_of(rows, spot, false) {
        Some(Some(_)) => Some(spot.number),
        Some(None) => Some(0),
        None => None,
    }
}

/// What each of `found` adds to the answer.
pub open spec fn part_values(rows: Seq<Seq<char>>, found: Seq<Spot>) -> Seq<Option<u32>> {
    Seq::new(found.len(), |k: int| part_value(rows, found[k]))
}

/// The answer to the puzzle `input`: the sum of the numbers of its schematic
/// next to which a symbol stands. There is none if the schematic cannot be
/// searched, or a number or the sum does not fit in 32 bits.
pub open spec fn answer(input: Seq<char>) -> Option<u32> {
    match all_spots(rows_of(input)) {
        Some(found) => total_u32(part_values(rows_of(input), found)),
        None => None,
    }
}

/// Tags `number` if a symbol stands around it in `grid`.
pub fn get_surrounding_squares_tag(grid: &Vec<Vec<char>>, number: &mut Number)
    requires
        grid.len() > 0,
        grid.len() <= i32::MAX,
        grid[0].len() <= i32::MAX,
        0 <= old(number).x,
        0 <= old(number).y < i32::MAX,
        mark_of(views(grid@), old(number).spot(), false) is Some,
    ensures
        final(number).spot() == old(number).spot(),
        final(number).tagged == (old(number).tagged || mark_of(
            views(grid@),
            old(number).spot(),
            false,
        )->0 is Some),
{
    let spot = Spot { number: number.number, x: number.x, y: number.y };
    match find_mark(grid, &spot, false) {
        Some(Some(_)) => {
            number.tagged = true;
        },
        _ => {},
    }
}

/// Computes the answer to the puzzle `input`, if it has one.
pub fn solve(input: &Vec<char>) -> (found: Option<u32>)
    ensures
        found == answer(input@),
{
    let grid = read_rows(input);
    let ghost rows = views(grid@);
    let numbers = match find_spots(&grid) {
        Some(v) => v,
        None => {
            return None;
        },
    };
    assert(rows[0] == grid[0]@);
    let mut values: Vec<Option<u32>> = Vec::new();
    let mut k: usize = 0;
    while k < numbers.len()
        invariant
            k <= numbers.len(),
            rows == views(grid@),
            searchable(rows),
            rows[0] == grid[0]@,
            numbers@ == all_spots(rows)->0,
            all_spots(rows) is Some,
            values.len() == k,
            forall|i: int| 0 <= i < k ==> (#[trigger] values[i]) == part_value(rows, numbers[i]),
        decreases numbers.len() - k,
    {
        proof {
            lemma_spots_within(rows, rows.len() as int, k as int);
        }
        let value = match find_mark(&grid, &numbers[k], false) {
            Some(Some(_)) => Some(numbers[k].number),
            Some(None) => Some(0),
            None => None,
        };
        values.push(value);
        k += 1;
    }
    assert(values@ =~= part_values(rows, numbers@));
    sum_u32(&values)
}

/// The answer to the puzzle `input`, in decimal digits.
pub fn process(_input: &str) -> (out: String)
    requires
        answer(_input@) is Some,
    ensures
        out@ == decimal(answer(_input@)->0 as nat),
{
    let chars = chars_of(_input);
    decimal_string(solve(&chars).unwrap() as u64)
}

} // verus!
