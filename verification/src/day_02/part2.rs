use vstd::prelude::*;
use crate::day_02::cubes::{game_draws, parsed_draw, read_draw, read_game, Cubes, Draw};
use crate::tally::{sum_u32, total_u32};
use crate::text::{chars_of, decimal, decimal_string, split, split_on, views};

verus! {

/// The numbers of red, green and blue cubes of one draw.
#[derive(Debug, PartialEq)]
pub struct RGB {
    pub red: u32,
    pub green: u32,
    pub blue: u32,
}

impl View for RGB {
    type V = Draw;

    open spec fn view(&self) -> Draw {
        Draw { red: self.red as nat, green: self.green as nat, blue: self.blue as nat }
    }
}

/// The larger of two numbers.
pub open spec fn larger(a: nat, b: nat) -> nat {
    if a >= b {
        a
    } else {
        b
    }
}

/// The least bag that allows each of `draws`: of each colour the largest
/// number drawn.
pub open spec fn peak(draws: Seq<Draw>) -> Draw
    decreases draws.len(),
{
    if draws.len() == 0 {
        Draw { red: 0, green: 0, blue: 0 }
    } else {
        let before = peak(draws.drop_last());
        let d = draws.last();
        Draw {
            red: larger(before.red, d.red),
            green: larger(before.green, d.green),
            blue: larger(before.blue, d.blue),
        }
    }
}

/// The power of a draw: the product of its three numbers, if the product of
/// the first two and that of all three fit in 32 bits.
pub open spec fn power_of(d: Draw) -> Option<u32> {
    if d.red * d.green <= u32::MAX && d.red * d.green * d.blue <= u32::MAX {
        Some((d.red * d.green * d.blue) as u32)
    } else {
        None
    }
}

/// What the game on `line` adds to the answer: the power of the least bag that
/// allows all its draws. There is none if one of its draws, with numbers of 32
/// bits, cannot be read, or the power does not fit in 32 bits.
pub open spec fn line_power(line: Seq<char>) -> Option<u32> {
    match game_draws(line, u32::MAX as nat) {
        Some(draws) => power_of(peak(draws)),
        None => None,
    }
}

/// What the games on `lines` add to the answer.
pub open spec fn line_powers(lines: Seq<Seq<char>>) -> Seq<Option<u32>> {
    Seq::new(lines.len(), |i: int| line_power(lines[i]))
}

/// The answer to the puzzle `input`: the sum of the powers of the games, one
/// game to a line. There is none if a line cannot be read or a power or the
/// sum does not fit in 32 bits.
pub open spec fn answer(input: Seq<char>) -> Option<u32> {
    total_u32(line_powers(split_on(input, '\n')))
}

impl RGB {
    /// The power of the draw, if it fits in 32 bits.
    pub fn checked_power(&self) -> (found: Option<u32>)
        ensures
            found == power_of(self@),
    {
        match self.red.checked_mul(self.green) {
            Some(both) => both.checked_mul(self.blue),
            None => None,
        }
    }

    /// The power of the draw: the product of its three numbers.
    pub fn power(&self) -> (product: u32)
        requires
            power_of(self@) is Some,
        ensures
            product == power_of(self@)->0,
    {
        self.checked_power().unwrap()
    }
}

/// The draw that `group` describes: a list of entries such as `3 blue`, with a
/// comma between each two, each number of 32 bits.
pub fn parse_color_group(group: &str) -> (rgb: RGB)
    requires
        parsed_draw(group@, u32::MAX as nat) is Some,
    ensures
        rgb@ == parsed_draw(group@, u32::MAX as nat)->0,
{
    let chars = chars_of(group);
    let cubes = read_draw(&chars, u32::MAX as u64).unwrap();
    RGB { red: cubes.red as u32, green: cubes.green as u32, blue: cubes.blue as u32 }
}

/// Computes the least bag that allows each of `draws`.
fn peak_of(draws: &Vec<Cubes>) -> (rgb: RGB)
    requires
        forall|i: int|
            0 <= i < draws.len() ==> (#[trigger] draws[i]).red <= u32::MAX && draws[i].green
                <= u32::MAX && draws[i].blue <= u32::MAX,
    ensures
        rgb@ == peak(Seq::new(draws@.len(), |i: int| draws@[i]@)),
{
    let ghost all = Seq::new(draws@.len(), |i: int| draws@[i]@);
    let mut rgb = RGB { red: 0, green: 0, blue: 0 };
    let mut i: usize = 0;
    assert(all.take(0) =~= Seq::<Draw>::empty());
    while i < draws.len()
        invariant
            i <= draws.len(),
            all == Seq::new(draws@.len(), |i: int| draws@[i]@),
            forall|i: int|
                0 <= i < draws.len() ==> (#[trigger] draws[i]).red <= u32::MAX && draws[i].green
                    <= u32::MAX && draws[i].blue <= u32::MAX,
            rgb@ == peak(all.take(i as int)),
        decreases draws.len() - i,
    {
        proof {
            assert(all.take(i + 1).drop_last() =~= all.take(i as int));
            assert(all.take(i + 1).last() == draws@[i as int]@);
        }
        let d = &draws[i];
        if d.red as u32 > rgb.red {
            rgb.red = d.red as u32;
        }
        if d.green as u32 > rgb.green {
            rgb.green = d.green as u32;
        }
        if d.blue as u32 > rgb.blue {
            rgb.blue = d.blue as u32;
        }
        i += 1;
    }
    assert(all.take(draws.len() as int) =~= all);
    rgb
}

/// Computes what the game on `line` adds to the answer.
pub fn power_of_line(line: &Vec<char>) -> (found: Option<u32>)
    ensures
        found == line_power(line@),
{
    match read_game(line, u32::MAX as u64) {
        Some(draws) => {
            assert(Seq::new(draws@.len(), |i: int| draws@[i]@) =~= game_draws(
                line@,
                u32::MAX as nat,
            )->0);
            peak_of(&draws).checked_power()
        },
        None => None,
    }
}

/// Computes the answer to the puzzle `input`, if it has one.
pub fn solve(input: &Vec<char>) -> (found: Option<u32>)
    ensures
        found == answer(input@),
{
    let all = split(input, '\n');
    let mut values: Vec<Option<u32>> = Vec::new();
    let mut i: usize = 0;
    while i < all.len()
        invariant
            i <= all.len(),
            values.len() == i,
            forall|k: int| 0 <= k < i ==> (#[trigger] values[k]) == line_power(all[k]@),
        decreases all.len() - i,
    {
        values.push(power_of_line(&all[i]));
        i += 1;
    }
    assert(values@ =~= line_powers(views(all@)));
    sum_u32(&values)
}

/// The answer to the puzzle `input`, in decimal digits.
pub fn process(_input: &str) -> (out: String)
    requires
        answer(_input@) is Some,
    ensures
        out@ == decimal(answer(_input@)->0 as nat),
{
    let chars = chars_of(_input);
    decimal_string(solve(&chars).unwrap() as u64)
}

} // verus!
