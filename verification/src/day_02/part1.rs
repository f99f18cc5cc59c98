use vstd::prelude::*;
use crate::day_02::cubes::{game_draws, parsed_draw, read_draw, read_game, Cubes, Draw};
use crate::tally::{sum_u32, total_u32};
use crate::text::{
    chars_of, copy_range, decimal, decimal_string, find_char, index_of, parse_u32, parse_unsigned,
    split, split_on, split_whitespace, views, words,
};

verus! {

/// The numbers of red, green and blue cubes of one draw.
#[derive(Debug, PartialEq)]
pub struct RGB {
    pub red: u8,
    pub green: u8,
    pub blue: u8,
}

impl View for RGB {
    type V = Draw;

    open spec fn view(&self) -> Draw {
        Draw { red: self.red as nat, green: self.green as nat, blue: self.blue as nat }
    }
}

/// The number of the game on `line`: the last word in front of the first
/// colon, read as a number of 32 bits. There is none without a colon, without
/// a word in front of it, or if that word is no such number.
pub open spec fn game_id(line: Seq<char>) -> Option<u32> {
    match index_of(line, ':') {
        Some(i) => {
            let head = words(line.take(i));
            if head.len() > 0 {
                match parse_unsigned(head.last(), u32::MAX as nat) {
                    Some(v) => Some(v as u32),
                    None => None,
                }
            } else {
                None
            }
        },
        None => None,
    }
}

/// Whether a draw could come from a bag of 12 red, 13 green and 14 blue cubes.
pub open spec fn possible(d: Draw) -> bool {
    d.red <= 12 && d.green <= 13 && d.blue <= 14
}

/// Whether each of `draws` is possible.
pub open spec fn all_possible(draws: Seq<Draw>) -> bool {
    forall|i: int| 0 <= i < draws.len() ==> possible(#[trigger] draws[i])
}

/// What the game on `line` adds to the answer: its number if all its draws are
/// possible, and zero otherwise. There is none if the number of the game or
/// one of its draws, with numbers of 8 bits, cannot be read.
pub open spec fn line_score(line: Seq<char>) -> Option<u32> {
    match game_id(line) {
        Some(id) => match game_draws(line, u8::MAX as nat) {
            Some(draws) => Some(
                if all_possible(draws) {
                    id
                } else {
                    0
                },
            ),
            None => None,
        },
        None => None,
    }
}

/// What the games on `lines` add to the answer.
pub open spec fn line_scores(lines: Seq<Seq<char>>) -> Seq<Option<u32>> {
    Seq::new(lines.len(), |i: int| line_score(lines[i]))
}

/// The answer to the puzzle `input`: the sum of the numbers of the possible
/// games, one game to a line. There is none if a line cannot be read or the
/// sum does not fit in 32 bits.
pub open spec fn answer(input: Seq<char>) -> Option<u32> {
    total_u32(line_scores(split_on(input, '\n')))
}

/// Reads the number of the game on `line`, if it has one.
pub fn read_game_id(line: &Vec<char>) -> (found: Option<u32>)
    ensures
        found == game_id(line@),
{
    match find_char(line, ':') {
        Some(i) => {
            let head = copy_range(line, 0, i);
            assert(head@ =~= line@.take(i as int));
            let found_words = split_whitespace(&head);
            if found_words.len() > 0 {
                let last = &found_words[found_words.len() - 1];
                assert(last@ == words(head@).last());
                parse_u32(last)
            } else {
                None
            }
        },
        None => None,
    }
}

/// The number of the game on `line`.
pub fn parse_game_id(line: &str) -> (id: u32)
    requires
        game_id(line@) is Some,
    ensures
        id == game_id(line@)->0,
{
    let chars = chars_of(line);
    read_game_id(&chars).unwrap()
}

/// The draw that `group` describes: a list of entries such as `3 blue`, with a
/// comma between each two, each number of 8 bits.
pub fn parse_color_group(group: &str) -> (rgb: RGB)
    requires
        parsed_draw(group@, u8::MAX as nat) is Some,
    ensures
        rgb@ == parsed_draw(group@, u8::MAX as nat)->0,
{
    let chars = chars_of(group);
    let cubes = read_draw(&chars, u8::MAX as u64).unwrap();
    RGB { red: cubes.red as u8, green: cubes.green as u8, blue: cubes.blue as u8 }
}

/// Whether each of `draws` is possible.
fn check_draws(draws: &Vec<Cubes>) -> (ok: bool)
    ensures
        ok == forall|i: int| 0 <= i < draws.len() ==> possible(#[trigger] draws[i]@),
{
    let mut i: usize = 0;
    while i < draws.len()
        invariant
            i <= draws.len(),
            forall|k: int| 0 <= k < i ==> possible(#[trigger] draws[k]@),
        decreases draws.len() - i,
    {
        let d = &draws[i];
        if d.red > 12 || d.green > 13 || d.blue > 14 {
            assert(!possible(draws[i as int]@));
            return false;
        }
        i += 1;
    }
    true
}

/// Computes what the game on `line` adds to the answer.
pub fn score_line(line: &Vec<char>) -> (found: Option<u32>)
    ensures
        found == line_score(line@),
{
    let id = match read_game_id(line) {
        Some(id) => id,
        None => {
            return None;
        },
    };
    match read_game(line, u8::MAX as u64) {
        Some(draws) => {
            let ghost spec_draws = game_draws(line@, u8::MAX as nat)->0;
            let ok = check_draws(&draws);
            proof {
                if ok {
                    assert forall|i: int| 0 <= i < spec_draws.len() implies possible(
                        #[trigger] spec_draws[i],
                    ) by {
                        assert(draws@[i]@ == spec_draws[i]);
                    }
                } else {
                    let i = choose|i: int| 0 <= i < draws.len() && !possible(#[trigger] draws[i]@);
                    assert(draws@[i]@ == spec_draws[i]);
                }
            }
            if ok {
                Some(id)
            } else {
                Some(0)
            }
        },
        None => None,
    }
}

/// Computes the answer to the puzzle `input`, if it has one.
pub fn solve(input: &Vec<char>) -> (found: Option<u32>)
    ensures
        found == answer(input@),
{
    let all = split(input, '\n');
    let mut values: Vec<Option<u32>> = Vec::new();
    let mut i: usize = 0;
    while i < all.len()
        invariant
            i <= all.len(),
            values.len() == i,
            forall|k: int| 0 <= k < i ==> (#[trigger] values[k]) == line_score(all[k]@),
        decreases all.len() - i,
    {
        values.push(score_line(&all[i]));
        i += 1;
    }
    assert(values@ =~= line_scores(views(all@)));
    sum_u32(&values)
}

/// The answer to the puzzle `input`, in decimal digits.
pub fn process(_input: &str) -> (out: String)
    requires
        answer(_input@) is Some,
    ensures
        out@ == decimal(answer(_input@)->0 as nat),
{
    let chars = chars_of(_input);
    decimal_string(solve(&chars).unwrap() as u64)
}

} // verus!
