use vstd::prelude::*;
use crate::text::{
    chars_of, copy_range, find_char, index_of, parse_number, parse_unsigned, same_chars, split,
    split_on, trim, trimmed, views,
};

verus! {

/// The numbers of red, green and blue cubes of one draw.
pub struct Draw {
    pub red: nat,
    pub green: nat,
    pub blue: nat,
}

/// The draw `acc` after the entry `piece` of a list of cubes. The entry, once
/// trimmed, is split at every space: its first part is a number of at most
/// `max`, its second part the colour whose number it replaces. There is none
/// if the entry has no second part, names no colour, or its number cannot be
/// read.
pub open spec fn with_entry(acc: Draw, piece: Seq<char>, max: nat) -> Option<Draw> {
    let parts = split_on(trim(piece), ' ');
    if parts.len() < 2 {
        None
    } else {
        match parse_unsigned(parts[0], max) {
            None => None,
            Some(v) => if parts[1] == "red"@ {
                Some(Draw { red: v, ..acc })
            } else if parts[1] == "green"@ {
                Some(Draw { green: v, ..acc })
            } else if parts[1] == "blue"@ {
                Some(Draw { blue: v, ..acc })
            } else {
                None
            },
        }
    }
}

/// The draw that the entries `pieces` describe, starting from no cubes, if
/// every entry can be read.
pub open spec fn draw_of(pieces: Seq<Seq<char>>, max: nat) -> Option<Draw>
    decreases pieces.len(),
{
    if pieces.len() == 0 {
        Some(Draw { red: 0, green: 0, blue: 0 })
    } else {
        match draw_of(pieces.drop_last(), max) {
            Some(acc) => with_entry(acc, pieces.last(), max),
            None => None,
        }
    }
}

/// The draw that `group` describes: a list of entries with a comma between
/// each two.
pub open spec fn parsed_draw(group: Seq<char>, max: nat) -> Option<Draw> {
    draw_of(split_on(group, ','), max)
}

/// The draws that `groups` describe, if each of them can be read.
pub open spec fn parsed_draws(groups: Seq<Seq<char>>, max: nat) -> Option<Seq<Draw>> {
    if forall|i: int| 0 <= i < groups.len() ==> (#[trigger] parsed_draw(trim(groups[i]), max))
        is Some {
        Some(Seq::new(groups.len(), |i: int| parsed_draw(trim(groups[i]), max)->0))
    } else {
        None
    }
}

/// What follows the first colon of `line`, trimmed, if there is a colon.
pub open spec fn after_colon(line: Seq<char>) -> Option<Seq<char>> {
    match index_of(line, ':') {
        Some(i) => Some(trim(line.skip(i + 1))),
        None => None,
    }
}

/// The draws of the game on `line`: what follows the first colon, split at
/// every semicolon.
pub open spec fn game_draws(line: Seq<char>, max: nat) -> Option<Seq<Draw>> {
    match after_colon(line) {
        Some(rest) => parsed_draws(split_on(rest, ';'), max),
        None => None,
    }
}

/// Every number of a draw that was read is at most `max`.
pub open spec fn draw_within(d: Draw, max: nat) -> bool {
    d.red <= max && d.green <= max && d.blue <= max
}

/// A draw in numbers of 64 bits.
pub struct Cubes {
    pub red: u64,
    pub green: u64,
    pub blue: u64,
}

impl View for Cubes {
    type V = Draw;

    open spec fn view(&self) -> Draw {
        Draw { red: self.red as nat, green: self.green as nat, blue: self.blue as nat }
    }
}

/// Reads the draw that `group` describes, with numbers of at most `max`.
pub fn read_draw(group: &Vec<char>, max: u64) -> (found: Option<Cubes>)
    ensures
        found is Some <==> parsed_draw(group@, max as nat) is Some,
        found is Some ==> found->0@ == parsed_draw(group@, max as nat)->0,
        found is Some ==> draw_within(found->0@, max as nat),
{
    let pieces = split(group, ',');
    let red_name = chars_of("red");
    let green_name = chars_of("green");
    let blue_name = chars_of("blue");
    let mut acc = Cubes { red: 0, green: 0, blue: 0 };
    let mut i: usize = 0;
    assert(views(pieces@).take(0) =~= Seq::<Seq<char>>::empty());
    while i < pieces.len()
        invariant
            i <= pieces.len(),
            views(pieces@) == split_on(group@, ','),
            red_name@ == "red"@,
            green_name@ == "green"@,
            blue_name@ == "blue"@,
            draw_of(views(pieces@).take(i as int), max as nat) == Some(acc@),
            draw_within(acc@, max as nat),
        decreases pieces.len() - i,
    {
        proof {
            assert(views(pieces@).take(i + 1).drop_last() =~= views(pieces@).take(i as int));
            assert(views(pieces@).take(i + 1).last() == pieces@[i as int]@);
            if draw_of(views(pieces@), max as nat) is Some {
                lemma_draw_of_start(views(pieces@), max as nat, i + 1);
            }
        }
        let entry = trimmed(&pieces[i]);
        let parts = split(&entry, ' ');
        if parts.len() < 2 {
            return None;
        }
        match parse_number(&parts[0], max) {
            None => {
                return None;
            },
            Some(v) => {
                let name = &parts[1];
                if same_chars(name, &red_name) {
                    acc.red = v;
                } else if same_chars(name, &green_name) {
                    acc.green = v;
                } else if same_chars(name, &blue_name) {
                    acc.blue = v;
                } else {
                    return None;
                }
            },
        }
        i += 1;
    }
    assert(views(pieces@).take(pieces.len() as int) =~= views(pieces@));
    Some(acc)
}

/// Where all entries can be read, so can the first `k` of them.
pub proof fn lemma_draw_of_start(pieces: Seq<Seq<char>>, max: nat, k: int)
    requires
        0 <= k <= pieces.len(),
        draw_of(pieces, max) is Some,
    ensures
        draw_of(pieces.take(k), max) is Some,
    decreases pieces.len(),
{
    if k == pieces.len() {
        assert(pieces.take(k) =~= pieces);
    } else {
        lemma_draw_of_start(pieces.drop_last(), max, k);
        assert(pieces.drop_last().take(k) =~= pieces.take(k));
    }
}

/// Reads the draws of the game on `line`, with numbers of at most `max`.
pub fn read_game(line: &Vec<char>, max: u64) -> (found: Option<Vec<Cubes>>)
    ensures
        found is Some <==> game_draws(line@, max as nat) is Some,
        found is Some ==> found->0@.len() == game_draws(line@, max as nat)->0.len(),
        found is Some ==> forall|i: int|
            0 <= i < found->0@.len() ==> (#[trigger] found->0@[i])@ == game_draws(
                line@,
                max as nat,
            )->0[i] && draw_within(found->0@[i]@, max as nat),
{
    let colon = match find_char(line, ':') {
        Some(i) => i,
        None => {
            return None;
        },
    };
    let tail = copy_range(line, colon + 1, line.len());
    assert(tail@ =~= line@.skip(colon + 1));
    let rest = trimmed(&tail);
    let groups = split(&rest, ';');
    let mut draws: Vec<Cubes> = Vec::new();
    let mut i: usize = 0;
    while i < groups.len()
        invariant
            i <= groups.len(),
            draws.len() == i,
            views(groups@) == split_on(rest@, ';'),
            after_colon(line@) == Some(rest@),
            forall|k: int|
                0 <= k < i ==> (#[trigger] parsed_draw(trim(views(groups@)[k]), max as nat))
                    is Some,
            forall|k: int|
                0 <= k < i ==> (#[trigger] draws[k])@ == parsed_draw(
                    trim(groups[k]@),
                    max as nat,
                )->0 && draw_within(draws[k]@, max as nat),
        decreases groups.len() - i,
    {
        let group = trimmed(&groups[i]);
        match read_draw(&group, max) {
            Some(cubes) => {
                draws.push(cubes);
            },
            None => {
                assert(parsed_draw(trim(views(groups@)[i as int]), max as nat) is None);
                return None;
            },
        }
        i += 1;
    }
    Some(draws)
}

} // verus!
