use vstd::prelude::*;
use crate::text::{
    chars_of, parse_u32, parse_unsigned, split, split_on, split_whitespace, views, words,
};

verus! {

/// The state of one spring of a condition record.
///
/// A `Damaged` spring is a confirmed member of a run, an `Operational` one a
/// confirmed gap, and an `Unknown` one may be resolved to either.
#[derive(Debug, PartialEq, Eq, Clone, Copy, Structural)]
pub enum Status {
    Operational,
    Damaged,
    Unknown,
}

/// One line of the puzzle: the springs in a row, and the lengths of the runs of
/// damaged springs that the row must show, from left to right.
#[derive(Debug, PartialEq, Eq)]
pub struct Group {
    pub springs: Vec<Status>,
    pub brokens: Vec<u32>,
}

/// The mathematical content of a [`Group`].
pub struct Record {
    pub cells: Seq<Status>,
    pub runs: Seq<nat>,
}

impl Record {
    /// Whether the record is well formed: each of its runs has a spring.
    ///
    /// Nothing asks for a well-formed record: one that is not has no
    /// arrangement.
    pub open spec fn well_formed(self) -> bool {
        forall|k: int| 0 <= k < self.runs.len() ==> #[trigger] self.runs[k] >= 1
    }
}

/// The run lengths of a record as natural numbers.
pub open spec fn run_list(brokens: Seq<u32>) -> Seq<nat> {
    Seq::new(brokens.len(), |i: int| brokens[i] as nat)
}

impl View for Group {
    type V = Record;

    open spec fn view(&self) -> Record {
        Record { cells: self.springs@, runs: run_list(self.brokens@) }
    }
}


/// The state that the character `c` stands for: `?` for unknown, `#` for
/// damaged, and any other character for operational.
pub open spec fn status_of(c: char) -> Status {
    if c == '?' {
        Status::Unknown
    } else if c == '#' {
        Status::Damaged
    } else {
        Status::Operational
    }
}

/// The springs that the word `word` stands for, character by character.
pub open spec fn parsed_springs(word: Seq<char>) -> Seq<Status> {
    Seq::new(word.len(), |i: int| status_of(word[i]))
}

/// The numbers of 32 bits among `pieces`, in order; a piece that is no such
/// number is passed over.
pub open spec fn numbers_among(pieces: Seq<Seq<char>>) -> Seq<u32>
    decreases pieces.len(),
{
    if pieces.len() == 0 {
        Seq::empty()
    } else {
        let prev = numbers_among(pieces.drop_last());
        match parse_unsigned(pieces.last(), u32::MAX as nat) {
            Some(v) => prev.push(v as u32),
            None => prev,
        }
    }
}

/// The record that the line `line` stands for: its first word gives the
/// springs, and its last word the run lengths, separated by commas.
pub open spec fn parsed_record(line: Seq<char>) -> Record {
    Record {
        cells: parsed_springs(words(line).first()),
        runs: run_list(numbers_among(split_on(words(line).last(), ','))),
    }
}

impl Status {
    /// The state that a character of the puzzle input stands for.
    pub fn from_char(c: char) -> (s: Status)
        ensures
            s == status_of(c),
    {
        match c {
            '?' => Status::Unknown,
            '#' => Status::Damaged,
            _ => Status::Operational,
        }
    }
}

impl Group {
    /// Reads a group from the characters of a line, if the line has a word.
    pub fn from_chars(line: &Vec<char>) -> (found: Option<Group>)
        ensures
            found is Some <==> words(line@).len() > 0,
            found is Some ==> found->0@ == parsed_record(line@),
    {
        let found_words = split_whitespace(line);
        if found_words.len() == 0 {
            return None;
        }
        let first = &found_words[0];
        let last = &found_words[found_words.len() - 1];
        assert(first@ == words(line@).first());
        assert(last@ == words(line@).last());

        let pieces = split(last, ',');
        let mut brokens: Vec<u32> = Vec::new();
        let mut i: usize = 0;
        assert(views(pieces@).take(0) =~= Seq::<Seq<char>>::empty());
        while i < pieces.len()
            invariant
                i <= pieces.len(),
                brokens@ == numbers_among(views(pieces@).take(i as int)),
            decreases pieces.len() - i,
        {
            assert(views(pieces@).take(i + 1).drop_last() =~= views(pieces@).take(i as int));
            assert(views(pieces@).take(i + 1).last() == pieces@[i as int]@);
            match parse_u32(&pieces[i]) {
                Some(v) => {
                    brokens.push(v);
                },
                None => {},
            }
            i += 1;
        }
        assert(views(pieces@).take(pieces.len() as int) =~= views(pieces@));

        let mut springs: Vec<Status> = Vec::new();
        let mut k: usize = 0;
        while k < first.len()
            invariant
                k <= first.len(),
                springs@ == parsed_springs(first@.take(k as int)),
            decreases first.len() - k,
        {
            springs.push(Status::from_char(first[k]));
            assert(springs@ =~= parsed_springs(first@.take(k + 1)));
            k += 1;
        }
        assert(first@.take(first.len() as int) =~= first@);
        Some(Group { springs, brokens })
    }

    /// Reads a group from a line of the puzzle input.
    pub fn from_string(s: &str) -> (group: Group)
        requires
            words(s@).len() > 0,
        ensures
            group@ == parsed_record(s@),
    {
        let line = chars_of(s);
        Group::from_chars(&line).unwrap()
    }
}


/// The contents of a list of groups.
pub open spec fn records(groups: Seq<Group>) -> Seq<Record> {
    Seq::new(groups.len(), |i: int| groups[i]@)
}

/// The records that the lines `lines` stand for, if each line has a word.
pub open spec fn parsed_records(lines: Seq<Seq<char>>) -> Option<Seq<Record>> {
    if forall|i: int| 0 <= i < lines.len() ==> (#[trigger] words(lines[i])).len() > 0 {
        Some(Seq::new(lines.len(), |i: int| parsed_record(lines[i])))
    } else {
        None
    }
}

/// Reads one group from each of `lines`, if each of them has a word.
pub fn parse_groups(lines: &Vec<Vec<char>>) -> (found: Option<Vec<Group>>)
    ensures
        found is Some <==> parsed_records(views(lines@)) is Some,
        found is Some ==> Some(records(found->0@)) == parsed_records(views(lines@)),
{
    let mut groups: Vec<Group> = Vec::new();
    let mut i: usize = 0;
    while i < lines.len()
        invariant
            i <= lines.len(),
            groups.len() == i,
            forall|k: int| 0 <= k < i ==> (#[trigger] words(views(lines@)[k])).len() > 0,
            forall|k: int| 0 <= k < i ==> (#[trigger] groups[k])@ == parsed_record(lines[k]@),
        decreases lines.len() - i,
    {
        match Group::from_chars(&lines[i]) {
            Some(group) => {
                groups.push(group);
            },
            None => {
                assert(words(views(lines@)[i as int]).len() == 0);
                return None;
            },
        }
        i += 1;
    }
    assert(records(groups@) =~= parsed_records(views(lines@))->0);
    Some(groups)
}

} // verus!
