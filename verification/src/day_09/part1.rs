use vstd::prelude::*;
use crate::text::{
    chars_of, lines, lines_of, parse_i64, parse_signed, signed_decimal, signed_decimal_string,
    split_whitespace, views, words,
};

verus! {

/// Whether `v` is a signed number of 64 bits.
pub open spec fn fits(v: int) -> bool {
    i64::MIN <= v <= i64::MAX
}

/// Whether each difference between two neighbours of `s` fits in 64 bits.
pub open spec fn differences_fit(s: Seq<i64>) -> bool {
    forall|i: int| 0 <= i < s.len() - 1 ==> fits(#[trigger] s[i + 1] - s[i])
}

/// The differences between each two neighbours of `s`.
pub open spec fn differences(s: Seq<i64>) -> Seq<i64> {
    Seq::new((s.len() - 1) as nat, |i: int| (s[i + 1] - s[i]) as i64)
}

/// Whether every number of `s` is zero.
pub open spec fn all_zero(s: Seq<i64>) -> bool {
    forall|i: int| 0 <= i < s.len() ==> #[trigger] s[i] == 0
}

/// The next value of the history `s`: its last value, plus the next value of
/// its differences unless they are all zero. There is none if the history is
/// empty or a difference or a sum on the way does not fit in 64 bits.
pub open spec fn next_value(s: Seq<i64>) -> Option<i64>
    decreases s.len(),
{
    if s.len() == 0 || !differences_fit(s) {
        None
    } else if all_zero(differences(s)) {
        Some(s.last())
    } else {
        match next_value(differences(s)) {
            Some(below) => if fits(below + s.last()) {
                Some((below + s.last()) as i64)
            } else {
                None
            },
            None => None,
        }
    }
}

/// The signed numbers of 64 bits among `pieces`, in order; a piece that is no
/// such number is passed over.
pub open spec fn numbers_among(pieces: Seq<Seq<char>>) -> Seq<i64>
    decreases pieces.len(),
{
    if pieces.len() == 0 {
        Seq::empty()
    } else {
        let prev = numbers_among(pieces.drop_last());
        match parse_signed(pieces.last(), i64::MIN as int, i64::MAX as int) {
            Some(v) => prev.push(v as i64),
            None => prev,
        }
    }
}

/// The sum of the next values of the histories on `lines`, added up in order.
/// There is none if a history has no next value or a sum on the way does not
/// fit in 64 bits.
pub open spec fn sum_of_next(lines: Seq<Seq<char>>) -> Option<i64>
    decreases lines.len(),
{
    if lines.len() == 0 {
        Some(0)
    } else {
        match (sum_of_next(lines.drop_last()), next_value(numbers_among(words(lines.last())))) {
            (Some(a), Some(b)) => if fits(a + b) {
                Some((a + b) as i64)
            } else {
                None
            },
            _ => None,
        }
    }
}

/// The answer to the puzzle `input`, one history to a line, its numbers
/// separated by blanks.
pub open spec fn answer(input: Seq<char>) -> Option<i64> {
    sum_of_next(lines(input))
}

/// Where the histories have a sum, so have the first `k` of them.
pub proof fn lemma_sum_of_next_start(lines: Seq<Seq<char>>, k: int)
    requires
        0 <= k <= lines.len(),
        sum_of_next(lines) is Some,
    ensures
        sum_of_next(lines.take(k)) is Some,
    decreases lines.len(),
{
    if k == lines.len() {
        assert(lines.take(k) =~= lines);
    } else {
        lemma_sum_of_next_start(lines.drop_last(), k);
        assert(lines.drop_last().take(k) =~= lines.take(k));
    }
}

/// Computes the differences of `s`, if they all fit in 64 bits.
fn differences_of(s: &Vec<i64>) -> (found: Option<Vec<i64>>)
    requires
        s.len() > 0,
    ensures
        found is Some <==> differences_fit(s@),
        found is Some ==> found->0@ == differences(s@),
{
    let mut below: Vec<i64> = Vec::new();
    let mut i: usize = 0;
    while i + 1 < s.len()
        invariant
            i + 1 <= s.len(),
            below.len() == i,
            forall|k: int| 0 <= k < i ==> fits(#[trigger] s@[k + 1] - s@[k]),
            forall|k: int| 0 <= k < i ==> (#[trigger] below[k]) == s@[k + 1] - s@[k],
        decreases s.len() - i,
    {
        match s[i + 1].checked_sub(s[i]) {
            Some(d) => {
                below.push(d);
            },
            None => {
                assert(!fits(s@[i as int + 1] - s@[i as int]));
                return None;
            },
        }
        i += 1;
    }
    assert(below@ =~= differences(s@));
    Some(below)
}

/// Whether every number of `s` is zero.
fn is_all_zero(s: &Vec<i64>) -> (zero: bool)
    ensures
        zero == all_zero(s@),
{
    let mut i: usize = 0;
    while i < s.len()
        invariant
            i <= s.len(),
            forall|k: int| 0 <= k < i ==> #[trigger] s@[k] == 0,
        decreases s.len() - i,
    {
        if s[i] != 0 {
            return false;
        }
        i += 1;
    }
    true
}

/// Computes the next value of the history `sequence`, if it has one.
pub fn next_of(sequence: &Vec<i64>) -> (found: Option<i64>)
    ensures
        found == next_value(sequence@),
    decreases sequence.len(),
{
    if sequence.len() == 0 {
        return None;
    }
    let last = sequence[sequence.len() - 1];
    match differences_of(sequence) {
        Some(below) => {
            if is_all_zero(&below) {
                Some(last)
            } else {
                match next_of(&below) {
                    Some(v) => v.checked_add(last),
                    None => None,
                }
            }
        },
        None => None,
    }
}

/// The next value of the history `sequence`.
pub fn process_line(sequence: &[i64]) -> (next: i64)
    requires
        next_value(sequence@) is Some,
    ensures
        next == next_value(sequence@)->0,
{
    let mut copy: Vec<i64> = Vec::new();
    let mut i: usize = 0;
    while i < sequence.len()
        invariant
            i <= sequence.len(),
            copy@ == sequence@.take(i as int),
        decreases sequence.len() - i,
    {
        copy.push(sequence[i]);
        assert(copy@ =~= sequence@.take(i + 1));
        i += 1;
    }
    assert(sequence@.take(sequence.len() as int) =~= sequence@);
    next_of(&copy).unwrap()
}

/// Reads the numbers on `line`; a word that is no number is passed over.
pub fn read_history(line: &Vec<char>) -> (found: Vec<i64>)
    ensures
        found@ == numbers_among(words(line@)),
{
    let pieces = split_whitespace(line);
    let mut found: Vec<i64> = Vec::new();
    let mut i: usize = 0;
    assert(views(pieces@).take(0) =~= Seq::<Seq<char>>::empty());
    while i < pieces.len()
        invariant
            i <= pieces.len(),
            found@ == numbers_among(views(pieces@).take(i as int)),
        decreases pieces.len() - i,
    {
        assert(views(pieces@).take(i + 1).drop_last() =~= views(pieces@).take(i as int));
        assert(views(pieces@).take(i + 1).last() == pieces@[i as int]@);
        match parse_i64(&pieces[i]) {
            Some(v) => {
                found.push(v);
            },
            None => {},
        }
        i += 1;
    }
    assert(views(pieces@).take(pieces.len() as int) =~= views(pieces@));
    found
}

/// Computes the answer to the puzzle `input`, if it has one.
pub fn solve(input: &Vec<char>) -> (found: Option<i64>)
    ensures
        found == answer(input@),
{
    let all = lines_of(input);
    let ghost rows = views(all@);
    let mut sum: i64 = 0;
    let mut i: usize = 0;
    assert(rows.take(0) =~= Seq::<Seq<char>>::empty());
    while i < all.len()
        invariant
            i <= all.len(),
            rows == views(all@),
            rows == lines(input@),
            sum_of_next(rows.take(i as int)) == Some(sum),
        decreases all.len() - i,
    {
        proof {
            assert(rows.take(i + 1).drop_last() =~= rows.take(i as int));
            assert(rows.take(i + 1).last() == all@[i as int]@);
            if sum_of_next(rows) is Some {
                lemma_sum_of_next_start(rows, i + 1);
            }
        }
        let history = read_history(&all[i]);
        let next = match next_of(&history) {
            Some(v) => sum.checked_add(v),
            None => None,
        };
        match next {
            Some(v) => {
                sum = v;
            },
            None => {
                return None;
            },
        }
        i += 1;
    }
    assert(rows.take(all.len() as int) =~= rows);
    Some(sum)
}

/// The answer to the puzzle `input`, in decimal digits, with a minus sign if
/// it is negative.
pub fn process(input: &str) -> (out: String)
    requires
        answer(input@) is Some,
    ensures
        out@ == signed_decimal(answer(input@)->0 as int),
{
    let chars = chars_of(input);
    signed_decimal_string(solve(&chars).unwrap())
}

} // verus!
