use vstd::prelude::*;
use crate::tally::{sum_u32, total_u32};
use crate::text::{
    copy_range, digit_value, find_char, index_of, is_digit, parse_u32, parse_unsigned,
};

verus! {

/// How often `c` stands in `s`.
pub open spec fn count_of(s: Seq<char>, c: char) -> nat
    decreases s.len(),
{
    if s.len() == 0 {
        0
    } else {
        count_of(s.drop_last(), c) + (if s.last() == c {
            1nat
        } else {
            0nat
        })
    }
}

/// Among the first `k` places of `s`, the first whose character stands in `s`
/// most often.
pub open spec fn top_place(s: Seq<char>, k: nat) -> int
    decreases k,
{
    if k <= 1 {
        0
    } else {
        let p = top_place(s, (k - 1) as nat);
        if count_of(s, s[k - 1]) > count_of(s, s[p]) {
            k - 1
        } else {
            p
        }
    }
}

/// How often the most frequent character of `s` stands in it.
pub open spec fn most(s: Seq<char>) -> nat {
    if s.len() == 0 {
        0
    } else {
        count_of(s, s[top_place(s, s.len())])
    }
}

/// Among the first `k` places of `s`, the largest number of occurrences in `s`
/// of a character other than `c`.
pub open spec fn most_but(s: Seq<char>, c: char, k: nat) -> nat
    decreases k,
{
    if k == 0 {
        0
    } else {
        let prev = most_but(s, c, (k - 1) as nat);
        if s[k - 1] != c && count_of(s, s[k - 1]) > prev {
            count_of(s, s[k - 1])
        } else {
            prev
        }
    }
}

/// How often the second most frequent character of `s` stands in it.
pub open spec fn second(s: Seq<char>) -> nat {
    if s.len() == 0 {
        0
    } else {
        most_but(s, s[top_place(s, s.len())], s.len())
    }
}

/// `s` without the characters `c`.
pub open spec fn without_char(s: Seq<char>, c: char) -> Seq<char>
    decreases s.len(),
{
    if s.len() == 0 {
        Seq::empty()
    } else if s.last() == c {
        without_char(s.drop_last(), c)
    } else {
        without_char(s.drop_last(), c).push(s.last())
    }
}

/// The strength of a hand whose most frequent card stands `first` times and
/// whose second most frequent card stands `next` times: 6 for five of a kind,
/// 5 for four of a kind, 4 for a full house, 3 for three of a kind, 2 for two
/// pairs, 1 for one pair, and 0 for anything else.
pub open spec fn strength_of(first: nat, next: nat) -> u8 {
    if first == 5 {
        6
    } else if first == 4 {
        5
    } else if first == 3 && next == 2 {
        4
    } else if first == 3 {
        3
    } else if first == 2 && next == 2 {
        2
    } else if first == 2 {
        1
    } else {
        0
    }
}

/// The strength of the hand `s` by its cards as they stand.
pub open spec fn plain_strength(s: Seq<char>) -> u8 {
    strength_of(most(s), second(s))
}

/// The strength of the hand `s` where each `J` is a joker, which counts as
/// the most frequent of the other cards; a hand of jokers alone is five of a
/// kind.
pub open spec fn wild_strength(s: Seq<char>) -> u8 {
    let others = without_char(s, 'J');
    if others.len() == 0 {
        6
    } else {
        strength_of(most(others) + count_of(s, 'J'), second(others))
    }
}

/// The value of the card `c`, where a `J` is worth `knave`: 14 for `A`, 13 for
/// `K`, 12 for `Q`, 10 for `T`, and its number for a digit. No other character
/// is a card.
pub open spec fn card_value(c: char, knave: u32) -> Option<u32> {
    if c == 'A' {
        Some(14)
    } else if c == 'K' {
        Some(13)
    } else if c == 'Q' {
        Some(12)
    } else if c == 'J' {
        Some(knave)
    } else if c == 'T' {
        Some(10)
    } else if is_digit(c) {
        Some(digit_value(c) as u32)
    } else {
        None
    }
}

/// The score of the cards `s`: their values, four bits each, the first card
/// highest, of which the lowest 32 bits are kept. There is none if one of the
/// characters is no card.
pub open spec fn score_of(s: Seq<char>, knave: u32) -> Option<u32>
    decreases s.len(),
{
    if s.len() == 0 {
        Some(0)
    } else {
        match (score_of(s.drop_last(), knave), card_value(s.last(), knave)) {
            (Some(acc), Some(v)) => Some(((acc * 16 + v) % 0x1_0000_0000) as u32),
            _ => None,
        }
    }
}

/// One hand as it is played: the strength of its type, the score of its cards,
/// and the bid.
pub struct Play {
    pub strength: u8,
    pub score: u32,
    pub bid: u32,
}

/// Whether `a` is the weaker of two plays: of lower strength, or of the same
/// strength and lower score.
pub open spec fn weaker(a: Play, b: Play) -> bool {
    a.strength < b.strength || (a.strength == b.strength && a.score < b.score)
}

/// Whether two plays are of the same strength and score.
pub open spec fn tied(a: Play, b: Play) -> bool {
    a.strength == b.strength && a.score == b.score
}

/// How many of the first `k` plays come before play `i` when the plays are put
/// in order: the weaker ones, and the tied ones that stand before it.
pub open spec fn before_among(plays: Seq<Play>, i: int, k: nat) -> nat
    decreases k,
{
    if k == 0 {
        0
    } else {
        before_among(plays, i, (k - 1) as nat) + (if weaker(plays[k - 1], plays[i]) || (k - 1 < i
            && tied(plays[k - 1], plays[i])) {
            1nat
        } else {
            0nat
        })
    }
}

/// The rank of play `i`, from one for the weakest.
pub open spec fn rank(plays: Seq<Play>, i: int) -> nat {
    1 + before_among(plays, i, plays.len())
}

/// What play `i` wins: its bid times its rank, if that fits in 32 bits.
pub open spec fn winning(plays: Seq<Play>, i: int) -> Option<u32> {
    let won = plays[i].bid * rank(plays, i);
    if won <= u32::MAX {
        Some(won as u32)
    } else {
        None
    }
}

/// What all plays win.
pub open spec fn all_winnings(plays: Seq<Play>) -> Seq<Option<u32>> {
    Seq::new(plays.len(), |i: int| winning(plays, i))
}

/// The total winnings of `plays`, if there are no more plays than a number of
/// 32 bits can count and the total fits in 32 bits.
pub open spec fn winnings(plays: Seq<Play>) -> Option<u32> {
    if plays.len() > u32::MAX {
        None
    } else {
        total_u32(all_winnings(plays))
    }
}

/// The hand of a line: what stands in front of its first space.
pub open spec fn hand_part(line: Seq<char>) -> Option<Seq<char>> {
    match index_of(line, ' ') {
        Some(i) => Some(line.take(i)),
        None => None,
    }
}

/// The bid of a line: what stands behind its first space, as a number of 32
/// bits.
pub open spec fn bid_part(line: Seq<char>) -> Option<u32> {
    match index_of(line, ' ') {
        Some(i) => match parse_unsigned(line.skip(i + 1), u32::MAX as nat) {
            Some(v) => Some(v as u32),
            None => None,
        },
        None => None,
    }
}

/// Counts how often `c` stands in `s`.
pub fn count_in(s: &Vec<char>, c: char) -> (n: usize)
    ensures
        n == count_of(s@, c),
{
    let mut n: usize = 0;
    let mut i: usize = 0;
    assert(s@.take(0) =~= Seq::<char>::empty());
    while i < s.len()
        invariant
            i <= s.len(),
            n == count_of(s@.take(i as int), c),
            n <= i,
        decreases s.len() - i,
    {
        assert(s@.take(i + 1).drop_last() =~= s@.take(i as int));
        if s[i] == c {
            n += 1;
        }
        i += 1;
    }
    assert(s@.take(s.len() as int) =~= s@);
    n
}

/// Counts the most frequent and the second most frequent character of `s`.
pub fn top_counts(s: &Vec<char>) -> (found: (usize, usize))
    ensures
        found.0 == most(s@),
        found.1 == second(s@),
{
    if s.len() == 0 {
        return (0, 0);
    }
    let mut top: usize = 0;
    let mut best: usize = count_in(s, s[0]);
    let mut k: usize = 1;
    while k < s.len()
        invariant
            1 <= k <= s.len(),
            top == top_place(s@, k as nat),
            0 <= top < k,
            best == count_of(s@, s@[top as int]),
        decreases s.len() - k,
    {
        let n = count_in(s, s[k]);
        if n > best {
            top = k;
            best = n;
        }
        k += 1;
    }
    let leader = s[top];
    let mut next: usize = 0;
    let mut j: usize = 0;
    while j < s.len()
        invariant
            j <= s.len(),
            next == most_but(s@, leader, j as nat),
        decreases s.len() - j,
    {
        if s[j] != leader {
            let n = count_in(s, s[j]);
            if n > next {
                next = n;
            }
        }
        j += 1;
    }
    (best, next)
}

/// Computes the strength for the counts of the two most frequent cards.
pub fn strength_for(first: usize, next: usize) -> (strength: u8)
    ensures
        strength == strength_of(first as nat, next as nat),
{
    if first == 5 {
        6
    } else if first == 4 {
        5
    } else if first == 3 && next == 2 {
        4
    } else if first == 3 {
        3
    } else if first == 2 && next == 2 {
        2
    } else if first == 2 {
        1
    } else {
        0
    }
}

/// Computes the strength of the hand `s` by its cards as they stand.
pub fn plain_strength_of(s: &Vec<char>) -> (strength: u8)
    ensures
        strength == plain_strength(s@),
{
    let found = top_counts(s);
    strength_for(found.0, found.1)
}

/// Computes the strength of the hand `s` with each `J` as a joker.
pub fn wild_strength_of(s: &Vec<char>) -> (strength: u8)
    ensures
        strength == wild_strength(s@),
{
    let mut others: Vec<char> = Vec::new();
    let mut i: usize = 0;
    assert(s@.take(0) =~= Seq::<char>::empty());
    while i < s.len()
        invariant
            i <= s.len(),
            others@ == without_char(s@.take(i as int), 'J'),
        decreases s.len() - i,
    {
        assert(s@.take(i + 1).drop_last() =~= s@.take(i as int));
        if s[i] != 'J' {
            others.push(s[i]);
        }
        i += 1;
    }
    assert(s@.take(s.len() as int) =~= s@);
    if others.len() == 0 {
        return 6;
    }
    let jokers = count_in(s, 'J');
    let found = top_counts(&others);
    let first: u128 = found.0 as u128 + jokers as u128;
    if first == 5 {
        6
    } else if first == 4 {
        5
    } else if first == 3 && found.1 == 2 {
        4
    } else if first == 3 {
        3
    } else if first == 2 && found.1 == 2 {
        2
    } else if first == 2 {
        1
    } else {
        0
    }
}

/// Where all cards have a score, so have the first `k` of them.
pub proof fn lemma_score_of_start(s: Seq<char>, knave: u32, k: int)
    requires
        0 <= k <= s.len(),
        score_of(s, knave) is Some,
    ensures
        score_of(s.take(k), knave) is Some,
    decreases s.len(),
{
    if k == s.len() {
        assert(s.take(k) =~= s);
    } else {
        lemma_score_of_start(s.drop_last(), knave, k);
        assert(s.drop_last().take(k) =~= s.take(k));
    }
}

/// Splits `line` at its first space into the hand and the bid.
pub fn split_line(line: &Vec<char>) -> (found: Option<(Vec<char>, u32)>)
    ensures
        found is Some <==> bid_part(line@) is Some,
        match found {
            Some((hand, bid)) => Some(hand@) == hand_part(line@) && Some(bid) == bid_part(line@),
            None => true,
        },
{
    match find_char(line, ' ') {
        Some(i) => {
            let hand = copy_range(line, 0, i);
            assert(hand@ =~= line@.take(i as int));
            let tail = copy_range(line, i + 1, line.len());
            assert(tail@ =~= line@.skip(i + 1));
            match parse_u32(&tail) {
                Some(bid) => Some((hand, bid)),
                None => None,
            }
        },
        None => None,
    }
}

/// Whether `a` comes before `b` in the order of plays, where `a` stands before
/// `b` if `a_first` holds.
fn comes_before(a: &Play, b: &Play, a_first: bool) -> (before: bool)
    ensures
        before == (weaker(*a, *b) || (a_first && tied(*a, *b))),
{
    if a.strength != b.strength {
        a.strength < b.strength
    } else if a.score != b.score {
        a.score < b.score
    } else {
        a_first
    }
}

/// Computes the total winnings of `plays`, if they have one.
pub fn total_winnings(plays: &Vec<Play>) -> (found: Option<u32>)
    ensures
        found == winnings(plays@),
{
    let n: usize = plays.len();
    if n as u64 > u32::MAX as u64 {
        return None;
    }
    let mut wins: Vec<Option<u32>> = Vec::new();
    let mut i: usize = 0;
    while i < n
        invariant
            i <= n,
            n == plays.len(),
            n <= u32::MAX,
            wins.len() == i,
            forall|k: int| 0 <= k < i ==> (#[trigger] wins[k]) == winning(plays@, k),
        decreases n - i,
    {
        let mut before: u32 = 0;
        let mut k: usize = 0;
        while k < n
            invariant
                k <= n,
                i < n,
                n == plays.len(),
                n <= u32::MAX,
                before == before_among(plays@, i as int, k as nat),
                before <= k,
            decreases n - k,
        {
            if comes_before(&plays[k], &plays[i], k < i) {
                before += 1;
            }
            k += 1;
        }
        let place: u64 = before as u64 + 1;
        let bid: u64 = plays[i].bid as u64;
        assert(bid * place <= 0xFFFF_FFFF * 0x1_0000_0000) by (nonlinear_arith)
            requires
                bid <= 0xFFFF_FFFF,
                place <= 0x1_0000_0000,
        ;
        let won: u64 = bid * place;
        if won > u32::MAX as u64 {
            wins.push(None);
        } else {
            wins.push(Some(won as u32));
        }
        i += 1;
    }
    assert(wins@ =~= all_winnings(plays@));
    sum_u32(&wins)
}

} // verus!
