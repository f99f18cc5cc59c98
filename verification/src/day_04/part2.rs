use std::collections::HashSet;
use vstd::prelude::*;
use vstd::std_specs::hash::group_hash_axioms;
use crate::tally::{lemma_sum_all_bounds, nat_of, sum_all, sum_u32, within};
use crate::text::{
    chars_of, decimal, decimal_string, lines, lines_of, numbers_u32, read_numbers_u32, split,
    split_on, split_whitespace, views, words,
};

verus! {

broadcast use group_hash_axioms;

/// How many different numbers stand in both `winners` and `picks`.
pub open spec fn common(winners: Seq<u32>, picks: Seq<u32>) -> nat {
    winners.to_set().intersect(picks.to_set()).len()
}

/// The number of matches of the card on `line`: how many different numbers of
/// 32 bits stand both among the words between the first colon and the first
/// bar, and among the words between the first bar and the second. There is
/// none if the line lacks a bar, lacks a colon in front of it, or holds a word
/// there that is no such number.
pub open spec fn matches_of(line: Seq<char>) -> Option<nat> {
    let parts = split_on(line, '|');
    if parts.len() < 2 {
        None
    } else {
        let head = split_on(parts[0], ':');
        if head.len() < 2 {
            None
        } else {
            match (numbers_u32(words(head[1])), numbers_u32(words(parts[1]))) {
                (Some(winners), Some(picks)) => Some(common(winners, picks)),
                _ => None,
            }
        }
    }
}

/// The members of the first `k + 1` items are those of the first `k` and the
/// item after them.
pub proof fn lemma_to_set_step(s: Seq<u32>, k: int)
    requires
        0 <= k < s.len(),
    ensures
        s.take(k + 1).to_set() == s.take(k).to_set().insert(s[k]),
{
    assert(s.take(k + 1) =~= s.take(k).push(s[k]));
    s.take(k).lemma_push_to_set_commute(s[k]);
}

/// Counts the different numbers that stand in both `winners` and `picks`.
pub fn count_common(winners: &Vec<u32>, picks: &Vec<u32>) -> (n: usize)
    ensures
        n == common(winners@, picks@),
{
    let mut winning: HashSet<u32> = HashSet::new();
    let mut i: usize = 0;
    assert(winners@.take(0).to_set() =~= Set::<u32>::empty());
    while i < winners.len()
        invariant
            i <= winners.len(),
            winning@ == winners@.take(i as int).to_set(),
        decreases winners.len() - i,
    {
        proof {
            lemma_to_set_step(winners@, i as int);
        }
        winning.insert(winners[i]);
        i += 1;
    }
    assert(winners@.take(winners.len() as int) =~= winners@);
    let mut hits: HashSet<u32> = HashSet::new();
    let mut k: usize = 0;
    assert(winning@.intersect(picks@.take(0).to_set()) =~= Set::<u32>::empty());
    while k < picks.len()
        invariant
            k <= picks.len(),
            winning@ == winners@.to_set(),
            hits@ == winning@.intersect(picks@.take(k as int).to_set()),
        decreases picks.len() - k,
    {
        proof {
            lemma_to_set_step(picks@, k as int);
        }
        let pick = picks[k];
        if winning.contains(&pick) {
            hits.insert(pick);
        }
        assert(hits@ =~= winning@.intersect(picks@.take(k + 1).to_set()));
        k += 1;
    }
    assert(picks@.take(picks.len() as int) =~= picks@);
    hits.len()
}

/// Counts the matches of the card on `line`, if it can be read.
pub fn count_matches(line: &Vec<char>) -> (found: Option<usize>)
    ensures
        found is Some <==> matches_of(line@) is Some,
        found is Some ==> found->0 == matches_of(line@)->0,
{
    let parts = split(line, '|');
    if parts.len() < 2 {
        return None;
    }
    let head = split(&parts[0], ':');
    assert(parts[0]@ == views(parts@)[0]);
    assert(parts[1]@ == views(parts@)[1]);
    if head.len() < 2 {
        return None;
    }
    assert(head[1]@ == views(head@)[1]);
    let winner_words = split_whitespace(&head[1]);
    let pick_words = split_whitespace(&parts[1]);
    let winners = match read_numbers_u32(&winner_words) {
        Some(v) => v,
        None => {
            return None;
        },
    };
    let picks = match read_numbers_u32(&pick_words) {
        Some(v) => v,
        None => {
            return None;
        },
    };
    Some(count_common(&winners, &picks))
}

/// The number of matches of the card on `line`.
pub fn score_card(line: &str) -> (n: usize)
    requires
        matches_of(line@) is Some,
    ensures
        n == matches_of(line@)->0,
{
    let chars = chars_of(line);
    count_matches(&chars).unwrap()
}


/// The numbers of matches of the cards on `lines`, if each can be read.
pub open spec fn all_matches(lines: Seq<Seq<char>>) -> Option<Seq<nat>> {
    if forall|i: int| 0 <= i < lines.len() ==> (#[trigger] matches_of(lines[i])) is Some {
        Some(Seq::new(lines.len(), |i: int| matches_of(lines[i])->0))
    } else {
        None
    }
}

/// How many copies of card `c` are won from the cards before card `upto`: a
/// card with `m` matches wins, for each of its copies, one copy of each of the
/// `m` cards after it.
pub open spec fn won_from(scores: Seq<nat>, c: int, upto: int) -> nat
    decreases c, upto,
{
    if upto <= 0 || c < 0 || c >= scores.len() {
        0
    } else {
        let j = upto - 1;
        won_from(scores, c, j) + (if j < c && c <= j + scores[j] {
            copies(scores, j)
        } else {
            0
        })
    }
}

/// How many copies of card `c` one ends up with: the card itself and the
/// copies won from the cards before it.
pub open spec fn copies(scores: Seq<nat>, c: int) -> nat
    decreases c, c + 1,
{
    if c < 0 || c >= scores.len() {
        0
    } else {
        1 + won_from(scores, c, c)
    }
}

/// The number of copies of each card.
pub open spec fn pile(scores: Seq<nat>) -> Seq<Option<nat>> {
    Seq::new(scores.len(), |c: int| Some(copies(scores, c)))
}

/// The answer to the puzzle `input`, one card to a line: the number of cards
/// one ends up with. There is none if a card cannot be read or the number does
/// not fit in 32 bits.
pub open spec fn answer(input: Seq<char>) -> Option<u32> {
    match all_matches(lines(input)) {
        Some(scores) => match within(sum_all(pile(scores)), u32::MAX as nat) {
            Some(v) => Some(v as u32),
            None => None,
        },
        None => None,
    }
}

/// The copies won from the cards before `upto` grow with `upto`, and no card
/// wins copies of itself or of a card before it.
pub proof fn lemma_won_from_grows(scores: Seq<nat>, c: int, a: int, b: int)
    requires
        0 <= a <= b,
    ensures
        won_from(scores, c, a) <= won_from(scores, c, b),
        c <= a ==> won_from(scores, c, a) == won_from(scores, c, b),
    decreases b - a,
{
    if a < b {
        lemma_won_from_grows(scores, c, a, b - 1);
    }
}

/// Counts the cards one ends up with, given the matches of each card.
pub fn count_cards(scores: &Vec<usize>) -> (found: Option<u32>)
    ensures
        found is Some <==> within(
            sum_all(pile(Seq::new(scores@.len(), |i: int| scores@[i] as nat))),
            u32::MAX as nat,
        ) is Some,
        found is Some ==> found->0 == sum_all(
            pile(Seq::new(scores@.len(), |i: int| scores@[i] as nat)),
        )->0,
{
    let n: usize = scores.len();
    let ghost spec_scores = Seq::new(scores@.len(), |i: int| scores@[i] as nat);
    let mut cardpile: Vec<u32> = Vec::new();
    while cardpile.len() < n
        invariant
            cardpile.len() <= n,
            forall|c: int| 0 <= c < cardpile.len() ==> cardpile[c] == 1,
        decreases n - cardpile.len(),
    {
        cardpile.push(1);
    }
    let mut i: usize = 0;
    while i < n
        invariant
            i <= n,
            n == scores.len(),
            cardpile.len() == n,
            spec_scores == Seq::new(scores@.len(), |i: int| scores@[i] as nat),
            forall|c: int|
                0 <= c < n ==> (#[trigger] cardpile[c]) == 1 + won_from(spec_scores, c, i as int),
        decreases n - i,
    {
        let score: usize = scores[i];
        let multiplier: u32 = cardpile[i];
        assert(multiplier == copies(spec_scores, i as int));
        let mut c: usize = i + 1;
        while c < n && c - i <= score
            invariant
                i < c <= n,
                n == scores.len(),
                cardpile.len() == n,
                score == scores[i as int],
                multiplier == copies(spec_scores, i as int),
                spec_scores == Seq::new(scores@.len(), |i: int| scores@[i] as nat),
                forall|k: int|
                    0 <= k < n ==> (#[trigger] cardpile[k]) == 1 + won_from(
                        spec_scores,
                        k,
                        if i < k < c {
                            i + 1
                        } else {
                            i as int
                        },
                    ),
            decreases n - c,
        {
            match cardpile[c].checked_add(multiplier) {
                Some(v) => {
                    cardpile.set(c, v);
                },
                None => {
                    proof {
                        let all = pile(spec_scores);
                        if sum_all(all) is Some {
                            lemma_sum_all_bounds(all, c as int);
                            lemma_won_from_grows(spec_scores, c as int, i + 1, c as int);
                        }
                    }
                    return None;
                },
            }
            c += 1;
        }
        i += 1;
    }
    let mut values: Vec<Option<u32>> = Vec::new();
    let mut k: usize = 0;
    while k < n
        invariant
            k <= n,
            n == scores.len(),
            cardpile.len() == n,
            values.len() == k,
            spec_scores == Seq::new(scores@.len(), |i: int| scores@[i] as nat),
            forall|c: int|
                0 <= c < n ==> (#[trigger] cardpile[c]) == 1 + won_from(spec_scores, c, n as int),
            forall|c: int| 0 <= c < k ==> (#[trigger] values[c]) == Some(cardpile[c]),
        decreases n - k,
    {
        values.push(Some(cardpile[k]));
        k += 1;
    }
    proof {
        let nats = Seq::new(values@.len(), |i: int| nat_of(values@[i]));
        assert forall|c: int| 0 <= c < n implies nats[c] == #[trigger] pile(spec_scores)[c] by {
            lemma_won_from_grows(spec_scores, c, c, n as int);
        }
        assert(nats =~= pile(spec_scores));
    }
    sum_u32(&values)
}

/// Computes the answer to the puzzle `input`, if it has one.
pub fn solve(input: &Vec<char>) -> (found: Option<u32>)
    ensures
        found == answer(input@),
{
    let all = lines_of(input);
    let mut scores: Vec<usize> = Vec::new();
    let mut i: usize = 0;
    while i < all.len()
        invariant
            i <= all.len(),
            scores.len() == i,
            views(all@) == lines(input@),
            forall|k: int| 0 <= k < i ==> (#[trigger] matches_of(views(all@)[k])) is Some,
            forall|k: int| 0 <= k < i ==> (#[trigger] scores[k]) == matches_of(all[k]@)->0,
        decreases all.len() - i,
    {
        match count_matches(&all[i]) {
            Some(v) => {
                scores.push(v);
            },
            None => {
                assert(matches_of(views(all@)[i as int]) is None);
                return None;
            },
        }
        i += 1;
    }
    assert(Seq::new(scores@.len(), |i: int| scores@[i] as nat) =~= all_matches(views(all@))->0);
    count_cards(&scores)
}

/// The answer to the puzzle `input`, in decimal digits.
pub fn process(_input: &str) -> (out: String)
    requires
        answer(_input@) is Some,
    ensures
        out@ == decimal(answer(_input@)->0 as nat),
{
    let chars = chars_of(_input);
    decimal_string(solve(&chars).unwrap() as u64)
}

} // verus!
