use itertools::Itertools;
use std::collections::HashMap;
use vstd::prelude::*;
use crate::day_07::cards::{bid_part, card_value, count_of, hand_part, split_line};
use crate::text::{
    chars_of, decimal, decimal_string, lines, lines_of, same_chars, views,
};

verus! {

/// The type of a hand, from the weakest to the strongest.
#[derive(Debug, Clone, Copy, PartialEq, Eq, Structural)]
pub enum HandType {
    HighCard,
    OnePair,
    TwoPair,
    ThreeOfAKind,
    FullHouse,
    FourOfAKind,
    FiveOfAKind,
}

/// The values of the five cards of a hand, the first card first.
pub type Cards = (u32, u32, u32, u32, u32);

/// A hand as it is ranked: the strength of its type, the values of its cards,
/// and its bid.
pub type Ranked = (u8, Cards, u32);

/// How often each character of `hand` stands in it.
pub open spec fn counts_of(hand: Seq<char>) -> Map<char, usize> {
    Map::new(|c: char| count_of(hand, c) > 0, |c: char| count_of(hand, c) as usize)
}

/// The values of `counts` in ascending order, as `Itertools::sorted` gives
/// them.
pub uninterp spec fn sorted_values(counts: Map<char, usize>) -> Seq<usize>;

/// The hands `hands` in ascending order of the strength of their type and then
/// of the values of their cards, as `Itertools::sorted_by_key` gives them.
pub uninterp spec fn sorted_hands(hands: Seq<Ranked>) -> Seq<Ranked>;

/// Whether the numbers of `s` ascend.
pub open spec fn ascending(s: Seq<usize>) -> bool {
    forall|i: int, j: int| 0 <= i < j < s.len() ==> s[i] <= s[j]
}

/// Whether the cards `a` come before the cards `b`: at the first place at
/// which they differ, `a` has the lesser value.
pub open spec fn cards_before(a: Cards, b: Cards) -> bool {
    a.0 < b.0 || (a.0 == b.0 && (a.1 < b.1 || (a.1 == b.1 && (a.2 < b.2 || (a.2 == b.2 && (a.3
        < b.3 || (a.3 == b.3 && a.4 < b.4)))))))
}

/// Whether the hand `a` ranks below the hand `b`: by the strength of its type,
/// and then by its cards.
pub open spec fn ranks_below(a: Ranked, b: Ranked) -> bool {
    a.0 < b.0 || (a.0 == b.0 && cards_before(a.1, b.1))
}

/// The decimal digits of the numbers of `values`, one number after the other.
pub open spec fn decimals(values: Seq<usize>) -> Seq<char>
    decreases values.len(),
{
    if values.len() == 0 {
        Seq::empty()
    } else {
        decimals(values.drop_last()) + decimal(values.last() as nat)
    }
}

/// Counts how often each character of `hand` stands in it, by
/// `Itertools::counts`.
///
/// Not proved: that the map holds exactly the characters of the hand, each
/// with the number of times it stands in it.
#[verifier::external_body]
fn counts(hand: &Vec<char>) -> (found: HashMap<char, usize>)
    ensures
        found@ == counts_of(hand@),
{
    hand.iter().copied().counts()
}

/// The values of `counts` in ascending order, by `Itertools::sorted`.
///
/// Not proved: that the result depends on the contents of the map alone, that
/// it ascends, and that it has one number for each key of the map, each the
/// value of a key.
#[verifier::external_body]
fn sorted_counts(counts: &HashMap<char, usize>) -> (values: Vec<usize>)
    ensures
        values@ == sorted_values(counts@),
        ascending(values@),
        values@.len() == counts@.dom().len(),
        forall|i: int|
            0 <= i < values@.len() ==> exists|c: char|
                counts@.contains_key(c) && counts@[c] == #[trigger] values@[i],
{
    counts.values().copied().sorted().collect()
}

/// The decimal digits of `values`, one number after the other, by
/// `Itertools::join` with an empty separator.
///
/// Not proved: that the text holds the decimal digits of each number, without
/// leading zeros, in order, and nothing else.
#[verifier::external_body]
fn join(values: &Vec<usize>) -> (word: String)
    ensures
        word@ == decimals(values@),
{
    values.iter().join("")
}

/// The five values of `values` as a tuple, by `Itertools::collect_tuple`.
///
/// Not proved: that there is a tuple if and only if there are exactly five
/// values, and that it holds them in order.
#[verifier::external_body]
fn collect_tuple(values: Vec<u32>) -> (found: Option<Cards>)
    ensures
        found is Some <==> values@.len() == 5,
        found is Some ==> found->0 == (values@[0], values@[1], values@[2], values@[3], values@[4]),
{
    values.into_iter().collect_tuple()
}

/// The hands `hands` in ascending order of their type and cards, by
/// `Itertools::sorted_by_key`.
///
/// Not proved: that the result depends on the hands alone, that it holds the
/// same hands, each as often, and that no hand in it ranks below one that
/// stands before it.
#[verifier::external_body]
fn sorted_by_key(hands: Vec<Ranked>) -> (sorted: Vec<Ranked>)
    ensures
        sorted@ == sorted_hands(hands@),
        sorted@.to_multiset() == hands@.to_multiset(),
        forall|i: int, j: int| 0 <= i < j < sorted@.len() ==> !ranks_below(sorted@[j], sorted@[i]),
{
    hands.into_iter().sorted_by_key(|x| (x.0, x.1)).collect()
}

impl HandType {
    /// The strength of the type, from 0 for a high card to 6 for five of a
    /// kind.
    pub open spec fn strength(self) -> u8 {
        match self {
            HandType::HighCard => 0,
            HandType::OnePair => 1,
            HandType::TwoPair => 2,
            HandType::ThreeOfAKind => 3,
            HandType::FullHouse => 4,
            HandType::FourOfAKind => 5,
            HandType::FiveOfAKind => 6,
        }
    }

    /// The strength of the type.
    pub fn strength_value(&self) -> (s: u8)
        ensures
            s == self.strength(),
    {
        match self {
            HandType::HighCard => 0,
            HandType::OnePair => 1,
            HandType::TwoPair => 2,
            HandType::ThreeOfAKind => 3,
            HandType::FullHouse => 4,
            HandType::FourOfAKind => 5,
            HandType::FiveOfAKind => 6,
        }
    }
}

/// The type that the word `word` stands for: the counts of the cards of a
/// hand of five cards, in ascending order. No other word stands for a type.
pub open spec fn type_of_word(word: Seq<char>) -> Option<HandType> {
    if word == "5"@ {
        Some(HandType::FiveOfAKind)
    } else if word == "14"@ {
        Some(HandType::FourOfAKind)
    } else if word == "23"@ {
        Some(HandType::FullHouse)
    } else if word == "113"@ {
        Some(HandType::ThreeOfAKind)
    } else if word == "122"@ {
        Some(HandType::TwoPair)
    } else if word == "1112"@ {
        Some(HandType::OnePair)
    } else if word == "11111"@ {
        Some(HandType::HighCard)
    } else {
        None
    }
}

/// The word of the hand `hand`: the counts of its cards in ascending order,
/// written one after the other.
pub open spec fn word_of(hand: Seq<char>) -> Seq<char> {
    decimals(sorted_values(counts_of(hand)))
}

/// The values of the cards `hand`, where a knave is worth 11, if each of them
/// is a card.
pub open spec fn values_of(hand: Seq<char>) -> Option<Seq<u32>> {
    if forall|i: int| 0 <= i < hand.len() ==> (#[trigger] card_value(hand[i], 11)) is Some {
        Some(Seq::new(hand.len(), |i: int| card_value(hand[i], 11)->0))
    } else {
        None
    }
}

/// The type and the values of the cards of the hand `hand`. There are none if
/// its word stands for no type, one of its characters is no card, or it does
/// not have five cards.
pub open spec fn scored(hand: Seq<char>) -> Option<(HandType, Cards)> {
    match (type_of_word(word_of(hand)), values_of(hand)) {
        (Some(hand_type), Some(values)) => if values.len() == 5 {
            Some((hand_type, (values[0], values[1], values[2], values[3], values[4])))
        } else {
            None
        },
        _ => None,
    }
}

/// The hand that `line` describes as it is ranked: its cards in front of the
/// first space, its bid behind it.
pub open spec fn ranked_line(line: Seq<char>) -> Option<Ranked> {
    match (hand_part(line), bid_part(line)) {
        (Some(hand), Some(bid)) => match scored(hand) {
            Some((hand_type, cards)) => Some((hand_type.strength(), cards, bid)),
            None => None,
        },
        _ => None,
    }
}

/// The hands that `lines` describe, if each of them describes one.
pub open spec fn ranked_lines(lines: Seq<Seq<char>>) -> Option<Seq<Ranked>> {
    if forall|i: int| 0 <= i < lines.len() ==> (#[trigger] ranked_line(lines[i])) is Some {
        Some(Seq::new(lines.len(), |i: int| ranked_line(lines[i])->0))
    } else {
        None
    }
}

/// What the hands `hands`, in the order of their rank, win together: each its
/// bid times its place, from one. There is none if there are more hands than
/// a number of 32 bits can count, or a product or a sum on the way does not
/// fit in 32 bits.
pub open spec fn won(hands: Seq<Ranked>) -> Option<u32>
    decreases hands.len(),
{
    if hands.len() == 0 {
        Some(0)
    } else if hands.len() > u32::MAX {
        None
    } else {
        match won(hands.drop_last()) {
            Some(sum) => {
                let total = sum + hands.len() * hands.last().2;
                if total <= u32::MAX {
                    Some(total as u32)
                } else {
                    None
                }
            },
            None => None,
        }
    }
}

/// The answer to the puzzle `input`, one hand to a line: what the hands win
/// once they are put in the order of their rank.
pub open spec fn answer(input: Seq<char>) -> Option<u32> {
    match ranked_lines(lines(input)) {
        Some(hands) => won(sorted_hands(hands)),
        None => None,
    }
}

/// Computes the type that the word `word` stands for.
fn read_type(word: &Vec<char>) -> (found: Option<HandType>)
    ensures
        found == type_of_word(word@),
{
    if same_chars(word, &chars_of("5")) {
        Some(HandType::FiveOfAKind)
    } else if same_chars(word, &chars_of("14")) {
        Some(HandType::FourOfAKind)
    } else if same_chars(word, &chars_of("23")) {
        Some(HandType::FullHouse)
    } else if same_chars(word, &chars_of("113")) {
        Some(HandType::ThreeOfAKind)
    } else if same_chars(word, &chars_of("122")) {
        Some(HandType::TwoPair)
    } else if same_chars(word, &chars_of("1112")) {
        Some(HandType::OnePair)
    } else if same_chars(word, &chars_of("11111")) {
        Some(HandType::HighCard)
    } else {
        None
    }
}

/// Computes the value of the card `card`, where a knave is worth 11.
fn value_of(card: char) -> (found: Option<u32>)
    ensures
        found == card_value(card, 11),
{
    match card {
        'A' => Some(14),
        'K' => Some(13),
        'Q' => Some(12),
        'J' => Some(11),
        'T' => Some(10),
        value => match crate::text::digit_of(value) {
            Some(d) => Some(d as u32),
            None => None,
        },
    }
}

/// Computes the values of the cards `hand`, if each of them is a card.
fn read_values(hand: &Vec<char>) -> (found: Option<Vec<u32>>)
    ensures
        found is Some <==> values_of(hand@) is Some,
        found is Some ==> found->0@ == values_of(hand@)->0,
{
    let mut values: Vec<u32> = Vec::new();
    let mut i: usize = 0;
    while i < hand.len()
        invariant
            i <= hand.len(),
            values.len() == i,
            forall|k: int| 0 <= k < i ==> (#[trigger] card_value(hand@[k], 11)) == Some(values[k]),
        decreases hand.len() - i,
    {
        match value_of(hand[i]) {
            Some(v) => {
                values.push(v);
            },
            None => {
                assert(card_value(hand@[i as int], 11) is None);
                return None;
            },
        }
        i += 1;
    }
    assert(values@ =~= values_of(hand@)->0);
    Some(values)
}

/// Computes the type and the values of the cards of the hand `hand`, if it
/// has them.
pub fn try_score_hand(hand: &Vec<char>) -> (found: Option<(HandType, Cards)>)
    ensures
        found == scored(hand@),
{
    let found_counts = counts(hand);
    let values = sorted_counts(&found_counts);
    let word = join(&values);
    let word_chars = chars_of(word.as_str());
    let hand_type = match read_type(&word_chars) {
        Some(t) => t,
        None => {
            return None;
        },
    };
    let card_values = match read_values(hand) {
        Some(v) => v,
        None => {
            return None;
        },
    };
    match collect_tuple(card_values) {
        Some(card_scores) => Some((hand_type, card_scores)),
        None => None,
    }
}

/// The type and the values of the cards of the hand `hand`.
pub fn score_hand(hand: &str) -> (found: (HandType, Cards))
    requires
        scored(hand@) is Some,
    ensures
        found == scored(hand@)->0,
{
    let chars = chars_of(hand);
    try_score_hand(&chars).unwrap()
}

/// Where the hands win something together, so do the first `k` of them.
pub proof fn lemma_won_start(hands: Seq<Ranked>, k: int)
    requires
        0 <= k <= hands.len(),
        won(hands) is Some,
    ensures
        won(hands.take(k)) is Some,
    decreases hands.len(),
{
    if k == hands.len() {
        assert(hands.take(k) =~= hands);
    } else {
        lemma_won_start(hands.drop_last(), k);
        assert(hands.drop_last().take(k) =~= hands.take(k));
    }
}

/// Computes what the hands `hands`, in the order of their rank, win together.
pub fn winnings_of(hands: &Vec<Ranked>) -> (found: Option<u32>)
    ensures
        found == won(hands@),
{
    let mut sum: u32 = 0;
    let mut index: usize = 0;
    assert(hands@.take(0) =~= Seq::<Ranked>::empty());
    while index < hands.len()
        invariant
            index <= hands.len(),
            won(hands@.take(index as int)) == Some(sum),
        decreases hands.len() - index,
    {
        proof {
            assert(hands@.take(index + 1).drop_last() =~= hands@.take(index as int));
            assert(hands@.take(index + 1).last() == hands@[index as int]);
            if won(hands@) is Some {
                lemma_won_start(hands@, index + 1);
            }
        }
        if index as u64 >= 0xFFFF_FFFFu64 {
            return None;
        }
        let place: u64 = index as u64 + 1;
        let bid: u64 = hands[index].2 as u64;
        assert(place * bid <= 0xFFFF_FFFF * 0xFFFF_FFFF) by (nonlinear_arith)
            requires
                place <= 0xFFFF_FFFF,
                bid <= 0xFFFF_FFFF,
        ;
        let total: u64 = sum as u64 + place * bid;
        if total > 0xFFFF_FFFFu64 {
            return None;
        }
        sum = total as u32;
        index += 1;
    }
    assert(hands@.take(hands.len() as int) =~= hands@);
    Some(sum)
}

/// Computes the answer to the puzzle `input`, if it has one.
pub fn solve(input: &Vec<char>) -> (found: Option<u32>)
    ensures
        found == answer(input@),
{
    let all = lines_of(input);
    let mut hands: Vec<Ranked> = Vec::new();
    let mut i: usize = 0;
    while i < all.len()
        invariant
            i <= all.len(),
            hands.len() == i,
            views(all@) == lines(input@),
            forall|k: int| 0 <= k < i ==> (#[trigger] ranked_line(views(all@)[k])) is Some,
            forall|k: int| 0 <= k < i ==> (#[trigger] hands[k]) == ranked_line(all[k]@)->0,
        decreases all.len() - i,
    {
        let ranked = match split_line(&all[i]) {
            Some((hand, bid)) => match try_score_hand(&hand) {
                Some((hand_type, cards)) => Some((hand_type.strength_value(), cards, bid)),
                None => None,
            },
            None => None,
        };
        match ranked {
            Some(hand) => {
                hands.push(hand);
            },
            None => {
                assert(ranked_line(views(all@)[i as int]) is None);
                return None;
            },
        }
        i += 1;
    }
    assert(hands@ =~= ranked_lines(views(all@))->0);
    let sorted = sorted_by_key(hands);
    winnings_of(&sorted)
}

/// The answer to the puzzle `input`, in decimal digits.
pub fn process(input: &str) -> (out: String)
    requires
        answer(input@) is Some,
    ensures
        out@ == decimal(answer(input@)->0 as nat),
{
    let chars = chars_of(input);
    decimal_string(solve(&chars).unwrap() as u64)
}

} // verus!
