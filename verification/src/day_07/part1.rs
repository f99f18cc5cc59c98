use vstd::prelude::*;
use crate::day_07::cards::{
    bid_part, card_value, hand_part, lemma_score_of_start, score_of, split_line, tied,
    total_winnings, weaker, winnings, plain_strength, plain_strength_of, Play,
};
use crate::text::{chars_of, decimal, decimal_string, digit_of, lines, lines_of, views};

verus! {

/// The type of a hand, from the weakest to the strongest.
#[derive(Debug, Ord, PartialEq, PartialOrd, Eq)]
pub enum HandType {
    HighCard,
    OnePair,
    TwoPair,
    ThreeOfAKind,
    FullHouse,
    FourOfAKind,
    FiveOfAKind,
}

/// The value of one card: a number card or one of the five picture cards.
#[derive(Debug, Ord, PartialEq, PartialOrd, Eq)]
pub enum CardValue {
    Num(u8),
    T,
    J,
    Q,
    K,
    A,
}

/// One hand with its bid.
#[derive(Debug)]
pub struct Hand {
    pub hand_type: HandType,
    pub bid: u32,
    pub score: u32,
}

impl HandType {
    /// The strength of the type, from 0 for a high card to 6 for five of a
    /// kind.
    pub open spec fn strength(self) -> u8 {
        match self {
            HandType::HighCard => 0,
            HandType::OnePair => 1,
            HandType::TwoPair => 2,
            HandType::ThreeOfAKind => 3,
            HandType::FullHouse => 4,
            HandType::FourOfAKind => 5,
            HandType::FiveOfAKind => 6,
        }
    }

    /// The strength of the type.
    pub fn strength_value(&self) -> (s: u8)
        ensures
            s == self.strength(),
    {
        match self {
            HandType::HighCard => 0,
            HandType::OnePair => 1,
            HandType::TwoPair => 2,
            HandType::ThreeOfAKind => 3,
            HandType::FullHouse => 4,
            HandType::FourOfAKind => 5,
            HandType::FiveOfAKind => 6,
        }
    }

    /// The type of the given strength; five of a kind from 6 on.
    pub fn of_strength(strength: u8) -> (t: HandType)
        ensures
            strength <= 6 ==> t.strength() == strength,
    {
        match strength {
            0 => HandType::HighCard,
            1 => HandType::OnePair,
            2 => HandType::TwoPair,
            3 => HandType::ThreeOfAKind,
            4 => HandType::FullHouse,
            5 => HandType::FourOfAKind,
            _ => HandType::FiveOfAKind,
        }
    }

    /// The type of the hand `s`, by its cards as they stand.
    pub fn from_str(s: &str) -> (t: HandType)
        ensures
            t.strength() == plain_strength(s@),
    {
        let chars = chars_of(s);
        HandType::of_strength(plain_strength_of(&chars))
    }
}

impl CardValue {
    /// Whether the value is that of a card: a number card shows at most 9.
    pub open spec fn is_card(self) -> bool {
        match self {
            CardValue::Num(n) => n <= 9,
            _ => true,
        }
    }

    /// The number that the value stands for.
    pub open spec fn number(self) -> u32 {
        match self {
            CardValue::Num(n) => n as u32,
            CardValue::T => 10,
            CardValue::J => 11,
            CardValue::Q => 12,
            CardValue::K => 13,
            CardValue::A => 14,
        }
    }

    /// The value of the card `c`, if it is a card.
    pub fn from_char(c: char) -> (found: Option<CardValue>)
        ensures
            found is Some <==> card_value(c, 11) is Some,
            found is Some ==> found->0.is_card() && found->0.number() == card_value(c, 11)->0,
    {
        match c {
            'A' => Some(CardValue::A),
            'K' => Some(CardValue::K),
            'Q' => Some(CardValue::Q),
            'J' => Some(CardValue::J),
            'T' => Some(CardValue::T),
            _ => match digit_of(c) {
                Some(n) => Some(CardValue::Num(n)),
                None => None,
            },
        }
    }

    /// The number that the value stands for.
    pub fn value(&self) -> (v: u32)
        requires
            self.is_card(),
        ensures
            v == self.number(),
            v < 16,
    {
        match self {
            CardValue::Num(n) => *n as u32,
            CardValue::T => 0x0a,
            CardValue::J => 0x0b,
            CardValue::Q => 0x0c,
            CardValue::K => 0x0d,
            CardValue::A => 0x0e,
        }
    }
}

impl Hand {
    /// The hand as it is played.
    pub open spec fn play(self) -> Play {
        Play { strength: self.hand_type.strength(), score: self.score, bid: self.bid }
    }
}

impl PartialEq for Hand {
    /// Whether two hands are of the same type and score, whatever their bids.
    fn eq(&self, other: &Self) -> (same: bool) {
        self.hand_type.strength_value() == other.hand_type.strength_value() && self.score
            == other.score
    }
}

impl vstd::std_specs::cmp::PartialEqSpecImpl for Hand {
    open spec fn obeys_eq_spec() -> bool {
        true
    }

    open spec fn eq_spec(&self, other: &Self) -> bool {
        tied(self.play(), other.play())
    }
}

impl PartialOrd for Hand {
    /// The order of two hands: by their type, and then by their score.
    fn partial_cmp(&self, other: &Self) -> (order: Option<std::cmp::Ordering>) {
        let mine = self.hand_type.strength_value();
        let theirs = other.hand_type.strength_value();
        if mine < theirs {
            Some(std::cmp::Ordering::Less)
        } else if mine > theirs {
            Some(std::cmp::Ordering::Greater)
        } else if self.score < other.score {
            Some(std::cmp::Ordering::Less)
        } else if self.score > other.score {
            Some(std::cmp::Ordering::Greater)
        } else {
            Some(std::cmp::Ordering::Equal)
        }
    }
}

impl vstd::std_specs::cmp::PartialOrdSpecImpl for Hand {
    open spec fn obeys_partial_cmp_spec() -> bool {
        true
    }

    open spec fn partial_cmp_spec(&self, other: &Self) -> Option<std::cmp::Ordering> {
        if weaker(self.play(), other.play()) {
            Some(std::cmp::Ordering::Less)
        } else if weaker(other.play(), self.play()) {
            Some(std::cmp::Ordering::Greater)
        } else {
            Some(std::cmp::Ordering::Equal)
        }
    }
}

/// The hand that `line` describes: its cards in front of the first space, its
/// bid behind it. There is none without a space, with a bid that is no number
/// of 32 bits, or with a character that is no card.
pub open spec fn line_play(line: Seq<char>) -> Option<Play> {
    match (hand_part(line), bid_part(line)) {
        (Some(cards), Some(bid)) => match score_of(cards, 11) {
            Some(score) => Some(Play { strength: plain_strength(cards), score, bid }),
            None => None,
        },
        _ => None,
    }
}

/// The hands that `lines` describe, if each of them describes one.
pub open spec fn line_plays(lines: Seq<Seq<char>>) -> Option<Seq<Play>> {
    if forall|i: int| 0 <= i < lines.len() ==> (#[trigger] line_play(lines[i])) is Some {
        Some(Seq::new(lines.len(), |i: int| line_play(lines[i])->0))
    } else {
        None
    }
}

/// The answer to the puzzle `input`, one hand to a line: the total winnings,
/// each hand winning its bid times its rank.
pub open spec fn answer(input: Seq<char>) -> Option<u32> {
    match line_plays(lines(input)) {
        Some(plays) => winnings(plays),
        None => None,
    }
}

/// Computes the score of the cards `hand_str`, if each is a card.
pub fn checked_score(hand: &Vec<char>) -> (found: Option<u32>)
    ensures
        found == score_of(hand@, 11),
{
    let mut acc: u32 = 0;
    let mut i: usize = 0;
    assert(hand@.take(0) =~= Seq::<char>::empty());
    while i < hand.len()
        invariant
            i <= hand.len(),
            score_of(hand@.take(i as int), 11) == Some(acc),
        decreases hand.len() - i,
    {
        proof {
            assert(hand@.take(i + 1).drop_last() =~= hand@.take(i as int));
            assert(hand@.take(i + 1).last() == hand@[i as int]);
            if score_of(hand@, 11) is Some {
                lemma_score_of_start(hand@, 11, i + 1);
            }
        }
        match CardValue::from_char(hand[i]) {
            Some(card) => {
                let v = card.value();
                assert(((acc << 4) | v) == (acc as u64 * 16 + v as u64) % 0x1_0000_0000)
                    by (bit_vector)
                    requires
                        v < 16,
                ;
                acc = (acc << 4) | v;
            },
            None => {
                return None;
            },
        }
        i += 1;
    }
    assert(hand@.take(hand.len() as int) =~= hand@);
    Some(acc)
}

/// The score of the cards `hand_str`: their values, four bits each, the first
/// card highest.
pub fn score_hand(hand_str: &str) -> (score: u32)
    requires
        score_of(hand_str@, 11) is Some,
    ensures
        score == score_of(hand_str@, 11)->0,
{
    let chars = chars_of(hand_str);
    checked_score(&chars).unwrap()
}

/// Reads the hand that `line` describes, if it describes one.
pub fn read_hand(line: &Vec<char>) -> (found: Option<Hand>)
    ensures
        found is Some <==> line_play(line@) is Some,
        found is Some ==> found->0.play() == line_play(line@)->0,
{
    match split_line(line) {
        Some((cards, bid)) => {
            let hand_type = HandType::of_strength(plain_strength_of(&cards));
            match checked_score(&cards) {
                Some(score) => Some(Hand { hand_type, bid, score }),
                None => None,
            }
        },
        None => None,
    }
}

/// Computes the answer to the puzzle `input`, if it has one.
pub fn solve(input: &Vec<char>) -> (found: Option<u32>)
    ensures
        found == answer(input@),
{
    let all = lines_of(input);
    let mut plays: Vec<Play> = Vec::new();
    let mut i: usize = 0;
    while i < all.len()
        invariant
            i <= all.len(),
            plays.len() == i,
            views(all@) == lines(input@),
            forall|k: int| 0 <= k < i ==> (#[trigger] line_play(views(all@)[k])) is Some,
            forall|k: int| 0 <= k < i ==> (#[trigger] plays[k]) == line_play(all[k]@)->0,
        decreases all.len() - i,
    {
        match read_hand(&all[i]) {
            Some(hand) => {
                plays.push(
                    Play {
                        strength: hand.hand_type.strength_value(),
                        score: hand.score,
                        bid: hand.bid,
                    },
                );
            },
            None => {
                assert(line_play(views(all@)[i as int]) is None);
                return None;
            },
        }
        i += 1;
    }
    assert(plays@ =~= line_plays(views(all@))->0);
    total_winnings(&plays)
}

/// The answer to the puzzle `input`, in decimal digits.
pub fn process(input: &str) -> (out: String)
    requires
        answer(input@) is Some,
    ensures
        out@ == decimal(answer(input@)->0 as nat),
{
    let chars = chars_of(input);
    decimal_string(solve(&chars).unwrap() as u64)
}

} // verus!
