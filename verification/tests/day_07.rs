use advent2023::day_07::part1;
use advent2023::day_07::part1::{CardValue, HandType};
use advent2023::day_07::part1_b;
use advent2023::day_07::part2;
use advent2023::text::chars_of;

#[test]
fn day_07_part1_test_process() {
    let input = "32T3K 765\n\
                 T55J5 684\n\
                 KK677 28\n\
                 KTJJT 220\n\
                 QQQJA 483";
    assert_eq!("6440", part1::process(input))
}

#[test]
fn part1_test_scoring() {
    assert_eq!(part1::score_hand("23456"), 0x23456);
    assert_eq!(part1::score_hand("TJQKA"), 0xabcde);
    assert!(part1::score_hand("KK677") > part1::score_hand("KTJJT"));
}

#[test]
fn part1_test_hand_type_from_str() {
    assert_eq!(HandType::from_str("AAAAA"), HandType::FiveOfAKind);
    assert_eq!(HandType::from_str("A4AAA"), HandType::FourOfAKind);
    assert_eq!(HandType::from_str("A444A"), HandType::FullHouse);
    assert_eq!(HandType::from_str("KKAAQ"), HandType::TwoPair);
    assert_eq!(HandType::from_str("23456"), HandType::HighCard);
    assert_eq!(HandType::from_str("23456"), HandType::HighCard);

    assert_eq!(HandType::from_str("32T3K"), HandType::OnePair);
    assert_eq!(HandType::from_str("T55J5"), HandType::ThreeOfAKind);
    assert_eq!(HandType::from_str("KK677"), HandType::TwoPair);
    assert_eq!(HandType::from_str("KTJJT"), HandType::TwoPair);
    assert_eq!(HandType::from_str("QQQJA"), HandType::ThreeOfAKind);
}

#[test]
fn test_card_value() {
    assert_eq!(CardValue::from_char('A'), Some(CardValue::A));
    assert_eq!(CardValue::from_char('K'), Some(CardValue::K));
    assert_eq!(CardValue::from_char('J'), Some(CardValue::J));
    assert_eq!(CardValue::from_char('Q'), Some(CardValue::Q));
    assert_eq!(CardValue::from_char('T'), Some(CardValue::T));
    assert_eq!(CardValue::from_char('8'), Some(CardValue::Num(8)));
    assert_eq!(CardValue::from_char('2'), Some(CardValue::Num(2)));
    assert_eq!(CardValue::from_char('3'), Some(CardValue::Num(3)));
}

#[test]
fn test_card_value_sort() {
    let cards_input = "2A473KQ5J69T8";

    let mut cards: Vec<CardValue> = cards_input
        .chars()
        .map(|c| CardValue::from_char(c).unwrap())
        .collect();

    cards.sort();

    assert_eq!(cards.first(), Some(&CardValue::Num(2)));
    assert_eq!(cards.get(1), Some(&CardValue::Num(3)));
    assert_eq!(cards.get(2), Some(&CardValue::Num(4)));
    assert_eq!(cards.get(3), Some(&CardValue::Num(5)));
    assert_eq!(cards.get(4), Some(&CardValue::Num(6)));
    assert_eq!(cards.get(5), Some(&CardValue::Num(7)));
    assert_eq!(cards.get(6), Some(&CardValue::Num(8)));
    assert_eq!(cards.get(7), Some(&CardValue::Num(9)));
    assert_eq!(cards.get(8), Some(&CardValue::T));
    assert_eq!(cards.get(9), Some(&CardValue::J));
    assert_eq!(cards.get(10), Some(&CardValue::Q));
    assert_eq!(cards.get(11), Some(&CardValue::K));
    assert_eq!(cards.get(12), Some(&CardValue::A));
}

#[test]
fn test_hand() {
    let mut v: Vec<HandType> = vec![
        HandType::HighCard,
        HandType::OnePair,
        HandType::TwoPair,
        HandType::ThreeOfAKind,
        HandType::FullHouse,
        HandType::FourOfAKind,
        HandType::FiveOfAKind,
    ];
    v.sort();

    assert_eq!(v.first(), Some(&HandType::HighCard));
    assert_eq!(v.get(1), Some(&HandType::OnePair));
    assert_eq!(v.get(2), Some(&HandType::TwoPair));
    assert_eq!(v.get(3), Some(&HandType::ThreeOfAKind));
    assert_eq!(v.get(4), Some(&HandType::FullHouse));
    assert_eq!(v.get(5), Some(&HandType::FourOfAKind));
    assert_eq!(v.get(6), Some(&HandType::FiveOfAKind));
}

#[test]
fn day_07_part2_test_process() {
    let input = "32T3K 765\n\
                       T55J5 684\n\
                       KK677 28\n\
                       KTJJT 220\n\
                       QQQJA 483";
    assert_eq!("5905", part2::process(input))
}

#[test]
fn part2_test_scoring() {
    assert_eq!(part2::score_hand("TJQKA"), 0xa1cde);
}

#[test]
fn part2_test_hand_type_from_str() {
    assert_eq!(part2::HandType::from_str("32T3J"), part2::HandType::ThreeOfAKind);
    assert_eq!(part2::HandType::from_str("T55J5"), part2::HandType::FourOfAKind);
    assert_eq!(part2::HandType::from_str("KTJJT"), part2::HandType::FourOfAKind);
    assert_eq!(part2::HandType::from_str("QQQJA"), part2::HandType::FourOfAKind);
    assert_eq!(part2::HandType::from_str("JJJJJ"), part2::HandType::FiveOfAKind);
}

#[test]
fn hands_of_other_lengths() {
    assert_eq!(HandType::from_str(""), HandType::HighCard);
    assert_eq!(HandType::from_str("AAAAAA"), HandType::HighCard);
    assert_eq!(HandType::from_str("AAAKKQQ"), HandType::FullHouse);
    assert_eq!(part2::HandType::from_str(""), part2::HandType::FiveOfAKind);
    assert_eq!(part2::HandType::from_str("JJ"), part2::HandType::FiveOfAKind);
    assert_eq!(part2::HandType::from_str("AJJ"), part2::HandType::ThreeOfAKind);
}

#[test]
fn a_score_keeps_its_lowest_bits() {
    assert_eq!(part1::score_hand("A23456789"), 0x23456789);
    assert_eq!(part1::score_hand(""), 0);
    assert_eq!(part1::checked_score(&chars_of("2x")), None);
}

#[test]
fn tied_hands_keep_their_order() {
    assert_eq!(part1::solve(&chars_of("22223 10\n22223 1")), Some(10 + 2));
    assert_eq!(part1::solve(&chars_of("22223 1\n22223 10")), Some(1 + 20));
    assert_eq!(part1::solve(&chars_of("")), Some(0));
}

#[test]
fn hands_that_cannot_be_read() {
    assert_eq!(part1::solve(&chars_of("22223")), None);
    assert_eq!(part1::solve(&chars_of("22223 x")), None);
    assert_eq!(part1::solve(&chars_of("2222x 1")), None);
    assert_eq!(part1::solve(&chars_of("22223  1")), None);
    assert_eq!(part1::solve(&chars_of("22223 4294967295\n33332 1")), None);
    assert_eq!(part1::solve(&chars_of("33332 4294967295\n22223 0")), None);
    assert_eq!(part1::solve(&chars_of("22223 4294967295\n33332 0")), Some(4294967295));
}

#[test]
fn the_other_way_of_ranking_gives_the_same_winnings() {
    let input = "32T3K 765\n\
                 T55J5 684\n\
                 KK677 28\n\
                 KTJJT 220\n\
                 QQQJA 483";
    assert_eq!("6440", part1_b::process(input));
}

#[test]
fn types_and_card_values_of_hands_of_five() {
    assert_eq!(part1_b::score_hand("AAAAA"), (part1_b::HandType::FiveOfAKind, (14, 14, 14, 14, 14)));
    assert_eq!(part1_b::score_hand("A4AAA"), (part1_b::HandType::FourOfAKind, (14, 4, 14, 14, 14)));
    assert_eq!(part1_b::score_hand("A444A"), (part1_b::HandType::FullHouse, (14, 4, 4, 4, 14)));
    assert_eq!(part1_b::score_hand("T55J5"), (part1_b::HandType::ThreeOfAKind, (10, 5, 5, 11, 5)));
    assert_eq!(part1_b::score_hand("KTJJT"), (part1_b::HandType::TwoPair, (13, 10, 11, 11, 10)));
    assert_eq!(part1_b::score_hand("32T3K"), (part1_b::HandType::OnePair, (3, 2, 10, 3, 13)));
    assert_eq!(part1_b::score_hand("23456"), (part1_b::HandType::HighCard, (2, 3, 4, 5, 6)));
    assert_eq!(part1_b::try_score_hand(&chars_of("2345")), None);
    assert_eq!(part1_b::try_score_hand(&chars_of("234567")), None);
    assert_eq!(part1_b::try_score_hand(&chars_of("2345x")), None);
    assert_eq!(part1_b::try_score_hand(&chars_of("AAAAAAAAAAAAAA")), None);
}

#[test]
fn winnings_by_place() {
    let cards = (2, 2, 2, 2, 2);
    assert_eq!(part1_b::winnings_of(&vec![(0, cards, 5), (1, cards, 7)]), Some(5 + 14));
    assert_eq!(part1_b::winnings_of(&vec![]), Some(0));
    assert_eq!(part1_b::winnings_of(&vec![(0, cards, 1), (0, cards, 2147483648)]), None);
    assert_eq!(part1_b::solve(&chars_of("33332 1\n22223 10")), Some(10 + 2));
    assert_eq!(part1_b::solve(&chars_of("22223 10\n22223 1")), Some(10 + 2));
    assert_eq!(part1_b::solve(&chars_of("22223")), None);
}

#[test]
fn hands_are_compared_by_type_and_score() {
    let low = part1::Hand { hand_type: HandType::OnePair, bid: 9, score: 0x23456 };
    let high = part1::Hand { hand_type: HandType::OnePair, bid: 1, score: 0x23457 };
    let other = part1::Hand { hand_type: HandType::OnePair, bid: 5, score: 0x23456 };
    let strong = part1::Hand { hand_type: HandType::TwoPair, bid: 1, score: 0 };
    assert!(low < high);
    assert!(high < strong);
    assert!(low == other);
    assert!(low != high);
    assert!(!(low < other) && !(other < low));
}
