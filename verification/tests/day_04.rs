use advent2023::day_04::part1;
use advent2023::day_04::part2;
use advent2023::day_04::part2::score_card;
use advent2023::text::chars_of;

#[test]
fn day_04_part1_test_process() {
    let input = "Card 1: 41 48 83 86 17 | 83 86  6 31 17  9 48 53\n\
                 Card 2: 13 32 20 16 61 | 61 30 68 82 17 32 24 19\n\
                 Card 3:  1 21 53 59 44 | 69 82 63 72 16 21 14  1\n\
                 Card 4: 41 92 73 84 69 | 59 84 76 51 58  5 54 83\n\
                 Card 5: 87 83 26 28 32 | 88 30 70 12 93 22 82 36\n\
                 Card 6: 31 18 13 56 72 | 74 77 10 23 35 67 36 11";
    assert_eq!("13", part1::process(input))
}

#[test]
fn day_04_part2_test_process() {
    let input = "Card 1: 41 48 83 86 17 | 83 86  6 31 17  9 48 53\n\
                 Card 2: 13 32 20 16 61 | 61 30 68 82 17 32 24 19\n\
                 Card 3:  1 21 53 59 44 | 69 82 63 72 16 21 14  1\n\
                 Card 4: 41 92 73 84 69 | 59 84 76 51 58  5 54 83\n\
                 Card 5: 87 83 26 28 32 | 88 30 70 12 93 22 82 36\n\
                 Card 6: 31 18 13 56 72 | 74 77 10 23 35 67 36 11";
    assert_eq!("30", part2::process(input))
}

#[test]
fn test_score_card() {
    assert_eq!(
        4,
        score_card("Card 1: 41 48 83 86 17 | 83 86  6 31 17  9 48 53")
    );
    assert_eq!(
        0,
        score_card("Card 5: 87 83 26 28 32 | 88 30 70 12 93 22 82 36")
    );
}

#[test]
fn a_number_counts_once_however_often_it_stands() {
    assert_eq!(1, score_card("Card 1: 7 7 7 | 7 7"));
    assert_eq!(part2::count_common(&vec![1, 2, 2, 3], &vec![3, 2, 2, 9]), 2);
}

#[test]
fn cards_that_cannot_be_read() {
    assert_eq!(part2::count_matches(&chars_of("Card 1: 1 2 3")), None);
    assert_eq!(part2::count_matches(&chars_of("1 2 | 3")), None);
    assert_eq!(part2::count_matches(&chars_of("Card 1: 1 x | 3")), None);
    assert_eq!(part2::count_matches(&chars_of("Card 1: 1 | 4294967296")), None);
    assert_eq!(part2::count_matches(&chars_of("Card 1: 1 | 4294967295 1")), Some(1));
    assert_eq!(part1::solve(&chars_of("Card 1: 1 | 1\n")), None);
    assert_eq!(part2::solve(&chars_of("Card 1: 1 | 1\n")), Some(1));
}

#[test]
fn points_double_with_each_match() {
    assert_eq!(part1::points_of(0), Some(0));
    assert_eq!(part1::points_of(1), Some(1));
    assert_eq!(part1::points_of(5), Some(16));
    assert_eq!(part1::points_of(32), Some(2147483648));
    assert_eq!(part1::points_of(33), None);
}

#[test]
fn copies_stop_at_the_last_card() {
    assert_eq!(part2::count_cards(&vec![5, 5, 5]), Some(1 + 2 + 4));
    assert_eq!(part2::count_cards(&vec![]), Some(0));
    assert_eq!(part2::count_cards(&vec![0, 0]), Some(2));
}

#[test]
fn copies_must_fit() {
    let scores = vec![40usize; 34];
    assert_eq!(part2::count_cards(&scores), None);
    let scores = vec![40usize; 32];
    assert_eq!(part2::count_cards(&scores), Some(4294967295));
}
