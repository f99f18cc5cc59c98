use advent2023::day_09::part1;
use advent2023::day_09::part1::{next_of, process_line};
use advent2023::text::chars_of;

#[test]
fn day_09_part1_test_process() {
    let input = "0 3 6 9 12 15\n\
                 1 3 6 10 15 21\n\
                 10 13 16 21 30 45";
    assert_eq!("114", part1::process(input))
}

#[test]
fn next_values_of_single_histories() {
    assert_eq!(process_line(&[0, 3, 6, 9, 12, 15]), 18);
    assert_eq!(process_line(&[1, 3, 6, 10, 15, 21]), 28);
    assert_eq!(process_line(&[10, 13, 16, 21, 30, 45]), 68);
    assert_eq!(process_line(&[5]), 5);
    assert_eq!(process_line(&[0, 0]), 0);
    assert_eq!(process_line(&[3, 2, 1]), 0);
    assert_eq!(process_line(&[3, 2, 1, 0]), -1);
}

#[test]
fn histories_without_a_next_value() {
    assert_eq!(next_of(&vec![]), None);
    assert_eq!(next_of(&vec![i64::MIN, i64::MAX]), None);
    assert_eq!(next_of(&vec![0, i64::MAX]), None);
    assert_eq!(next_of(&vec![i64::MAX, i64::MAX]), Some(i64::MAX));
}

#[test]
fn a_negative_answer_has_a_minus_sign() {
    assert_eq!("-1", part1::process("3 2 1 0"));
    assert_eq!("-9223372036854775808", part1::process("-9223372036854775808"));
    assert_eq!("0", part1::process(""));
}

#[test]
fn words_that_are_no_numbers_are_passed_over() {
    assert_eq!(part1::read_history(&chars_of("1 x +2 -3 4-")), vec![1, 2, -3]);
    assert_eq!(part1::solve(&chars_of("1 x 2 y 3")), Some(4));
    assert_eq!(part1::solve(&chars_of("1 2\n\n3")), None);
    assert_eq!(part1::solve(&chars_of("9223372036854775807\n1")), None);
}
