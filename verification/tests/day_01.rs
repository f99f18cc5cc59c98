use advent2023::day_01::part1;
use advent2023::day_01::part2;
use advent2023::day_01::part2::process_line;
use advent2023::text::chars_of;

#[test]
fn part1_test_process() {
    let input = "1abc2\n\
                pqr3stu8vwx\n\
                a1b2c3d4e5f\n\
                treb7uchet";
    assert_eq!("142", part1::process(input))
}

#[test]
fn test_get_first_digit_or_word() {
    let input = "two1nine";
    let answer = process_line(input);
    assert_eq!(29, answer);

    let input = "eightwothree";
    let answer = process_line(input);
    assert_eq!(83, answer);

    let input = "abcone2threexyz";
    let answer = process_line(input);
    assert_eq!(13, answer);

    let input = "xtwone3four";
    let answer = process_line(input);
    assert_eq!(24, answer);

    let input = "4nineeightseven2";
    let answer = process_line(input);
    assert_eq!(42, answer);

    let input = "zoneight234";
    let answer = process_line(input);
    assert_eq!(14, answer);

    let input = "7pqrstsixtee";
    let answer = process_line(input);
    assert_eq!(76, answer);

    let input = "four9four";
    let answer = process_line(input);
    assert_eq!(44, answer);
}

#[test]
fn part2_test_process() {
    let input = "two1nine\n\
        eightwothree3\n\
        abcone2threexyz\n\
        xtwone3four\n\
        4nineeightseven2\n\
        zoneight234\n\
        7pqrstsixteen";
    assert_eq!("281", part2::process(input))
}

#[test]
fn calibration_needs_a_digit_in_every_line() {
    assert_eq!(part1::solve(&chars_of("12\nabc")), None);
    assert_eq!(part1::solve(&chars_of("12\n")), None);
    assert_eq!(part1::solve(&chars_of("7")), Some(77));
}

#[test]
fn line_without_number_counts_zero() {
    assert_eq!(process_line("abc"), 0);
    assert_eq!(process_line(""), 0);
    assert_eq!(part2::solve(&chars_of("abc\n\nnine")), Some(99));
}

#[test]
fn names_are_tried_in_order_of_value() {
    assert_eq!(part2::find_number(&chars_of("nineone")), Some(1));
    assert_eq!(part2::find_number(&chars_of("nine1")), Some(1));
    assert_eq!(part2::find_number(&chars_of("xyz")), None);
}
