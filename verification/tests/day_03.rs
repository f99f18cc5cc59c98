use advent2023::day_03::part1;
use advent2023::day_03::part2;
use advent2023::day_03::part2::GearOrNot;
use advent2023::day_03::schematic::{find_runs, find_spots};
use advent2023::text::chars_of;

fn grid(rows: &[&str]) -> Vec<Vec<char>> {
    rows.iter().map(|row| row.chars().collect()).collect()
}

#[test]
fn day_03_part1_test_process() {
    let input = "467..114..\n\
                       ...*......\n\
                       ..35..633.\n\
                       ......#...\n\
                       617*......\n\
                       .....+.58.\n\
                       ..592.....\n\
                       ......755.\n\
                       ...$.*....\n\
                       .664.598..";
    assert_eq!("4361", part1::process(input))
}

#[test]
fn day_03_part2_test_process() {
    let input = "467..114..\n\
                       ...*......\n\
                       ..35..633.\n\
                       ......#...\n\
                       617*......\n\
                       .....+.58.\n\
                       ..592.....\n\
                       ......755.\n\
                       ...$.*....\n\
                       .664.598..";
    assert_eq!("467835", part2::process(input))
}

#[test]
fn stretches_of_digits_in_a_row() {
    let runs = find_runs(&chars_of("12..3.456"));
    assert_eq!(
        runs,
        vec![(0, vec!['1', '2']), (4, vec!['3']), (6, vec!['4', '5', '6'])]
    );
    assert_eq!(find_runs(&chars_of("...")), vec![]);
}

#[test]
fn a_number_is_tagged_by_a_symbol_next_to_it() {
    let rows = grid(&["12*", "..."]);
    let mut number = part1::Number { number: 12, x: 0, y: 0, tagged: false };
    part1::get_surrounding_squares_tag(&rows, &mut number);
    assert!(number.tagged);
    let rows = grid(&["12.*", "...."]);
    let mut number = part1::Number { number: 12, x: 0, y: 0, tagged: false };
    part1::get_surrounding_squares_tag(&rows, &mut number);
    assert!(!number.tagged);
    let rows = grid(&["....", ".12.", "...!"]);
    let mut number = part1::Number { number: 12, x: 1, y: 1, tagged: false };
    part1::get_surrounding_squares_tag(&rows, &mut number);
    assert!(!number.tagged);
}

#[test]
fn the_first_gear_around_a_number_is_noted() {
    let rows = grid(&["..*.", "*12*", "...."]);
    let mut number =
        part2::Number { number: 12, x: 1, y: 1, gear: GearOrNot::NoGear };
    part2::is_geared(&rows, &mut number);
    assert_eq!(number.gear, GearOrNot::GearLoc(2, 0));
    let rows = grid(&["....", ".12.", "...."]);
    part2::is_geared(&rows, &mut number);
    assert_eq!(number.gear, GearOrNot::GearLoc(2, 0));
}

#[test]
fn leading_zeros_narrow_the_search() {
    assert_eq!(part1::solve(&chars_of("007*")), Some(0));
    assert_eq!(part1::solve(&chars_of("07*")), Some(0));
    assert_eq!(part1::solve(&chars_of("7*")), Some(7));
    assert_eq!(part1::solve(&chars_of("*007")), Some(7));
}

#[test]
fn only_gears_with_two_numbers_count() {
    assert_eq!(part2::solve(&chars_of("2*3")), Some(6));
    assert_eq!(part2::solve(&chars_of("2*3\n.4.")), Some(0));
    assert_eq!(part2::solve(&chars_of("2*.")), Some(0));
    assert_eq!(part2::solve(&chars_of("2*3\n...\n5*7")), Some(41));
    assert_eq!(part2::solve(&chars_of("65536*65536")), None);
    assert_eq!(part2::solve(&chars_of("65535*65537")), Some(4294967295));
}

#[test]
fn schematics_that_cannot_be_searched() {
    assert_eq!(part1::solve(&chars_of("")), None);
    assert_eq!(part1::solve(&chars_of("..\n...")), None);
    assert_eq!(part1::solve(&chars_of("...\n.1")), None);
    assert_eq!(part1::solve(&chars_of("...\n1.")), Some(0));
    assert_eq!(part1::solve(&chars_of("..1\n.")), None);
    assert_eq!(part1::solve(&chars_of("#.1\n.")), None);
    assert_eq!(part1::solve(&chars_of(".#1\n.")), Some(1));
    assert_eq!(part1::solve(&chars_of("..*\n1")), None);
    assert_eq!(part1::solve(&chars_of("4294967296")), None);
    assert_eq!(part1::solve(&chars_of("4294967295*1")), None);
    assert_eq!(part1::solve(&chars_of("  4294967295*  \n")), Some(4294967295));
    assert!(find_spots(&grid(&["1.", ".#."])).is_none());
}
