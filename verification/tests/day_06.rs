use advent2023::day_06::part1;
use advent2023::day_06::part2;
use advent2023::text::chars_of;

#[test]
fn part1_test_generate_races() {
    let input = "Time:      7  15   30\n\
                 Distance:  9  40  200";
    let races = part1::generate_races(input);
    assert_eq!(races.first(), Some(&(7, 9)));
    assert_eq!(races.get(1), Some(&(15, 40)));
    assert_eq!(races.get(2), Some(&(30, 200)));
    assert_eq!(races.get(3), None);
}

#[test]
fn day_06_part1_test_process() {
    let input = "Time:      7  15   30\n\
                 Distance:  9  40  200";
    assert_eq!("288", part1::process(input))
}

#[test]
fn part2_test_generate_races() {
    let input = "Time:      7  15   30\n\
                 Distance:  9  40  200";
    let race = part2::generate_race(input);
    assert_eq!(race, (71530, 940200));
}

#[test]
fn day_06_part2_test_process() {
    let input = "Time:      7  15   30\n\
                 Distance:  9  40  200";
    assert_eq!("71503", part2::process(input))
}

#[test]
fn ways_to_win_one_race() {
    assert_eq!(part1::count_ways(7, 9), Some(4));
    assert_eq!(part1::count_ways(15, 40), Some(8));
    assert_eq!(part1::count_ways(30, 200), Some(9));
    assert_eq!(part1::count_ways(0, 0), Some(0));
    assert_eq!(part1::count_ways(1, 0), Some(0));
    assert_eq!(part1::count_ways(2, 0), Some(1));
    assert_eq!(part2::count_ways(7, 9), Some(4));
}

#[test]
fn distances_must_fit() {
    assert_eq!(part1::count_ways(131072, 0), None);
    assert_eq!(part1::count_ways(65536, 0), Some(65535));
}

#[test]
fn races_that_cannot_be_read() {
    assert_eq!(part1::solve(&chars_of("")), None);
    assert_eq!(part1::solve(&chars_of("Time: 7 15\nDistance: 9")), None);
    assert_eq!(part1::solve(&chars_of("Time: 7 x\nDistance: 9 1")), None);
    assert_eq!(part1::solve(&chars_of("Time:\nDistance:")), Some(1));
    assert_eq!(part1::solve(&chars_of("Time: 7")), Some(4));
    assert_eq!(part1::solve(&chars_of("7 7")), Some(4));
    assert_eq!(part2::solve(&chars_of("Time: 7")), None);
    assert_eq!(part2::solve(&chars_of("Time:  7 1\nDistance: 1 0")), Some(70));
}

#[test]
fn a_product_on_the_way_must_fit() {
    let input = "Time: 70000 70000 1\nDistance: 0 0 5";
    assert_eq!(part1::solve(&chars_of(input)), None);
}
