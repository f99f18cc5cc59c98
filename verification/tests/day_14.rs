use advent2023::day_14::part1;
use advent2023::day_14::part1::{calculate_load, parse_platform, tilt_platform, Thing};
use advent2023::day_14::part2;
use advent2023::day_14::part2::{
    run_cycle, tilt_platform_generic, tilt_platform_horizontal, tilt_platform_vertical,
};
use advent2023::text::chars_of;

#[test]
fn day_14_part1_test_process() {
    let input = "O....#....
O.OO#....#
.....##...
OO.#O....O
.O.....O#.
O.#..O.#.#
..O..#O..O
.......O..
#....###..
#OO..#....";
    assert_eq!("136", part1::process(input))
}

#[test]
fn test_parse_platform() {
    let input = "O..#
.O.#";
    let platform = parse_platform(input);
    assert_eq!(
        platform,
        vec![
            vec![Thing::Sphere, Thing::Empty, Thing::Empty, Thing::Cube],
            vec![Thing::Empty, Thing::Sphere, Thing::Empty, Thing::Cube]
        ]
    )
}

#[test]
fn test_tilt_platform() {
    let input = ".
O
.
.
O
O
#
.
O";
    let platform = parse_platform(input);
    let tilt = tilt_platform(platform);
    println!("{:?}", tilt);
    assert_eq!(Thing::Sphere, tilt[0][0]);
    assert_eq!(Thing::Sphere, tilt[1][0]);
    assert_eq!(Thing::Sphere, tilt[2][0]);
    assert_eq!(Thing::Empty, tilt[3][0]);
    assert_eq!(Thing::Empty, tilt[4][0]);
}

#[test]
fn day_14_part2_test_process() {
    let input = "O....#....
O.OO#....#
.....##...
OO.#O....O
.O.....O#.
O.#..O.#.#
..O..#O..O
.......O..
#....###..
#OO..#....";
    assert_eq!("64", part2::process(input))
}

#[test]
fn test_tilt_platform_left() {
    let input = "..OO#.O.O
..###.O.O";
    let mut platform = parse_platform(input);
    tilt_platform_horizontal(&mut platform, true);
    let output = "OO..#OO..
..###OO..";
    let expected = parse_platform(output);
    assert_eq!(platform.len(), 2);
    assert_eq!(platform[0].len(), 9);
    assert_eq!(platform[1].len(), 9);
    assert_eq!(platform, expected);
}

#[test]
fn test_tilt_platform_right() {
    let input = "..OO#.O.O
..###.O.O";
    let mut platform = parse_platform(input);
    tilt_platform_horizontal(&mut platform, false);
    assert_eq!(platform.len(), 2);
    assert_eq!(platform[0].len(), 9);
    assert_eq!(platform[1].len(), 9);
    let output = "..OO#..OO
..###..OO";

    let expected = parse_platform(output);
    assert_eq!(platform, expected);
}

#[test]
fn test_tilt_platform_up() {
    let input = "..
OO
#.
.O
O#
..
";
    let mut platform = parse_platform(input);
    tilt_platform_vertical(&mut platform, true);
    let output = "OO
.O
#.
O.
.#
..
";
    let expected = parse_platform(output);
    assert_eq!(platform, expected);
}

#[test]
fn test_cycle_1() {
    let input = "O....#....
O.OO#....#
.....##...
OO.#O....O
.O.....O#.
O.#..O.#.#
..O..#O..O
.......O..
#....###..
#OO..#....";
    let mut platform = parse_platform(input);
    run_cycle(&mut platform);
    let after_one = ".....#....
....#...O#
...OO##...
.OO#......
.....OOO#.
.O#...O#.#
....O#....
......OOOO
#...O###..
#..OO#....";
    assert_eq!(platform, parse_platform(after_one));

    run_cycle(&mut platform);
    let after_two = ".....#....
....#...O#
.....##...
..O#......
.....OOO#.
.O#...O#.#
....O#...O
.......OOO
#..OO###..
#.OOO#...O";
    assert_eq!(platform, parse_platform(after_two));
}

#[test]
fn both_ways_of_tilting_north_agree() {
    let input = "O....#....
O.OO#....#
.....##...
OO.#O....O
.O.....O#.
O.#..O.#.#
..O..#O..O
.......O..
#....###..
#OO..#....";
    let by_rolling = tilt_platform(parse_platform(input));
    let mut by_turning = parse_platform(input);
    tilt_platform_generic(&mut by_turning, 0);
    assert_eq!(by_rolling, by_turning);
    assert_eq!(calculate_load(&by_rolling), 136);
}

#[test]
fn square_rocks_stay() {
    let mut platform = parse_platform("#O.#.O#");
    tilt_platform_horizontal(&mut platform, false);
    assert_eq!(platform, parse_platform("#.O#.O#"));
    tilt_platform_horizontal(&mut platform, true);
    assert_eq!(platform, parse_platform("#O.#O.#"));
    let mut platform = parse_platform("##");
    tilt_platform_generic(&mut platform, 2);
    assert_eq!(platform, parse_platform("##"));
}

#[test]
fn platforms_that_cannot_be_tilted() {
    assert_eq!(part1::solve(&chars_of("O.x")), None);
    assert_eq!(part1::solve(&chars_of("")), Some(0));
    assert_eq!(part1::solve(&chars_of("..\n.O")), Some(2));
    assert_eq!(part1::solve(&chars_of(".\n.O")), None);
    assert_eq!(part1::solve(&chars_of("#\n.O")), None);
    assert_eq!(part1::solve(&chars_of(".\n.#")), Some(0));
    assert_eq!(part2::solve(&chars_of("")), None);
    assert_eq!(part2::solve(&chars_of("O.\nO")), None);
    assert_eq!(part2::solve(&chars_of("O.\n.#")), Some(1));
    let mut platform = parse_platform("O");
    assert!(!part2::try_tilt_generic(&mut platform, 4));
}

#[test]
fn the_load_counts_rows_to_the_south_edge() {
    assert_eq!(calculate_load(&parse_platform("OO\n.O\n#.")), 3 + 3 + 2);
    assert_eq!(calculate_load(&parse_platform("")), 0);
}
