use advent2023::day_02::part1;
use advent2023::day_02::part1::parse_game_id;
use advent2023::day_02::part2;
use advent2023::text::chars_of;

#[test]
fn day_02_part1_test_process() {
    let input = "Game 1: 3 blue, 4 red; 1 red, 2 green, 6 blue; 2 green\n\
                       Game 2: 1 blue, 2 green; 3 green, 4 blue, 1 red; 1 green, 1 blue\n\
                       Game 3: 8 green, 6 blue, 20 red; 5 blue, 4 red, 13 green; 5 green, 1 red\n\
                       Game 4: 1 green, 3 red, 6 blue; 3 green, 6 red; 3 green, 15 blue, 14 red\n\
                       Game 5: 6 red, 1 blue, 3 green; 2 blue, 1 red, 2 green";
    assert_eq!("8", part1::process(input))
}

#[test]
fn test_parse_game_id() {
    assert_eq!(parse_game_id("Game 1: 3 blue, 4 red"), 1);
    assert_eq!(parse_game_id("Game 2: 1 blue, 2 green"), 2);
    assert_eq!(parse_game_id("Game 3: 8 green, 6 blue, 20 red"), 3);
    assert_eq!(parse_game_id("Game 4: 1 green, 3 red, 6 blue"), 4);
    assert_eq!(parse_game_id("Game 5: 6 red, 1 blue, 3 green"), 5);
}

#[test]
fn part1_test_parse_color_group() {
    assert_eq!(
        part1::parse_color_group("1 blue, 2 green"),
        part1::RGB {
            red: 0,
            green: 2,
            blue: 1
        }
    );

    assert_eq!(
        part1::parse_color_group("3 green, 4 blue, 1 red"),
        part1::RGB {
            red: 1,
            green: 3,
            blue: 4
        }
    );

    assert_eq!(
        part1::parse_color_group(" 3 green, 15 blue, 14 red"),
        part1::RGB {
            red: 14,
            green: 3,
            blue: 15
        }
    );
}

#[test]
fn day_02_part2_test_process() {
    let input = "Game 1: 3 blue, 4 red; 1 red, 2 green, 6 blue; 2 green\n\
                       Game 2: 1 blue, 2 green; 3 green, 4 blue, 1 red; 1 green, 1 blue\n\
                       Game 3: 8 green, 6 blue, 20 red; 5 blue, 4 red, 13 green; 5 green, 1 red\n\
                       Game 4: 1 green, 3 red, 6 blue; 3 green, 6 red; 3 green, 15 blue, 14 red\n\
                       Game 5: 6 red, 1 blue, 3 green; 2 blue, 1 red, 2 green";
    assert_eq!("2286", part2::process(input))
}

#[test]
fn part2_test_parse_color_group() {
    assert_eq!(
        part2::parse_color_group("1 blue, 2 green"),
        part2::RGB {
            red: 0,
            green: 2,
            blue: 1
        }
    );

    assert_eq!(
        part2::parse_color_group("3 green, 4 blue, 1 red"),
        part2::RGB {
            red: 1,
            green: 3,
            blue: 4
        }
    );

    assert_eq!(
        part2::parse_color_group(" 3 green, 15 blue, 14 red"),
        part2::RGB {
            red: 14,
            green: 3,
            blue: 15
        }
    );
}

#[test]
fn test_power() {
    assert_eq!(
        part2::RGB {
            red: 0,
            green: 2,
            blue: 1
        }
        .power(),
        0
    );
    assert_eq!(
        part2::RGB {
            red: 4,
            green: 2,
            blue: 6
        }
        .power(),
        48
    );
}

#[test]
fn power_must_fit() {
    let big = part2::RGB { red: 65536, green: 65536, blue: 0 };
    assert_eq!(big.checked_power(), None);
    let fits = part2::RGB { red: 65535, green: 65537, blue: 1 };
    assert_eq!(fits.checked_power(), Some(4294967295));
}

#[test]
fn a_later_entry_of_a_colour_replaces_an_earlier_one() {
    assert_eq!(
        part2::parse_color_group("3 red, 5 red"),
        part2::RGB { red: 5, green: 0, blue: 0 }
    );
}

#[test]
fn games_that_cannot_be_read() {
    assert_eq!(part1::solve(&chars_of("Game 1 3 blue")), None);
    assert_eq!(part1::solve(&chars_of("Game x: 3 blue")), None);
    assert_eq!(part1::solve(&chars_of("Game 1: 3 pink")), None);
    assert_eq!(part1::solve(&chars_of("Game 1: 300 red")), None);
    assert_eq!(part1::solve(&chars_of("Game 1: 3  red")), None);
    assert_eq!(part1::solve(&chars_of("Game 1: red")), None);
    assert_eq!(part2::solve(&chars_of("Game 1: 300 red")), Some(0));
    assert_eq!(part2::solve(&chars_of("Game 1: 300 red, 2 green, 1 blue")), Some(600));
    assert_eq!(part1::solve(&chars_of("Game 7: 12 red; 13 green; 14 blue")), Some(7));
    assert_eq!(part1::solve(&chars_of("Game 7: 13 red")), Some(0));
}
