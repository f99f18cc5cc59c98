use advent2023::day_11::part1;
use advent2023::day_11::part2;
use advent2023::day_11::part2::{EMPTY, GALAXY};
use advent2023::text::chars_of;

#[test]
fn test_manhatten_distance() {
    assert_eq!(9, part1::manhatten_distance(6, 1, 11, 5));
    assert_eq!(15, part1::manhatten_distance(0, 4, 10, 9));
    assert_eq!(17, part1::manhatten_distance(2, 0, 7, 12));
    assert_eq!(5, part1::manhatten_distance(11, 0, 11, 5));
}

#[test]
fn part1_test_get_galaxies() {
    let universe = vec![vec![false, true, false], vec![false, true, true]];
    let galaxies = part1::get_galaxies(&universe);
    assert!(galaxies.contains(&(0, 1)));
    assert!(galaxies.contains(&(1, 1)));
    assert!(galaxies.contains(&(1, 2)));
}

#[test]
fn day_11_part1_test_process() {
    let input = "...#......\n\
                 .......#..\n\
                 #.........\n\
                 ..........\n\
                 ......#...\n\
                 .#........\n\
                 .........#\n\
                 ..........\n\
                 .......#..\n\
                 #...#.....";
    assert_eq!("374", part1::process(input))
}

#[test]
fn part2_test_get_galaxies() {
    let universe = vec![vec![EMPTY, GALAXY, EMPTY], vec![EMPTY, GALAXY, GALAXY]];
    let galaxies = part2::get_galaxies(&universe);
    assert!(galaxies.contains(&(0, 1)));
    assert!(galaxies.contains(&(1, 1)));
    assert!(galaxies.contains(&(1, 2)));
}

#[test]
fn day_11_part2_test_process() {
    let input = "...#......\n\
                 .......#..\n\
                 #.........\n\
                 ..........\n\
                 ......#...\n\
                 .#........\n\
                 .........#\n\
                 ..........\n\
                 .......#..\n\
                 #...#.....";
    assert_eq!("8410", part2::process(input, 100));
    assert_eq!("1030", part2::process(input, 10));
}

#[test]
fn galaxies_come_row_by_row() {
    let universe = vec![vec![false, true, true], vec![true, false, true]];
    assert_eq!(part1::get_galaxies(&universe), vec![(0, 1), (0, 2), (1, 0), (1, 2)]);
}

#[test]
fn rows_and_columns_without_a_galaxy_are_doubled() {
    let mut universe = vec![
        vec![true, false, false],
        vec![false, false, false],
        vec![false, false, true],
    ];
    part1::expand_universe(&mut universe);
    assert_eq!(
        universe,
        vec![
            vec![true, false, false, false],
            vec![false, false, false, false],
            vec![false, false, false, false],
            vec![false, false, false, true],
        ]
    );
}

#[test]
fn gaps_are_marked_in_place() {
    let mut universe = vec![vec![1, 0, 0], vec![0, 0, 0], vec![0, 0, 1]];
    part2::expand_universe(&mut universe);
    assert_eq!(universe, vec![vec![1, 4, 0], vec![2, 6, 2], vec![0, 4, 1]]);
    assert_eq!(part2::manhatten_distance(&universe, 2, 0, 0, 2, 2), 6);
    assert_eq!(part2::manhatten_distance(&universe, 1, 0, 0, 2, 2), 4);
    assert_eq!(part2::manhatten_distance(&universe, 10, 2, 2, 0, 0), 22);
    assert_eq!(part2::manhatten_distance(&universe, 0, 0, 0, 2, 2), 2);
}

#[test]
fn every_pair_is_counted_once() {
    assert_eq!(part1::solve(&chars_of("###")), Some(1 + 2 + 1));
    assert_eq!(part1::solve(&chars_of("#")), Some(0));
    assert_eq!(part1::solve(&chars_of(".")), Some(0));
    assert_eq!(part2::solve(&chars_of("#.#\n#.#"), 2), Some(3 + 1 + 4 + 4 + 1 + 3));
    assert_eq!(part2::solve(&chars_of("#.#"), -1), Some(0));
    assert_eq!(part2::solve(&chars_of("#.#"), -2), Some(-1));
}

#[test]
fn universes_that_cannot_be_expanded() {
    assert_eq!(part1::solve(&chars_of("")), None);
    assert_eq!(part2::solve(&chars_of(""), 2), None);
    assert!(part1::try_expand(&vec![vec![true, false, false], vec![true]]).is_none());
    assert!(part1::try_expand(&vec![vec![true, false], vec![true]]).is_some());
    assert!(part2::try_expand(&vec![vec![1, 0], vec![1]]).is_none());
    assert!(part2::try_expand(&vec![vec![1, 0], vec![0]]).is_some());
}

#[test]
fn distances_between_galaxies_must_fit() {
    assert_eq!(part1::checked_distance(0, i32::MAX, 0, -1), None);
    assert_eq!(part1::checked_distance(i32::MAX, 0, 0, i32::MAX), None);
    assert_eq!(part1::checked_distance(0, i32::MAX, 0, 0), Some(i32::MAX));
    let universe = vec![vec![2u32]];
    assert_eq!(part2::checked_distance(&universe, i64::MIN, 0, 0, 0, 0), None);
    assert_eq!(part2::checked_distance(&universe, 5, 0, 0, 5, 0), Some(9));
    assert_eq!(part2::checked_distance(&universe, 5, -1, 0, 5, 0), None);
    assert_eq!(part2::checked_distance(&[], 5, 0, 0, 0, 0), None);
}
