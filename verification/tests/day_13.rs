use advent2023::day_13::mirrors::Mirror;
use advent2023::day_13::part1;
use advent2023::day_13::part1::{find_mirror, find_split, rotate_matrix};
use advent2023::day_13::part2;
use advent2023::day_13::part2::find_smudge_mirror;
use advent2023::text::chars_of;

#[test]
fn day_13_part1_test_process() {
    let input = "#.##..##.
..#.##.#.
##......#
##......#
..#.##.#.
..##..##.
#.#.##.#.

#...##..#
#....#..#
..##..###
#####.##.
#####.##.
..##..###
#....#..#";
    assert_eq!("405", part1::process(input))
}

#[test]
fn find_horizontal() {
    let input = "#...##..#
#....#..#
..##..###
#####.##.
#####.##.
..##..###
#....#..#";
    let map: Vec<Vec<char>> = input.lines().map(|line| line.chars().collect()).collect();
    assert_eq!(Some(4), find_split(&map));
}

#[test]
fn find_vertical() {
    let input = "#.##..##.
..#.##.#.
##......#
##......#
..#.##.#.
..##..##.
#.#.##.#.";
    let map: Vec<Vec<char>> = input.lines().map(|line| line.chars().collect()).collect();
    assert_eq!(Mirror::Vertical(5), find_mirror(map));
}

#[test]
fn test_rotate_1() {
    let map_vec = vec![vec!['1', '2', '2', '2', '3'], vec!['1', '2', '4', '4', '4']];
    let rotated = rotate_matrix(map_vec);
    assert_eq!(
        vec![
            vec!['1', '1'],
            vec!['2', '2'],
            vec!['2', '4'],
            vec!['2', '4'],
            vec!['3', '4']
        ],
        rotated
    );
}

#[test]
fn test_some_eq() {
    let t1 = Some(vec!['1', '2']);
    let t2 = Some(vec!['1', '2']);
    assert_eq!(t1, t2);

    let t3 = Some(vec!['1', '3']);
    assert_ne!(t1, t3);
}

#[test]
fn day_13_part2_test_process() {
    let input = "#.##..##.
..#.##.#.
##......#
##......#
..#.##.#.
..##..##.
#.#.##.#.

#...##..#
#....#..#
..##..###
#####.##.
#####.##.
..##..###
#....#..#";
    assert_eq!("400", part2::process(input))
}

#[test]
fn test_mirror_1() {
    let input = "#.##..##.
..#.##.#.
##......#
##......#
..#.##.#.
..##..##.
#.#.##.#.";
    let map: Vec<Vec<char>> = input.lines().map(|line| line.chars().collect()).collect();
    assert_eq!(Mirror::Horizontal(3), find_smudge_mirror(map));
}

#[test]
fn test_mirror_2() {
    let input = "#...##..#
#....#..#
..##..###
#####.##.
#####.##.
..##..###
#....#..#";
    let map: Vec<Vec<char>> = input.lines().map(|line| line.chars().collect()).collect();
    assert_eq!(Mirror::Horizontal(1), find_smudge_mirror(map));
}

fn grid(rows: &[&str]) -> Vec<Vec<char>> {
    rows.iter().map(|row| row.chars().collect()).collect()
}

#[test]
fn a_line_at_the_edge_mirrors_what_is_there() {
    assert_eq!(find_split(&grid(&["ab", "ab", "cd"])), Some(1));
    assert_eq!(find_split(&grid(&["cd", "ab", "ab"])), Some(2));
    assert_eq!(find_split(&grid(&["ab", "cd", "cd", "xy"])), None);
    assert_eq!(find_split(&grid(&["ab"])), None);
    assert_eq!(find_split(&grid(&[])), None);
    assert_eq!(part2::find_splits(&grid(&["a", "a", "a"])), vec![1, 2]);
}

#[test]
fn patterns_without_a_line() {
    assert_eq!(part1::try_find_mirror(&grid(&[])), None);
    assert_eq!(part1::try_find_mirror(&grid(&["ab", "cd"])), None);
    assert_eq!(part1::try_find_mirror(&grid(&["", "x"])), None);
    assert_eq!(part1::try_find_mirror(&grid(&["abb", "cd"])), None);
    assert_eq!(part1::try_find_mirror(&grid(&["aa", "cc"])), Some(Mirror::Vertical(1)));
    assert_eq!(part1::solve(&chars_of("ab\nab\n\n")), None);
    assert_eq!(part1::solve(&chars_of("ab\nab\n\naa")), Some(101));
}

#[test]
fn smudges_that_cannot_be_mended() {
    assert_eq!(part2::try_find_smudge_mirror(&grid(&[])), None);
    assert_eq!(part2::try_find_smudge_mirror(&grid(&["#.", ".#"])), None);
    assert_eq!(part2::try_find_smudge_mirror(&grid(&["##", "##"])), None);
    assert_eq!(part2::try_find_smudge_mirror(&grid(&["x.", "x."])), None);
    assert_eq!(
        part2::try_find_smudge_mirror(&grid(&["#.", "#.", ".."])),
        Some(Mirror::Horizontal(2))
    );
}
