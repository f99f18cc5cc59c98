use advent2023::day_16::part1;
use advent2023::day_16::part1::{
    calculate_beam, get_point_count, is_in_grid, is_next_in_grid, try_beam, Beam, Direction, Tile,
};
use advent2023::day_16::part2;
use advent2023::text::chars_of;

#[test]
fn day_16_part1_test_process() {
    let input = r#".|...\....
|.-.\.....
.....|-...
........|.
..........
.........\
..../.\\..
.-.-/..|..
.|....-|.\
..//.|...."#;
    assert_eq!("46", part1::process(input))
}

#[test]
fn test_is_next_in_grid() {
    let grid_size = (10, 15);
    assert!(is_next_in_grid((0, 5), Direction::Up, grid_size));
    assert!(is_next_in_grid((0, 5), Direction::Down, grid_size));
    assert!(!is_next_in_grid((0, 14), Direction::Down, grid_size));

    assert!(!is_next_in_grid((0, 5), Direction::Left, grid_size));
    assert!(!is_next_in_grid((0, 15), Direction::Down, grid_size));
}

#[test]
fn day_16_part2_test_process() {
    let input = r#".|...\....
|.-.\.....
.....|-...
........|.
..........
.........\
..../.\\..
.-.-/..|..
.|....-|.\
..//.|...."#;
    assert_eq!("51", part2::process(input))
}

fn grid(rows: &[&str]) -> Vec<Vec<char>> {
    rows.iter().map(|row| row.chars().collect()).collect()
}

#[test]
fn beams_come_in_the_order_of_their_arrival() {
    let rows = grid(&["..", ".."]);
    let tiles = calculate_beam(&rows, (2, 2), -1, 0, Direction::Right);
    assert_eq!(
        tiles,
        vec![
            Tile { x: -1, y: 0, direction: Direction::Right },
            Tile { x: 0, y: 0, direction: Direction::Right },
            Tile { x: 1, y: 0, direction: Direction::Right },
        ]
    );
    assert_eq!(get_point_count(tiles), 3);
    let rows = grid(&["|.", ".."]);
    let tiles = calculate_beam(&rows, (2, 2), -1, 0, Direction::Right);
    assert_eq!(
        tiles,
        vec![
            Tile { x: -1, y: 0, direction: Direction::Right },
            Tile { x: 0, y: 0, direction: Direction::Up },
            Tile { x: 0, y: 0, direction: Direction::Down },
            Tile { x: 0, y: 1, direction: Direction::Down },
        ]
    );
    assert_eq!(get_point_count(tiles), 3);
}

#[test]
fn light_in_a_circle_comes_to_an_end() {
    let rows = grid(&["/-\\", "|.|", "\\-/"]);
    let tiles = calculate_beam(&rows, (3, 3), 1, 0, Direction::Right);
    assert_eq!(tiles.len(), 8);
    assert_eq!(get_point_count(tiles), 8);
    let tiles = calculate_beam(&rows, (3, 3), 1, 1, Direction::Right);
    assert_eq!(tiles.len(), 1 + 8 + 8);
}

#[test]
fn places_of_a_beam() {
    let beam = Beam::new(vec![
        Tile { x: 1, y: 2, direction: Direction::Up },
        Tile { x: 1, y: 2, direction: Direction::Left },
        Tile { x: 0, y: 2, direction: Direction::Left },
    ]);
    assert_eq!(beam.get_points(), vec![(1, 2), (0, 2)]);
    assert!(beam.is_overlap(&Tile { x: 1, y: 2, direction: Direction::Left }));
    assert!(!beam.is_overlap(&Tile { x: 1, y: 2, direction: Direction::Down }));
    assert!(is_in_grid((2, 1), (2, 3)));
    assert!(!is_in_grid((3, 1), (2, 3)));
    assert!(!is_in_grid((2, 2), (2, 3)));
}

#[test]
fn grids_that_lack_a_place() {
    assert_eq!(part1::solve(&chars_of("")), None);
    assert_eq!(part1::solve(&chars_of("..\\\n.")), None);
    assert_eq!(part1::solve(&chars_of("..\n.")), Some(2));
    assert_eq!(part1::solve(&chars_of("\\.\n.")), Some(2));
    assert!(try_beam(&grid(&["."]), (1, 2), -1, 0, Direction::Right).is_none());
    assert!(try_beam(&grid(&["."]), (1, 1), -1, 0, Direction::Right).is_some());
    assert_eq!(part2::solve(&chars_of("..\n..")), Some(2));
    assert_eq!(part2::solve(&chars_of("...\n...")), None);
    assert_eq!(part2::solve(&chars_of("\\/\n/\\")), Some(2));
}

#[test]
fn places_are_counted_once_however_far_apart() {
    let near = vec![
        Tile { x: 0, y: 0, direction: Direction::Up },
        Tile { x: 0, y: 0, direction: Direction::Down },
        Tile { x: 1, y: 0, direction: Direction::Down },
        Tile { x: -1, y: 3, direction: Direction::Left },
        Tile { x: 1, y: 0, direction: Direction::Left },
    ];
    assert_eq!(get_point_count(near), 3);
    let far = vec![
        Tile { x: i32::MIN, y: i32::MAX, direction: Direction::Up },
        Tile { x: i32::MAX, y: i32::MIN, direction: Direction::Up },
        Tile { x: i32::MIN, y: i32::MAX, direction: Direction::Left },
        Tile { x: 0, y: 0, direction: Direction::Left },
    ];
    assert_eq!(get_point_count(far), 3);
    assert_eq!(get_point_count(vec![]), 0);
}
