use advent2023::day_10::part1;
use advent2023::day_10::part1::{find_start, find_touching, get_touching_pipes};
use advent2023::text::chars_of;

#[test]
fn test_get_touching_pipes() {
    let input = vec![
        vec!['.', '.', '.', '.', '.'],
        vec!['.', '7', 'x', 'x', 'x'],
        vec!['|', 'S', '-', 'x', 'x'],
        vec!['.', 'F', '.', '.', '.'],
    ];
    let output = get_touching_pipes(&input, 2, 1);
    assert!(output.contains(&(1, 1)));
    assert!(output.contains(&(2, 2)));

    let output = get_touching_pipes(&input, 1, 0);
    assert!(output.contains(&(2, 0)));
}

#[test]
fn test_find_start() {
    let input = vec![
        vec!['.', '.', '.', '.', '.'],
        vec!['.', '7', 'x', 'x', 'x'],
        vec!['.', 'S', 'x', 'x', 'x'],
        vec!['.', '.', '.', '.', '.'],
    ];
    assert_eq!(Some((2, 1)), find_start(&input));

    let input = vec![
        vec!['.', '.', '.', '.', '.'],
        vec!['.', '7', 'x', 'x', 'x'],
        vec!['.', 'x', 'x', 'x', 'x'],
        vec!['.', '.', '.', '.', '.'],
    ];
    assert!(find_start(&input).is_none());
}

#[test]
fn day_10_part1_test_process() {
    let input = ".....\n\
                 .S-7.\n\
                 .|.|.\n\
                 .L-J.\n\
                 .....";
    assert_eq!("4", part1::process(input))
}

#[test]
fn neighbours_come_in_a_fixed_order() {
    let input = vec![
        vec!['.', '|', '.'],
        vec!['-', 'S', '-'],
        vec!['.', '|', '.'],
    ];
    assert_eq!(get_touching_pipes(&input, 1, 1), vec![(0, 1), (1, 2), (1, 0), (2, 1)]);
    assert_eq!(get_touching_pipes(&input, 0, 0), vec![]);
    assert_eq!(get_touching_pipes(&input, 2, 2), vec![]);
}

#[test]
fn the_first_start_is_found() {
    let input = vec![vec!['.', '.'], vec!['.', 'S', 'S'], vec!['S']];
    assert_eq!(find_start(&input), Some((1, 1)));
    assert_eq!(find_start(&[]), None);
}

#[test]
fn a_longer_loop() {
    let input = "..F7.\n\
                 .FJ|.\n\
                 SJ.L7\n\
                 |F--J\n\
                 LJ...";
    assert_eq!(part1::solve(&chars_of(input)), Some(8));
}

#[test]
fn maps_that_cannot_be_searched() {
    assert_eq!(part1::solve(&chars_of("")), None);
    assert_eq!(part1::solve(&chars_of("..\n..")), None);
    assert_eq!(part1::solve(&chars_of("S")), Some(0));
    assert_eq!(part1::solve(&chars_of(".\n.S")), None);
    assert_eq!(part1::solve(&chars_of("S-\n")), Some(1));
    assert!(find_touching(&[vec!['.', '.'], vec!['.']], 0, 1).is_none());
    assert!(find_touching(&[vec!['.', '.'], vec!['.']], 0, 0).is_some());
    assert!(find_touching(&[], 0, 0).is_none());
}
