use advent2023::day_05::part1;
use advent2023::day_05::part1::{checked_map, process_map, Range};
use advent2023::text::chars_of;

#[test]
fn day_05_part1_test_process() {
    let input = "seeds: 79 14 55 13\n\
                \n\
                seed-to-soil map:\n\
                50 98 2\n\
                52 50 48\n\
                \n\
                soil-to-fertilizer map:\n\
                0 15 37\n\
                37 52 2\n\
                39 0 15\n\
                \n\
                fertilizer-to-water map:\n\
                49 53 8\n\
                0 11 42\n\
                42 0 7\n\
                57 7 4\n\
                \n\
                water-to-light map:\n\
                88 18 7\n\
                18 25 70\n\
                \n\
                light-to-temperature map:\n\
                45 77 23\n\
                81 45 19\n\
                68 64 13\n\
                \n\
                temperature-to-humidity map:\n\
                0 69 1\n\
                1 0 69\n\
                \n\
                humidity-to-location map:\n\
                60 56 37\n\
                56 93 4";
    assert_eq!("35", part1::process(input))
}

#[test]
fn an_entry_maps_its_source_to_its_destination() {
    let r = Range::new(&[50, 98, 2]);
    assert_eq!(r.source_start, 98);
    assert_eq!(r.source_end, 99);
    assert_eq!(r.dest_start, 50);
    assert_eq!(r.process_val(97), None);
    assert_eq!(r.process_val(98), Some(50));
    assert_eq!(r.process_val(99), Some(51));
    assert_eq!(r.process_val(100), None);
}

#[test]
fn the_first_entry_that_maps_a_value_decides() {
    let map = vec![Range::new(&[50, 98, 2]), Range::new(&[52, 50, 48]), Range::new(&[0, 98, 1])];
    assert_eq!(process_map(&map, 79), 81);
    assert_eq!(process_map(&map, 14), 14);
    assert_eq!(process_map(&map, 98), 50);
    assert_eq!(process_map(&[], 7), 7);
}

#[test]
fn entries_that_cannot_be_made() {
    assert!(Range::checked_new(&[1, 2]).is_none());
    assert!(Range::checked_new(&[1, 0, 0]).is_none());
    assert!(Range::checked_new(&[1, u64::MAX, 1]).is_none());
    assert!(Range::checked_new(&[1, u64::MAX, 0]).is_some());
    let r = Range::new(&[u64::MAX, 5, 3, 9]);
    assert_eq!(checked_map(&[r], 6), None);
    let r = Range::new(&[u64::MAX, 5, 3, 9]);
    assert_eq!(checked_map(&[r], 0), Some(0));
}

#[test]
fn almanacs_that_cannot_be_read() {
    assert_eq!(part1::solve(&chars_of("")), None);
    assert_eq!(part1::solve(&chars_of("seeds:")), None);
    assert_eq!(part1::solve(&chars_of("seeds: x")), None);
    assert_eq!(part1::solve(&chars_of("seeds: 3 1 2")), Some(1));
    assert_eq!(part1::solve(&chars_of("seeds: 3\n5 3 1\n\ntitle\n9 3 1")), Some(9));
    assert_eq!(part1::solve(&chars_of("seeds: 3\n\ntitle\n9 3")), None);
    assert_eq!(part1::solve(&chars_of("seeds: 3\n\ntitle\n9 3 1\n\n\n\nother\n1 9 1\n")), Some(1));
}
