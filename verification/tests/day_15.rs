use advent2023::day_15::part1;
use advent2023::day_15::part1::hash_string;
use advent2023::day_15::part2;
use advent2023::day_15::part2::{box_focus_power, Lens};
use advent2023::text::chars_of;

#[test]
fn day_15_part1_test_process() {
    let input = "rn=1,cm-,qp=3,cm=2,qp-,pc=4,ot=9,ab=5,pc-,pc=6,ot=7";
    assert_eq!("1320", part1::process(input))
}

#[test]
fn test_hash_string_1() {
    assert_eq!(52, hash_string("HASH"));
}

#[test]
fn hash_string_2() {
    assert_eq!(30, hash_string("rn=1"));
}

#[test]
fn day_15_part2_test_process() {
    let input = "rn=1,cm-,qp=3,cm=2,qp-,pc=4,ot=9,ab=5,pc-,pc=6,ot=7";
    assert_eq!("145", part2::process(input))
}

#[test]
fn test_lens_from_str_1() {
    assert_eq!(
        Lens::from_str("rn=1"),
        Lens {
            label: "rn".to_string(),
            focal: 1
        }
    );
}

#[test]
fn test_lens_from_str_2() {
    assert_eq!(
        Lens::from_str("qp=3"),
        Lens {
            label: "qp".to_string(),
            focal: 3
        }
    );
}

#[test]
fn test_box_focus_power_1() {
    let box0 = vec![Lens::from_str("rn=1"), Lens::from_str("cm=2")];
    assert_eq!(box_focus_power(0, &box0), 5);
}

#[test]
fn test_box_focus_power_2() {
    let box3 = vec![
        Lens::from_str("ot=7"),
        Lens::from_str("ab=5"),
        Lens::from_str("pc=6"),
    ];
    assert_eq!(box_focus_power(3, &box3), 28 + 40 + 72);
}

#[test]
fn hash_of_nothing_is_zero() {
    assert_eq!(0, hash_string(""));
    assert_eq!(part1::solve(&chars_of("")), Some(0));
    assert_eq!(part1::solve(&chars_of(",")), Some(0));
    assert_eq!(part1::solve(&chars_of("HASH,rn=1")), Some(82));
}

#[test]
fn steps_that_cannot_be_done() {
    assert_eq!(part2::solve("rn"), None);
    assert_eq!(part2::solve("rn="), None);
    assert_eq!(part2::solve("rn=256"), None);
    assert_eq!(part2::solve("rn=1,"), None);
    assert!(Lens::read("rn-").is_none());
    assert_eq!(part2::solve("rn-"), Some(0));
    assert_eq!(part2::solve("rn=255"), Some(255));
}

#[test]
fn a_lens_of_the_same_label_keeps_its_slot() {
    assert_eq!(part2::solve("rn=1,cm=2,rn=9"), Some(9 + 4));
    assert_eq!(part2::solve("rn=1,cm=2,rn-"), Some(2));
    assert_eq!(part2::solve("rn=1,cm=2,rn-,rn=9"), Some(2 + 18));
}

#[test]
fn a_dash_anywhere_makes_the_step_a_removal() {
    assert_eq!(part2::solve("rn=1,rn=2-"), Some(1));
    assert_eq!(part2::solve("rn=1,rn-=x"), Some(0));
}

#[test]
fn focus_power_must_fit() {
    let lenses = vec![Lens::from_str("a=2")];
    assert_eq!(part2::checked_focus_power(usize::MAX, &lenses), None);
    assert_eq!(part2::checked_focus_power(usize::MAX - 1, &lenses), None);
    assert_eq!(part2::checked_focus_power(9, &lenses), Some(20));
}
