use advent2023::day_08::part1;
use advent2023::day_08::part1::{ArenaTree, Node};

#[test]
fn day_08_part1_test_process() {
    let input = "RL\n\
                 \n\
                 AAA = (BBB, CCC)\n\
                 BBB = (DDD, EEE)\n\
                 CCC = (ZZZ, GGG)\n\
                 DDD = (DDD, DDD)\n\
                 EEE = (EEE, EEE)\n\
                 GGG = (GGG, GGG)\n\
                 ZZZ = (ZZZ, ZZZ)";
    assert_eq!("2", part1::process(input))
}

#[test]
fn the_instructions_start_over() {
    let input = "LLR\n\
                 \n\
                 AAA = (BBB, BBB)\n\
                 BBB = (AAA, ZZZ)\n\
                 ZZZ = (ZZZ, ZZZ)";
    assert_eq!(part1::solve(input), Some(6));
}

#[test]
fn a_node_is_added_once() {
    let mut tree = ArenaTree::default();
    assert_eq!(tree.node("AAA"), 0);
    assert_eq!(tree.node("BBB"), 1);
    assert_eq!(tree.node("AAA"), 0);
    assert_eq!(tree.arena.len(), 2);
    assert_eq!(tree.arena[1].name, "BBB");
    assert_eq!(tree.arena[1].idx, 1);
    assert_eq!(tree.arena[1].left, None);
    let node = Node::new(7, "XYZ");
    assert_eq!(node.idx, 7);
    assert_eq!(node.name, "XYZ");
    assert_eq!(node.right, None);
}

#[test]
fn a_later_fork_of_a_node_replaces_an_earlier_one() {
    let input = "L\n\
                 \n\
                 AAA = (AAA, AAA)\n\
                 AAA = (ZZZ, AAA)";
    assert_eq!(part1::solve(input), Some(1));
}

#[test]
fn networks_that_cannot_be_walked() {
    assert_eq!(part1::solve(""), None);
    assert_eq!(part1::solve("L"), None);
    assert_eq!(part1::solve("L\n\nAAA = (ZZZ, ZZ"), None);
    assert_eq!(part1::solve("L\n\nAAA = (ZZZ, ZZZ"), Some(1));
    assert_eq!(part1::solve("L\n\nAAA = (ZZZ, ZZZ)"), Some(1));
    assert_eq!(part1::solve("L\nAAA = (ZZZ, ZZZ)"), None);
    assert_eq!(part1::solve("\n\nAAA = (ZZZ, ZZZ)"), None);
    assert_eq!(part1::solve("X\n\nAAA = (ZZZ, ZZZ)"), None);
    assert_eq!(part1::solve("L\n\nAAA = (BBB, ZZZ)"), None);
    assert_eq!(part1::solve("L\n\nAAA = (ZZZ, ZZZ)\n"), Some(1));
    assert_eq!(part1::solve("L\n\nAAA = (ZZZ, ZZZ)\n\n"), None);
    assert_eq!(part1::solve("L\n\n\u{e9}AA = (ZZZ, ZZZ)"), None);
}

#[test]
fn names_are_cut_by_bytes() {
    assert_eq!(part1::solve("R\n\nAAA = (Z\u{e9}, ZZZ)"), Some(1));
    assert_eq!(part1::solve("L\n\nAAA = (Z\u{e9}, ZZZ)"), None);
    assert_eq!(part1::solve("R\n\nAA\u{e9}A = (ZZZ, ZZZ)"), None);
    assert_eq!(part1::solve("R\n\nAAA = (ZZ\u{e9}, ZZZ)"), None);
    assert_eq!(part1::solve("LR\n\nAAA = (\u{20ac}, ZZZ)\n\u{20ac} = (AAA, ZZZ)"), Some(2));
}
