use advent2023::day_12::counter::{count_arrangements, sum_arrangements};
use advent2023::day_12::part1;
use advent2023::day_12::part2;
use advent2023::day_12::record::{parse_groups, Group, Status};
use advent2023::text::chars_of;

#[test]
fn test_parser() {
    let input = "???.### 1,1,3";
    let g = Group::from_string(input);
    assert_eq!(g.springs.len(), 7);
    assert_eq!(g.springs.get(0).unwrap(), &Status::Unknown);
    assert_eq!(g.springs.get(1).unwrap(), &Status::Unknown);
    assert_eq!(g.springs.get(2).unwrap(), &Status::Unknown);
    assert_eq!(g.springs.get(3).unwrap(), &Status::Operational);
    assert_eq!(g.springs.get(4).unwrap(), &Status::Damaged);
    assert_eq!(g.springs.get(5).unwrap(), &Status::Damaged);
    assert_eq!(g.springs.get(6).unwrap(), &Status::Damaged);

    assert_eq!(g.brokens, vec![1, 1, 3]);
}

#[test]
fn day_12_part1_test_process() {
    let input = "???.### 1,1,3
.??..??...?##. 1,1,3
?#?#?#?#?#?#?#? 1,3,1,6
????.#...#... 4,1,1
????.######..#####. 1,6,5
?###???????? 3,2,1";
    assert_eq!("21", part1::process(input))
}

#[test]
fn test_count() {
    let input = "???.### 1,1,3";
    let g = Group::from_string(input);
    assert_eq!(count_arrangements(g), 1);
}

#[test]
fn test_count2() {
    let input = ".??..??...?##. 1,1,3";
    let g: Group = Group::from_string(input);
    assert_eq!(count_arrangements(g), 4);
}

#[test]
fn test_count3() {
    let input = "?#?#?#?#?#?#?#? 1,3,1,6";
    let g: Group = Group::from_string(input);
    assert_eq!(count_arrangements(g), 1);
}

#[test]
fn test_expand_1() {
    let input = ".# 1";
    let g = Group::from_string(input);

    let expected = ".#?.#?.#?.#?.# 1,1,1,1,1";
    let g_expected = Group::from_string(expected);
    let expanded = g.expand();
    assert_eq!(expanded, g_expected);
}

#[test]
fn test_expand_2() {
    let input = "???.### 1,1,3";
    let g = Group::from_string(input).expand();

    let expected = "???.###????.###????.###????.###????.### 1,1,3,1,1,3,1,1,3,1,1,3,1,1,3";
    let g_expected = Group::from_string(expected);
    assert_eq!(g, g_expected);
}

#[test]
fn test() {
    let input = "???.### 1,1,3
.??..??...?##. 1,1,3
?#?#?#?#?#?#?#? 1,3,1,6
????.#...#... 4,1,1
????.######..#####. 1,6,5
?###???????? 3,2,1";
    assert_eq!("525152", part2::process(input));
}

fn group(springs: &str, brokens: &[u32]) -> Group {
    Group {
        springs: springs.chars().map(Status::from_char).collect(),
        brokens: brokens.to_vec(),
    }
}

#[test]
fn test_count4() {
    assert_eq!(count_arrangements(group("????.#...#...", &[4, 1, 1])), 1);
    assert_eq!(count_arrangements(group("????.######..#####.", &[1, 6, 5])), 4);
    assert_eq!(count_arrangements(group("?###????????", &[3, 2, 1])), 10);
}

#[test]
fn without_runs_no_spring_may_be_damaged() {
    assert_eq!(count_arrangements(group("", &[])), 1);
    assert_eq!(count_arrangements(group("...", &[])), 1);
    assert_eq!(count_arrangements(group("?.?", &[])), 1);
    assert_eq!(count_arrangements(group("?#?", &[])), 0);
    assert_eq!(count_arrangements(group("#", &[])), 0);
}

#[test]
fn without_springs_no_run_can_be_shown() {
    assert_eq!(count_arrangements(group("", &[1])), 0);
    assert_eq!(count_arrangements(group("", &[2, 1])), 0);
}

#[test]
fn runs_that_need_more_springs_than_there_are() {
    assert_eq!(count_arrangements(group("???", &[2, 1])), 0);
    assert_eq!(count_arrangements(group("????", &[2, 1])), 1);
    assert_eq!(count_arrangements(group("??", &[3])), 0);
    assert_eq!(count_arrangements(group("?????", &[1, 1, 1])), 1);
    assert_eq!(count_arrangements(group("????", &[1, 1, 1])), 0);
}

#[test]
fn a_single_run_among_unknown_springs() {
    for n in 1usize..12 {
        for len in 1..=n {
            let springs = "?".repeat(n);
            assert_eq!(
                count_arrangements(group(&springs, &[len as u32])),
                (n - len + 1) as u64
            );
        }
    }
}

#[test]
fn a_run_without_a_spring_cannot_be_shown() {
    assert_eq!(count_arrangements(group("???", &[0])), 0);
    assert_eq!(count_arrangements(group("...", &[0])), 0);
    assert_eq!(count_arrangements(group("?#?", &[1, 0])), 0);
    assert_eq!(count_arrangements(group("", &[0])), 0);
}

#[test]
fn counting_twice_gives_the_same() {
    let first = count_arrangements(group("?#?#?#?#?#?#?#?", &[1, 3, 1, 6]));
    let second = count_arrangements(group("?#?#?#?#?#?#?#?", &[1, 3, 1, 6]));
    assert_eq!(first, second);
}

#[test]
fn a_count_too_large_is_capped() {
    let springs = "?".repeat(400);
    let brokens = vec![1u32; 100];
    assert_eq!(count_arrangements(group(&springs, &brokens)), u64::MAX);
    let springs = "?".repeat(60);
    let brokens = vec![1u32; 10];
    // 51 places for 10 runs: 51 over 10
    assert_eq!(count_arrangements(group(&springs, &brokens)), 12777711870);
}

#[test]
fn the_sum_of_no_groups_is_zero() {
    assert_eq!(sum_arrangements(vec![]), 0);
    assert_eq!(
        sum_arrangements(vec![
            group("???.###", &[1, 1, 3]),
            group(".??..??...?##.", &[1, 1, 3]),
            group("?#?#?#?#?#?#?#?", &[1, 3, 1, 6]),
            group("????.#...#...", &[4, 1, 1]),
            group("????.######..#####.", &[1, 6, 5]),
            group("?###????????", &[3, 2, 1]),
        ]),
        21
    );
    assert_eq!(part1::solve(&chars_of("")), Some(0));
}

#[test]
fn expanding_repeats_the_springs_with_an_unknown_between() {
    let unfolded = part2::expand(&group(".#", &[1]), 5);
    assert_eq!(unfolded, group(".#?.#?.#?.#?.#", &[1, 1, 1, 1, 1]));
    assert_eq!(count_arrangements(unfolded), 1);
    assert_eq!(part2::expand(&group(".#", &[1, 2]), 1), group(".#", &[1, 2]));
    assert_eq!(part2::expand(&group(".#", &[1, 2]), 2), group(".#?.#", &[1, 2, 1, 2]));
    assert_eq!(part2::expand(&group(".#", &[1]), 0), group("", &[]));
    assert_eq!(part2::expand(&group("", &[]), 5), group("????", &[]));
    assert_eq!(part2::expand(&group("", &[3]), 3), group("??", &[3, 3, 3]));
}

#[test]
fn expanded_lengths() {
    for k in 1usize..7 {
        for n in 0usize..5 {
            let springs = "#".repeat(n);
            let unfolded = part2::expand(&group(&springs, &[1, 2, 3]), k);
            assert_eq!(unfolded.springs.len(), k * n + (k - 1));
            assert_eq!(unfolded.brokens.len(), k * 3);
        }
    }
}

#[test]
fn lines_are_read_by_their_first_and_last_word() {
    let g = Group::from_string("  #.?   x  1,2,x,,+3,4294967296,0  ");
    assert_eq!(g, group("#.?", &[1, 2, 3, 0]));
    let g = Group::from_string("#a?b");
    assert_eq!(g, group("#.?.", &[]));
    let g = Group::from_string("1,2");
    assert_eq!(g, group("...", &[1, 2]));
    assert!(Group::from_chars(&chars_of("   ")).is_none());
    assert!(Group::from_chars(&chars_of("")).is_none());
    assert!(parse_groups(&vec![chars_of("# 1"), chars_of("")]).is_none());
    assert_eq!(part1::solve(&chars_of("# 1\n\n# 1")), None);
    assert_eq!(part1::solve(&chars_of("# 1\r\n? 1\n")), Some(2));
    assert_eq!(part2::solve(&chars_of("# 1\n \n")), None);
}
