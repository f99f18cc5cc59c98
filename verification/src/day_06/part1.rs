use vstd::prelude::*;
use crate::text::{
    chars_of, decimal, decimal_string, lines, lines_of, numbers_u32, read_numbers_u32,
    split_whitespace, views, words,
};

verus! {

/// `items` without its first item, if it has one.
pub open spec fn rest<T>(items: Seq<T>) -> Seq<T> {
    if items.len() > 0 {
        items.skip(1)
    } else {
        items
    }
}

/// The races that `input` describes: the times are the numbers after the first
/// word of its first line, the record distances those after the first word of
/// its last line. There are none if `input` has no line, one of these words is
/// no number of 32 bits, or there are not as many times as distances.
pub open spec fn races(input: Seq<char>) -> Option<Seq<(u32, u32)>> {
    let all = lines(input);
    if all.len() == 0 {
        None
    } else {
        match (numbers_u32(rest(words(all.first()))), numbers_u32(rest(words(all.last())))) {
            (Some(times), Some(distances)) => if times.len() == distances.len() {
                Some(Seq::new(times.len(), |i: int| (times[i], distances[i])))
            } else {
                None
            },
            _ => None,
        }
    }
}

/// Among the first `k` ways to hold the button in a race of `time`, from one
/// unit of time on, the number of those that go further than `record`: holding
/// for `i` units goes `i * (time - i)` far. There is none if one of these
/// distances is more than `max`.
pub open spec fn ways_among(time: nat, record: nat, max: nat, k: nat) -> Option<nat>
    decreases k,
{
    if k == 0 {
        Some(0)
    } else {
        match ways_among(time, record, max, (k - 1) as nat) {
            Some(count) => {
                let far = k * (time - k);
                if far > max {
                    None
                } else if far > record {
                    Some(count + 1)
                } else {
                    Some(count)
                }
            },
            None => None,
        }
    }
}

/// The number of ways to go further than `record` in a race of `time`, holding
/// the button for at least one unit and less than the whole time.
pub open spec fn ways(time: nat, record: nat, max: nat) -> Option<nat> {
    if time == 0 {
        Some(0)
    } else {
        ways_among(time, record, max, (time - 1) as nat)
    }
}

/// The product of the numbers of ways of `all`, from one on, if each race has
/// one and no product on the way is more than `u32::MAX`.
pub open spec fn product(all: Seq<(u32, u32)>) -> Option<u32>
    decreases all.len(),
{
    if all.len() == 0 {
        Some(1)
    } else {
        match (
            product(all.drop_last()),
            ways(all.last().0 as nat, all.last().1 as nat, u32::MAX as nat),
        ) {
            (Some(a), Some(b)) => if a * b <= u32::MAX {
                Some((a * b) as u32)
            } else {
                None
            },
            _ => None,
        }
    }
}

/// The answer to the puzzle `input`: the product of the numbers of ways to win
/// each of its races.
pub open spec fn answer(input: Seq<char>) -> Option<u32> {
    match races(input) {
        Some(all) => product(all),
        None => None,
    }
}

/// Where a race has a number of ways, so have its first `k` ways.
pub proof fn lemma_ways_among_start(time: nat, record: nat, max: nat, k: nat, n: nat)
    requires
        k <= n,
        ways_among(time, record, max, n) is Some,
    ensures
        ways_among(time, record, max, k) is Some,
        ways_among(time, record, max, k)->0 <= k,
    decreases n,
{
    if k < n {
        lemma_ways_among_start(time, record, max, k, (n - 1) as nat);
    } else if k > 0 {
        lemma_ways_among_start(time, record, max, (k - 1) as nat, (n - 1) as nat);
    }
}

/// The words of `line` after its first, each read as a number of 32 bits.
fn numbers_after_first(line: &Vec<char>) -> (found: Option<Vec<u32>>)
    ensures
        found is Some <==> numbers_u32(rest(words(line@))) is Some,
        found is Some ==> found->0@ == numbers_u32(rest(words(line@)))->0,
{
    let mut found_words = split_whitespace(line);
    let ghost before = views(found_words@);
    if found_words.len() > 0 {
        found_words.remove(0);
        assert(views(found_words@) =~= before.skip(1));
    }
    read_numbers_u32(&found_words)
}

/// Reads the races that the lines `all` describe.
pub fn read_races(all: &Vec<Vec<char>>) -> (found: Option<Vec<(u32, u32)>>)
    requires
        all.len() > 0,
    ensures
        found is Some <==> (numbers_u32(rest(words(all[0]@))) is Some && numbers_u32(
            rest(words(all[all.len() - 1]@)),
        ) is Some && numbers_u32(rest(words(all[0]@)))->0.len() == numbers_u32(
            rest(words(all[all.len() - 1]@)),
        )->0.len()),
        found is Some ==> found->0@ == Seq::new(
            found->0@.len(),
            |i: int|
                (
                    numbers_u32(rest(words(all[0]@)))->0[i],
                    numbers_u32(rest(words(all[all.len() - 1]@)))->0[i],
                ),
        ) && found->0@.len() == numbers_u32(rest(words(all[0]@)))->0.len(),
{
    let times = match numbers_after_first(&all[0]) {
        Some(v) => v,
        None => {
            return None;
        },
    };
    let distances = match numbers_after_first(&all[all.len() - 1]) {
        Some(v) => v,
        None => {
            return None;
        },
    };
    if times.len() != distances.len() {
        return None;
    }
    let mut output: Vec<(u32, u32)> = Vec::new();
    let mut i: usize = 0;
    while i < times.len()
        invariant
            i <= times.len(),
            times.len() == distances.len(),
            output.len() == i,
            forall|k: int| 0 <= k < i ==> (#[trigger] output[k]) == (times[k], distances[k]),
        decreases times.len() - i,
    {
        output.push((times[i], distances[i]));
        i += 1;
    }
    assert(output@ =~= Seq::new(output@.len(), |i: int| (times@[i], distances@[i])));
    Some(output)
}

/// The races that `input` describes.
pub fn generate_races(input: &str) -> (output: Vec<(u32, u32)>)
    requires
        races(input@) is Some,
    ensures
        output@ == races(input@)->0,
{
    let chars = chars_of(input);
    let all = lines_of(&chars);
    assert(views(all@).first() == all[0]@);
    assert(views(all@).last() == all[all.len() - 1]@);
    let output = read_races(&all).unwrap();
    assert(output@ =~= races(input@)->0);
    output
}

/// Counts the ways to go further than `record` in a race of `time`, with
/// distances of 32 bits.
pub fn count_ways(time: u32, record: u32) -> (found: Option<u32>)
    ensures
        found is Some <==> ways(time as nat, record as nat, u32::MAX as nat) is Some,
        found is Some ==> found->0 == ways(time as nat, record as nat, u32::MAX as nat)->0,
{
    if time == 0 {
        return Some(0);
    }
    let mut count: u32 = 0;
    let mut i: u32 = 1;
    while i < time
        invariant
            1 <= i <= time,
            ways_among(time as nat, record as nat, u32::MAX as nat, (i - 1) as nat) == Some(
                count as nat,
            ),
            count <= i - 1,
        decreases time - i,
    {
        match i.checked_mul(time - i) {
            Some(far) => {
                if far > record {
                    count += 1;
                }
            },
            None => {
                proof {
                    if ways(time as nat, record as nat, u32::MAX as nat) is Some {
                        lemma_ways_among_start(
                            time as nat,
                            record as nat,
                            u32::MAX as nat,
                            i as nat,
                            (time - 1) as nat,
                        );
                    }
                }
                return None;
            },
        }
        i += 1;
    }
    Some(count)
}

/// Computes the answer to the puzzle `input`, if it has one.
pub fn solve(input: &Vec<char>) -> (found: Option<u32>)
    ensures
        found == answer(input@),
{
    let all = lines_of(input);
    if all.len() == 0 {
        return None;
    }
    assert(views(all@).first() == all[0]@);
    assert(views(all@).last() == all[all.len() - 1]@);
    let all_races = match read_races(&all) {
        Some(v) => v,
        None => {
            return None;
        },
    };
    assert(all_races@ =~= races(input@)->0);
    let mut output: u32 = 1;
    let mut i: usize = 0;
    assert(all_races@.take(0) =~= Seq::<(u32, u32)>::empty());
    while i < all_races.len()
        invariant
            i <= all_races.len(),
            races(input@) == Some(all_races@),
            product(all_races@.take(i as int)) == Some(output),
        decreases all_races.len() - i,
    {
        proof {
            assert(all_races@.take(i + 1).drop_last() =~= all_races@.take(i as int));
            assert(all_races@.take(i + 1).last() == all_races@[i as int]);
            if product(all_races@) is Some {
                lemma_product_start(all_races@, i + 1);
            }
        }
        let race = all_races[i];
        let next = match count_ways(race.0, race.1) {
            Some(w) => output.checked_mul(w),
            None => None,
        };
        match next {
            Some(v) => {
                output = v;
            },
            None => {
                return None;
            },
        }
        i += 1;
    }
    assert(all_races@.take(all_races.len() as int) =~= all_races@);
    Some(output)
}

/// Where all races have a product, so have the first `k` of them.
pub proof fn lemma_product_start(all: Seq<(u32, u32)>, k: int)
    requires
        0 <= k <= all.len(),
        product(all) is Some,
    ensures
        product(all.take(k)) is Some,
    decreases all.len(),
{
    if k == all.len() {
        assert(all.take(k) =~= all);
    } else {
        lemma_product_start(all.drop_last(), k);
        assert(all.drop_last().take(k) =~= all.take(k));
    }
}

/// The answer to the puzzle `input`, in decimal digits.
pub fn process(input: &str) -> (out: String)
    requires
        answer(input@) is Some,
    ensures
        out@ == decimal(answer(input@)->0 as nat),
{
    let chars = chars_of(input);
    decimal_string(solve(&chars).unwrap() as u64)
}

} // verus!
