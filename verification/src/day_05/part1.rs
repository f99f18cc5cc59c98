use vstd::prelude::*;
use crate::day_06::part1::rest;
use crate::text::{
    chars_of, decimal, decimal_string, lines, lines_of, numbers_u64, read_numbers_u64,
    split_whitespace, views, words,
};

verus! {

/// One entry of a map: the values from `source_start` to `source_end` are
/// mapped to the values from `dest_start` on.
pub struct Range {
    pub source_start: u64,
    pub source_end: u64,
    pub dest_start: u64,
}

/// The entry that the numbers `nums` describe: the start of the destination,
/// the start of the source, and the length. There is none with fewer than
/// three numbers, or if the last value of the source is less than zero or does
/// not fit in 64 bits.
pub open spec fn range_of(nums: Seq<u64>) -> Option<Range> {
    if nums.len() >= 3 && 1 <= nums[1] + nums[2] <= u64::MAX {
        Some(
            Range {
                dest_start: nums[0],
                source_start: nums[1],
                source_end: (nums[1] + nums[2] - 1) as u64,
            },
        )
    } else {
        None
    }
}

/// Whether the entry `r` maps `value`.
pub open spec fn holds(r: Range, value: u64) -> bool {
    r.source_start <= value <= r.source_end
}

/// What the entry `r` maps `value` to, where it maps it. There is none if the
/// sum of the start of the destination and the value does not fit in 64 bits.
pub open spec fn image(r: Range, value: u64) -> Option<u64> {
    if r.dest_start + value <= u64::MAX {
        Some((r.dest_start + value - r.source_start) as u64)
    } else {
        None
    }
}

/// What the entries of `map` from place `k` on map `value` to: the image under
/// the first entry that maps it, and the value itself if none does.
pub open spec fn map_value(map: Seq<Range>, value: u64, k: int) -> Option<u64>
    decreases map.len() - k,
{
    if k < 0 || k >= map.len() {
        Some(value)
    } else if holds(map[k], value) {
        image(map[k], value)
    } else {
        map_value(map, value, k + 1)
    }
}

/// What `value` becomes when it passes through `maps` in order.
pub open spec fn through(maps: Seq<Seq<Range>>, value: u64) -> Option<u64>
    decreases maps.len(),
{
    if maps.len() == 0 {
        Some(value)
    } else {
        match through(maps.drop_last(), value) {
            Some(v) => map_value(maps.last(), v, 0),
            None => None,
        }
    }
}

/// The groups of `lines`: the maximal stretches of lines that are not empty.
pub open spec fn groups(lines: Seq<Seq<char>>) -> Seq<Seq<Seq<char>>>
    decreases lines.len(),
{
    if lines.len() == 0 {
        Seq::empty()
    } else {
        let prev = groups(lines.drop_last());
        if lines.last().len() == 0 {
            prev
        } else if lines.len() >= 2 && lines[lines.len() - 2].len() > 0 {
            prev.drop_last().push(prev.last().push(lines.last()))
        } else {
            prev.push(seq![lines.last()])
        }
    }
}

/// The entry that `line` describes, if its words are numbers of 64 bits that
/// describe one.
pub open spec fn line_range(line: Seq<char>) -> Option<Range> {
    match numbers_u64(words(line)) {
        Some(nums) => range_of(nums),
        None => None,
    }
}

/// The map that the group `group` describes: one entry for each of its lines
/// but the first, which is its title.
pub open spec fn parsed_map(group: Seq<Seq<char>>) -> Option<Seq<Range>> {
    let body = rest(group);
    if forall|i: int| 0 <= i < body.len() ==> (#[trigger] line_range(body[i])) is Some {
        Some(Seq::new(body.len(), |i: int| line_range(body[i])->0))
    } else {
        None
    }
}

/// The maps that the groups `all` describe, if each of them describes one.
pub open spec fn parsed_maps(all: Seq<Seq<Seq<char>>>) -> Option<Seq<Seq<Range>>> {
    if forall|i: int| 0 <= i < all.len() ==> (#[trigger] parsed_map(all[i])) is Some {
        Some(Seq::new(all.len(), |i: int| parsed_map(all[i])->0))
    } else {
        None
    }
}

/// The least of the locations that `maps` lead the first `k` seeds to, if each
/// of these seeds has a location and `k` is not zero.
pub open spec fn least_location(maps: Seq<Seq<Range>>, seeds: Seq<u64>, k: int) -> Option<u64>
    decreases k,
{
    if k <= 0 {
        None
    } else {
        match through(maps, seeds[k - 1]) {
            Some(v) => if k == 1 {
                Some(v)
            } else {
                match least_location(maps, seeds, k - 1) {
                    Some(w) => Some(
                        if v < w {
                            v
                        } else {
                            w
                        },
                    ),
                    None => None,
                }
            },
            None => None,
        }
    }
}

/// `lines` without its first two lines.
pub open spec fn after_seeds(lines: Seq<Seq<char>>) -> Seq<Seq<char>> {
    if lines.len() >= 2 {
        lines.skip(2)
    } else {
        Seq::empty()
    }
}

/// The answer to the puzzle `input`: the least location of its seeds. The
/// seeds are the numbers after the first word of the first line; the maps are
/// the groups of lines from the third line on. There is none if `input` has no
/// line or no seed, a seed or an entry cannot be read, or a sum on the way
/// does not fit in 64 bits.
pub open spec fn answer(input: Seq<char>) -> Option<u64> {
    let all = lines(input);
    if all.len() == 0 {
        None
    } else {
        match (numbers_u64(rest(words(all[0]))), parsed_maps(groups(after_seeds(all)))) {
            (Some(seeds), Some(maps)) => least_location(maps, seeds, seeds.len() as int),
            _ => None,
        }
    }
}

impl Range {
    /// Makes the entry that `slice` describes, if it describes one.
    pub fn checked_new(slice: &[u64]) -> (found: Option<Range>)
        ensures
            found == range_of(slice@),
    {
        if slice.len() < 3 {
            return None;
        }
        match slice[1].checked_add(slice[2]) {
            Some(end) => {
                if end == 0 {
                    None
                } else {
                    Some(
                        Range {
                            dest_start: slice[0],
                            source_start: slice[1],
                            source_end: end - 1,
                        },
                    )
                }
            },
            None => None,
        }
    }

    /// The entry that `slice` describes: the start of the destination, the
    /// start of the source, and the length.
    pub fn new(slice: &[u64]) -> (range: Range)
        requires
            range_of(slice@) is Some,
        ensures
            range == range_of(slice@)->0,
    {
        Range::checked_new(slice).unwrap()
    }

    /// Whether the entry maps `value`.
    pub fn maps(&self, value: u64) -> (b: bool)
        ensures
            b == holds(*self, value),
    {
        value >= self.source_start && value <= self.source_end
    }

    /// What the entry maps `value` to, if it maps it.
    pub fn process_val(&self, value: u64) -> (found: Option<u64>)
        requires
            holds(*self, value) ==> image(*self, value) is Some,
        ensures
            found == (if holds(*self, value) {
                image(*self, value)
            } else {
                None
            }),
    {
        if value >= self.source_start && value <= self.source_end {
            return Some(self.dest_start + value - self.source_start);
        }
        None
    }
}

/// Maps `value` by the first entry of `map` that maps it, if the image fits.
pub fn checked_map(map: &[Range], value: u64) -> (found: Option<u64>)
    ensures
        found == map_value(map@, value, 0),
{
    let mut k: usize = 0;
    while k < map.len()
        invariant
            k <= map.len(),
            map_value(map@, value, 0) == map_value(map@, value, k as int),
        decreases map.len() - k,
    {
        if map[k].maps(value) {
            return match map[k].dest_start.checked_add(value) {
                Some(sum) => Some(sum - map[k].source_start),
                None => None,
            };
        }
        k += 1;
    }
    Some(value)
}

/// What `map` maps `value` to: the image under the first entry that maps it,
/// and the value itself if none does.
pub fn process_map(map: &[Range], value: u64) -> (mapped: u64)
    requires
        map_value(map@, value, 0) is Some,
    ensures
        mapped == map_value(map@, value, 0)->0,
{
    checked_map(map, value).unwrap()
}

/// Reads the map that the lines `map_str` describe, the first of which is its
/// title.
pub fn generate_map(map_str: &Vec<Vec<char>>) -> (found: Option<Vec<Range>>)
    ensures
        found is Some <==> parsed_map(views(map_str@)) is Some,
        found is Some ==> found->0@ == parsed_map(views(map_str@))->0,
{
    let ghost body = rest(views(map_str@));
    let mut map: Vec<Range> = Vec::new();
    let mut i: usize = 1;
    if map_str.len() == 0 {
        assert(map@ =~= parsed_map(views(map_str@))->0);
        return Some(map);
    }
    while i < map_str.len()
        invariant
            1 <= i <= map_str.len(),
            body == rest(views(map_str@)),
            map.len() == i - 1,
            forall|k: int| 0 <= k < i - 1 ==> (#[trigger] line_range(body[k])) is Some,
            forall|k: int| 0 <= k < i - 1 ==> (#[trigger] map[k]) == line_range(body[k])->0,
        decreases map_str.len() - i,
    {
        assert(body[i - 1] == map_str[i as int]@);
        let found_words = split_whitespace(&map_str[i]);
        let range = match read_numbers_u64(&found_words) {
            Some(nums) => Range::checked_new(nums.as_slice()),
            None => None,
        };
        match range {
            Some(r) => {
                map.push(r);
            },
            None => {
                assert(line_range(body[i - 1]) is None);
                return None;
            },
        }
        i += 1;
    }
    assert(map@ =~= parsed_map(views(map_str@))->0);
    Some(map)
}

/// The contents of a list of groups of lines.
pub open spec fn group_views(all: Seq<Vec<Vec<char>>>) -> Seq<Seq<Seq<char>>> {
    Seq::new(all.len(), |i: int| views(all[i]@))
}

/// Splits `all`, from its third line on, into its groups.
fn groups_of(all: &Vec<Vec<char>>) -> (found: Vec<Vec<Vec<char>>>)
    ensures
        group_views(found@) == groups(after_seeds(views(all@))),
{
    let ghost tail = after_seeds(views(all@));
    let mut maps: Vec<Vec<Vec<char>>> = Vec::new();
    let mut current_map: Vec<Vec<char>> = Vec::new();
    if all.len() < 2 {
        assert(group_views(maps@) =~= groups(tail));
        return maps;
    }
    let mut i: usize = 2;
    assert(tail.take(0) =~= Seq::<Seq<char>>::empty());
    assert(group_views(maps@) =~= Seq::<Seq<Seq<char>>>::empty());
    while i < all.len()
        invariant
            2 <= i <= all.len(),
            tail == after_seeds(views(all@)),
            current_map.len() > 0 <==> i > 2 && all[i - 1]@.len() > 0,
            groups(tail.take(i - 2)) == (if current_map.len() > 0 {
                group_views(maps@).push(views(current_map@))
            } else {
                group_views(maps@)
            }),
        decreases all.len() - i,
    {
        let ghost prev = groups(tail.take(i - 2));
        let ghost old_maps = group_views(maps@);
        let ghost old_current = views(current_map@);
        proof {
            assert(tail.take(i - 1).drop_last() =~= tail.take(i - 2));
            assert(tail.take(i - 1).last() == all[i as int]@);
            if i > 2 {
                assert(tail.take(i - 1)[i - 3] == all[i - 1]@);
            }
        }
        let item = &all[i];
        if item.len() == 0 {
            if current_map.len() > 0 {
                maps.push(current_map);
                current_map = Vec::new();
                assert(group_views(maps@) =~= old_maps.push(old_current));
            }
        } else {
            let mut copy: Vec<char> = Vec::new();
            let mut k: usize = 0;
            while k < item.len()
                invariant
                    k <= item.len(),
                    copy@ == item@.take(k as int),
                decreases item.len() - k,
            {
                copy.push(item[k]);
                assert(copy@ =~= item@.take(k + 1));
                k += 1;
            }
            assert(item@.take(item.len() as int) =~= item@);
            current_map.push(copy);
            proof {
                if old_current.len() > 0 {
                    assert(prev.drop_last() =~= old_maps);
                    assert(prev.last() == old_current);
                    assert(views(current_map@) =~= old_current.push(item@));
                } else {
                    assert(views(current_map@) =~= seq![item@]);
                }
            }
        }
        i += 1;
    }
    assert(tail.take(all.len() - 2) =~= tail);
    if current_map.len() > 0 {
        let ghost before = group_views(maps@);
        let ghost last = views(current_map@);
        maps.push(current_map);
        assert(group_views(maps@) =~= before.push(last));
    }
    maps
}

/// Leads `value` through `maps` in order, if every image fits.
pub fn lead_through(maps: &Vec<Vec<Range>>, value: u64) -> (found: Option<u64>)
    ensures
        found == through(Seq::new(maps@.len(), |i: int| maps@[i]@), value),
{
    let ghost all = Seq::new(maps@.len(), |i: int| maps@[i]@);
    let mut current: u64 = value;
    let mut i: usize = 0;
    assert(all.take(0) =~= Seq::<Seq<Range>>::empty());
    while i < maps.len()
        invariant
            i <= maps.len(),
            all == Seq::new(maps@.len(), |i: int| maps@[i]@),
            through(all.take(i as int), value) == Some(current),
        decreases maps.len() - i,
    {
        proof {
            assert(all.take(i + 1).drop_last() =~= all.take(i as int));
            assert(all.take(i + 1).last() == maps@[i as int]@);
            if through(all, value) is Some {
                lemma_through_start(all, value, i + 1);
            }
        }
        match checked_map(maps[i].as_slice(), current) {
            Some(v) => {
                current = v;
            },
            None => {
                return None;
            },
        }
        i += 1;
    }
    assert(all.take(maps.len() as int) =~= all);
    Some(current)
}

/// Where a value passes through all maps, it passes through the first `k`.
pub proof fn lemma_through_start(maps: Seq<Seq<Range>>, value: u64, k: int)
    requires
        0 <= k <= maps.len(),
        through(maps, value) is Some,
    ensures
        through(maps.take(k), value) is Some,
    decreases maps.len(),
{
    if k == maps.len() {
        assert(maps.take(k) =~= maps);
    } else {
        lemma_through_start(maps.drop_last(), value, k);
        assert(maps.drop_last().take(k) =~= maps.take(k));
    }
}

/// Where all seeds have a least location, so have the first `k` of them.
pub proof fn lemma_least_location_start(maps: Seq<Seq<Range>>, seeds: Seq<u64>, k: int, n: int)
    requires
        1 <= k <= n,
        least_location(maps, seeds, n) is Some,
    ensures
        least_location(maps, seeds, k) is Some,
    decreases n,
{
    if k < n {
        lemma_least_location_start(maps, seeds, k, n - 1);
    }
}

/// Computes the answer to the puzzle `input`, if it has one.
#[verifier::loop_isolation(false)]
pub fn solve(input: &Vec<char>) -> (found: Option<u64>)
    ensures
        found == answer(input@),
{
    let all = lines_of(input);
    if all.len() == 0 {
        return None;
    }
    assert(views(all@)[0] == all[0]@);
    let mut seed_words = split_whitespace(&all[0]);
    let ghost before = views(seed_words@);
    if seed_words.len() > 0 {
        seed_words.remove(0);
        assert(views(seed_words@) =~= before.skip(1));
    }
    let seeds = match read_numbers_u64(&seed_words) {
        Some(v) => v,
        None => {
            return None;
        },
    };
    let found_groups = groups_of(&all);
    let ghost spec_groups = groups(after_seeds(lines(input@)));
    let mut generated_maps: Vec<Vec<Range>> = Vec::new();
    let mut i: usize = 0;
    while i < found_groups.len()
        invariant
            i <= found_groups.len(),
            generated_maps.len() == i,
            spec_groups == group_views(found_groups@),
            forall|k: int| 0 <= k < i ==> (#[trigger] parsed_map(spec_groups[k])) is Some,
            forall|k: int|
                0 <= k < i ==> (#[trigger] generated_maps[k])@ == parsed_map(spec_groups[k])->0,
        decreases found_groups.len() - i,
    {
        assert(spec_groups[i as int] == views(found_groups[i as int]@));
        match generate_map(&found_groups[i]) {
            Some(map) => {
                generated_maps.push(map);
            },
            None => {
                assert(parsed_map(spec_groups[i as int]) is None);
                return None;
            },
        }
        i += 1;
    }
    let ghost maps = Seq::new(generated_maps@.len(), |i: int| generated_maps@[i]@);
    assert(maps =~= parsed_maps(spec_groups)->0);
    if seeds.len() == 0 {
        return None;
    }
    let mut location: u64 = 0;
    let mut k: usize = 0;
    while k < seeds.len()
        invariant
            k <= seeds.len(),
            seeds.len() > 0,
            maps == Seq::new(generated_maps@.len(), |i: int| generated_maps@[i]@),
            k > 0 ==> least_location(maps, seeds@, k as int) == Some(location),
        decreases seeds.len() - k,
    {
        proof {
            if least_location(maps, seeds@, seeds.len() as int) is Some {
                lemma_least_location_start(maps, seeds@, k + 1, seeds.len() as int);
            }
        }
        match lead_through(&generated_maps, seeds[k]) {
            Some(v) => {
                if k == 0 || v < location {
                    location = v;
                }
            },
            None => {
                return None;
            },
        }
        k += 1;
    }
    Some(location)
}

/// The answer to the puzzle `input`, in decimal digits.
pub fn process(input: &str) -> (out: String)
    requires
        answer(input@) is Some,
    ensures
        out@ == decimal(answer(input@)->0 as nat),
{
    let chars = chars_of(input);
    decimal_string(solve(&chars).unwrap())
}

} // verus!
