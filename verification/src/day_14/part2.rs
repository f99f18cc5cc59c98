use vstd::prelude::*;
use crate::day_14::part1::{
    checked_load, grid, load, platform_of, read_platform, readable, spheres_in, Thing,
};
use crate::text::{chars_of, decimal, decimal_string, lines, lines_of};

verus! {

/// Whether `rows` can be turned: it has a row, and no row is shorter than the
/// first.
pub open spec fn can_turn(rows: Seq<Seq<Thing>>) -> bool {
    rows.len() > 0 && forall|r: int| 0 <= r < rows.len() ==> (#[trigger] rows[r]).len()
        >= rows[0].len()
}

/// `rows` turned: for each column of the first row, what lies in that column
/// in all rows, from the north.
pub open spec fn turned(rows: Seq<Seq<Thing>>) -> Seq<Seq<Thing>> {
    Seq::new(rows[0].len(), |c: int| Seq::new(rows.len(), |r: int| rows[r][c]))
}

/// The stretches of `row` between its square rocks: one more than there are
/// square rocks, in order.
pub open spec fn segments(row: Seq<Thing>) -> Seq<Seq<Thing>>
    decreases row.len(),
{
    if row.len() == 0 {
        seq![Seq::empty()]
    } else {
        let prev = segments(row.drop_last());
        if row.last() == Thing::Cube {
            prev.push(Seq::empty())
        } else {
            prev.drop_last().push(prev.last().push(row.last()))
        }
    }
}

/// `n` places with `thing` on each.
pub open spec fn repeat(thing: Thing, n: nat) -> Seq<Thing> {
    Seq::new(n, |i: int| thing)
}

/// The stretch `segment` after its round rocks have rolled to its start, if
/// `left` holds, or to its end.
pub open spec fn settled(segment: Seq<Thing>, left: bool) -> Seq<Thing> {
    let round = spheres_in(segment);
    let free = (segment.len() - round) as nat;
    if left {
        repeat(Thing::Sphere, round) + repeat(Thing::Empty, free)
    } else {
        repeat(Thing::Empty, free) + repeat(Thing::Sphere, round)
    }
}

/// The stretches `pieces`, each settled, with a square rock between each two.
pub open spec fn joined(pieces: Seq<Seq<Thing>>, left: bool) -> Seq<Thing>
    decreases pieces.len(),
{
    if pieces.len() == 0 {
        Seq::empty()
    } else if pieces.len() == 1 {
        settled(pieces[0], left)
    } else {
        joined(pieces.drop_last(), left).push(Thing::Cube) + settled(pieces.last(), left)
    }
}

/// The row `row` tilted: between the square rocks, the round rocks have rolled
/// west, if `left` holds, or east.
pub open spec fn tilted_row(row: Seq<Thing>, left: bool) -> Seq<Thing> {
    joined(segments(row), left)
}

/// The platform `rows` tilted west, if `left` holds, or east. There is none
/// if the platform has no row.
pub open spec fn tilted_sideways(rows: Seq<Seq<Thing>>, left: bool) -> Option<Seq<Seq<Thing>>> {
    if rows.len() == 0 {
        None
    } else {
        Some(Seq::new(rows.len(), |r: int| tilted_row(rows[r], left)))
    }
}

/// The platform `rows` tilted north, if `up` holds, or south: turned, tilted
/// sideways, and turned back. There is none if the platform cannot be turned
/// or has no column.
pub open spec fn tilted_upright(rows: Seq<Seq<Thing>>, up: bool) -> Option<Seq<Seq<Thing>>> {
    if can_turn(rows) {
        match tilted_sideways(turned(rows), up) {
            Some(lying) => Some(turned(lying)),
            None => None,
        }
    } else {
        None
    }
}

/// The platform `rows` tilted in the direction `direction`: 0 for north, 1 for
/// west, 2 for south, and 3 for east. No other number is a direction.
pub open spec fn tilted_to(rows: Seq<Seq<Thing>>, direction: usize) -> Option<Seq<Seq<Thing>>> {
    if direction == 0 {
        tilted_upright(rows, true)
    } else if direction == 1 {
        tilted_sideways(rows, true)
    } else if direction == 2 {
        tilted_upright(rows, false)
    } else if direction == 3 {
        tilted_sideways(rows, false)
    } else {
        None
    }
}

/// The platform `rows` after the first `k` tilts of a cycle.
pub open spec fn cycled_upto(rows: Seq<Seq<Thing>>, k: int) -> Option<Seq<Seq<Thing>>>
    decreases k,
{
    if k <= 0 {
        Some(rows)
    } else {
        match cycled_upto(rows, k - 1) {
            Some(prev) => tilted_to(prev, (k - 1) as usize),
            None => None,
        }
    }
}

/// The platform `rows` after one cycle: tilted north, west, south and east.
pub open spec fn cycled(rows: Seq<Seq<Thing>>) -> Option<Seq<Seq<Thing>>> {
    cycled_upto(rows, 4)
}

/// The number of cycles that the answer is asked for.
pub open spec fn endpoint() -> int {
    1000000000
}

/// The length of a row of loads that is looked for again.
pub open spec fn cycle_length() -> int {
    7
}

/// The number of the cycle after which the row of loads `sequence` was noted
/// among `seen`, at the first of its places from `k` on.
pub open spec fn noted(seen: Seq<(Seq<usize>, usize)>, sequence: Seq<usize>, k: int) -> Option<
    usize,
>
    decreases seen.len() - k,
{
    if k < 0 || k >= seen.len() {
        None
    } else if seen[k].0 == sequence {
        Some(seen[k].1)
    } else {
        noted(seen, sequence, k + 1)
    }
}

/// The load after the last cycle, as the search for a repetition from cycle
/// `iteration` on finds it. After each cycle the load is put at the end of
/// `buffer`. Once the buffer holds seven loads, it is looked up among the rows
/// noted in `seen`: if it was noted after cycle `start`, the load asked for is
/// the one of the buffer at place `(endpoint - start - 2) % 7`; if not, it is
/// noted with the number of the cycle, and its first load is dropped. There is
/// none if the platform cannot be cycled, a load does not fit, or no row of
/// loads comes again before the last cycle.
pub open spec fn search(
    rows: Seq<Seq<Thing>>,
    buffer: Seq<usize>,
    seen: Seq<(Seq<usize>, usize)>,
    iteration: int,
) -> Option<usize>
    decreases endpoint() - iteration,
{
    if iteration < 0 || iteration >= endpoint() {
        None
    } else {
        match cycled(rows) {
            Some(next) => match load(next) {
                Some(weight) => {
                    let sequence = buffer.push(weight);
                    if sequence.len() == cycle_length() {
                        match noted(seen, sequence, 0) {
                            Some(start) => Some(
                                sequence[(endpoint() - start - 2) % cycle_length()],
                            ),
                            None => search(
                                next,
                                sequence.drop_first(),
                                seen.push((sequence, iteration as usize)),
                                iteration + 1,
                            ),
                        }
                    } else {
                        search(next, sequence, seen, iteration + 1)
                    }
                },
                None => None,
            },
            None => None,
        }
    }
}

/// The answer to the puzzle `input`: the load of its platform after the last
/// cycle, found by the repetition of its loads.
pub open spec fn answer(input: Seq<char>) -> Option<usize> {
    if readable(lines(input)) {
        search(platform_of(lines(input)), Seq::empty(), Seq::empty(), 0)
    } else {
        None
    }
}

/// Whether no row of `platform` is shorter than the first.
fn check_turn(platform: &Vec<Vec<Thing>>) -> (ok: bool)
    ensures
        ok == can_turn(grid(platform@)),
{
    if platform.len() == 0 {
        return false;
    }
    let ghost rows = grid(platform@);
    assert(rows[0] == platform[0]@);
    let width: usize = platform[0].len();
    let mut r: usize = 0;
    while r < platform.len()
        invariant
            r <= platform.len(),
            rows == grid(platform@),
            width == rows[0].len(),
            forall|i: int| 0 <= i < r ==> (#[trigger] rows[i]).len() >= width,
        decreases platform.len() - r,
    {
        assert(rows[r as int] == platform[r as int]@);
        if platform[r].len() < width {
            return false;
        }
        r += 1;
    }
    true
}

/// Turns `platform`: the columns become the rows. The platform is turned the
/// same way whatever `clockwise` says.
pub fn rotate_platform(platform: &mut Vec<Vec<Thing>>, clockwise: bool)
    requires
        can_turn(grid(old(platform)@)),
    ensures
        grid(final(platform)@) == turned(grid(old(platform)@)),
{
    let cols: usize = platform[0].len();
    let ghost rows = grid(platform@);
    assert(rows[0] == platform[0]@);
    let mut rotated: Vec<Vec<Thing>> = Vec::new();
    let mut c: usize = 0;
    while c < cols
        invariant
            c <= cols,
            cols == rows[0].len(),
            rows == grid(platform@),
            can_turn(rows),
            rotated.len() == c,
            forall|i: int| 0 <= i < c ==> (#[trigger] rotated[i])@ == turned(rows)[i],
        decreases cols - c,
    {
        let mut column: Vec<Thing> = Vec::new();
        let mut r: usize = 0;
        while r < platform.len()
            invariant
                r <= platform.len(),
                c < cols,
                cols == rows[0].len(),
                rows == grid(platform@),
                can_turn(rows),
                column.len() == r,
                forall|i: int| 0 <= i < r ==> (#[trigger] column[i]) == rows[i][c as int],
            decreases platform.len() - r,
        {
            assert(rows[r as int] == platform[r as int]@);
            column.push(platform[r][c]);
            r += 1;
        }
        assert(column@ =~= turned(rows)[c as int]);
        rotated.push(column);
        c += 1;
    }
    assert(grid(rotated@) =~= turned(rows));
    *platform = rotated;
}

/// Appends `n` places with `thing` on each to `row`.
fn extend(row: &mut Vec<Thing>, thing: Thing, n: usize)
    ensures
        final(row)@ == old(row)@ + repeat(thing, n as nat),
{
    let mut k: usize = 0;
    assert(row@ =~= old(row)@ + repeat(thing, 0));
    while k < n
        invariant
            k <= n,
            row@ == old(row)@ + repeat(thing, k as nat),
        decreases n - k,
    {
        row.push(thing);
        assert(row@ =~= old(row)@ + repeat(thing, (k + 1) as nat));
        k += 1;
    }
}

/// Appends a stretch of `round` round rocks and `free` free places to `row`,
/// settled at its start, if `left` holds, or at its end.
fn extend_settled(row: &mut Vec<Thing>, round: usize, free: usize, left: bool)
    ensures
        final(row)@ == old(row)@ + (if left {
            repeat(Thing::Sphere, round as nat) + repeat(Thing::Empty, free as nat)
        } else {
            repeat(Thing::Empty, free as nat) + repeat(Thing::Sphere, round as nat)
        }),
{
    if left {
        extend(row, Thing::Sphere, round);
        extend(row, Thing::Empty, free);
        assert(row@ =~= old(row)@ + (repeat(Thing::Sphere, round as nat) + repeat(
            Thing::Empty,
            free as nat,
        )));
    } else {
        extend(row, Thing::Empty, free);
        extend(row, Thing::Sphere, round);
        assert(row@ =~= old(row)@ + (repeat(Thing::Empty, free as nat) + repeat(
            Thing::Sphere,
            round as nat,
        )));
    }
}

/// What stands in front of the last stretch when `pieces` are joined.
pub open spec fn joined_front(pieces: Seq<Seq<Thing>>, left: bool) -> Seq<Thing> {
    if pieces.len() <= 1 {
        Seq::empty()
    } else {
        joined(pieces.drop_last(), left).push(Thing::Cube)
    }
}

/// A row is cut into at least one stretch.
pub proof fn lemma_segments_len(row: Seq<Thing>)
    ensures
        segments(row).len() >= 1,
    decreases row.len(),
{
    if row.len() > 0 {
        lemma_segments_len(row.drop_last());
    }
}

/// Tilts one row west, if `left` holds, or east.
pub fn tilt_row(row: &Vec<Thing>, left: bool) -> (new_row: Vec<Thing>)
    ensures
        new_row@ == tilted_row(row@, left),
{
    let mut new_row: Vec<Thing> = Vec::new();
    let mut round: usize = 0;
    let mut free: usize = 0;
    let mut i: usize = 0;
    assert(row@.take(0) =~= Seq::<Thing>::empty());
    assert(joined_front(segments(row@.take(0)), left) =~= Seq::<Thing>::empty());
    while i < row.len()
        invariant
            i <= row.len(),
            new_row@ == joined_front(segments(row@.take(i as int)), left),
            round == spheres_in(segments(row@.take(i as int)).last()),
            round + free == segments(row@.take(i as int)).last().len(),
            round + free <= i,
        decreases row.len() - i,
    {
        let ghost before = segments(row@.take(i as int));
        let ghost after = segments(row@.take(i + 1));
        proof {
            assert(row@.take(i + 1).drop_last() =~= row@.take(i as int));
            assert(row@.take(i + 1).last() == row@[i as int]);
            lemma_segments_len(row@.take(i as int));
        }
        match row[i] {
            Thing::Cube => {
                extend_settled(&mut new_row, round, free, left);
                new_row.push(Thing::Cube);
                proof {
                    assert(after.drop_last() =~= before);
                    if before.len() == 1 {
                        assert(joined(before, left) == settled(before[0], left));
                    } else {
                        assert(joined(before, left) == joined(before.drop_last(), left).push(
                            Thing::Cube,
                        ) + settled(before.last(), left));
                    }
                    assert(new_row@ =~= joined(before, left).push(Thing::Cube));
                    assert(after.last() =~= Seq::<Thing>::empty());
                }
                round = 0;
                free = 0;
            },
            Thing::Sphere => {
                proof {
                    assert(after.drop_last() =~= before.drop_last());
                    assert(after.last().drop_last() =~= before.last());
                }
                round += 1;
            },
            Thing::Empty => {
                proof {
                    assert(after.drop_last() =~= before.drop_last());
                    assert(after.last().drop_last() =~= before.last());
                }
                free += 1;
            },
        }
        i += 1;
    }
    assert(row@.take(row.len() as int) =~= row@);
    proof {
        lemma_segments_len(row@);
    }
    extend_settled(&mut new_row, round, free, left);
    new_row
}

/// Tilts `platform` west, if `left` holds, or east, if it has a row.
pub fn try_tilt_horizontal(platform: &mut Vec<Vec<Thing>>, left: bool) -> (done: bool)
    ensures
        done <==> tilted_sideways(grid(old(platform)@), left) is Some,
        done ==> grid(final(platform)@) == tilted_sideways(grid(old(platform)@), left)->0,
        !done ==> final(platform)@ == old(platform)@,
{
    if platform.len() == 0 {
        return false;
    }
    let ghost rows = grid(platform@);
    let mut moved: Vec<Vec<Thing>> = Vec::new();
    let mut r: usize = 0;
    while r < platform.len()
        invariant
            r <= platform.len(),
            rows == grid(platform@),
            moved.len() == r,
            forall|i: int| 0 <= i < r ==> (#[trigger] moved[i])@ == tilted_row(rows[i], left),
        decreases platform.len() - r,
    {
        assert(rows[r as int] == platform[r as int]@);
        moved.push(tilt_row(&platform[r], left));
        r += 1;
    }
    assert(grid(moved@) =~= tilted_sideways(rows, left)->0);
    *platform = moved;
    true
}

/// Tilts `platform` west, if `left` holds, or east: between the square rocks
/// of each row, the round rocks roll to one end.
pub fn tilt_platform_horizontal(platform: &mut Vec<Vec<Thing>>, left: bool)
    requires
        tilted_sideways(grid(old(platform)@), left) is Some,
    ensures
        grid(final(platform)@) == tilted_sideways(grid(old(platform)@), left)->0,
{
    let done = try_tilt_horizontal(platform, left);
    assert(done);
}

/// Tilts `platform` north, if `up` holds, or south, if it can be turned and
/// has a column.
pub fn try_tilt_vertical(platform: &mut Vec<Vec<Thing>>, up: bool) -> (done: bool)
    ensures
        done <==> tilted_upright(grid(old(platform)@), up) is Some,
        done ==> grid(final(platform)@) == tilted_upright(grid(old(platform)@), up)->0,
{
    if !check_turn(platform) {
        return false;
    }
    rotate_platform(platform, true);
    if !try_tilt_horizontal(platform, up) {
        return false;
    }
    proof {
        let lying = grid(platform@);
        assert forall|r: int| 0 <= r < lying.len() implies (#[trigger] lying[r]).len()
            >= lying[0].len() by {
            lemma_tilted_row_len(turned(grid(old(platform)@))[r], up);
            lemma_tilted_row_len(turned(grid(old(platform)@))[0], up);
        }
    }
    rotate_platform(platform, false);
    true
}

/// Tilting a row keeps its length.
pub proof fn lemma_tilted_row_len(row: Seq<Thing>, left: bool)
    ensures
        tilted_row(row, left).len() == row.len(),
    decreases row.len(),
{
    lemma_joined_len(row, left);
}

/// The joined stretches of a row are as long as the row, and so are the
/// stretches themselves with the square rocks between them.
proof fn lemma_joined_len(row: Seq<Thing>, left: bool)
    ensures
        joined(segments(row), left).len() == row.len(),
        segments(row).len() >= 1,
        joined_front(segments(row), left).len() + segments(row).last().len() == row.len(),
    decreases row.len(),
{
    if row.len() > 0 {
        let before = segments(row.drop_last());
        let after = segments(row);
        lemma_joined_len(row.drop_last(), left);
        lemma_spheres_bound(after.last());
        lemma_spheres_bound(before.last());
        if row.last() == Thing::Cube {
            assert(after.drop_last() =~= before);
        } else {
            assert(after.drop_last() =~= before.drop_last());
        }
    } else {
        lemma_spheres_bound(Seq::<Thing>::empty());
    }
}

/// A stretch holds no more round rocks than places.
pub proof fn lemma_spheres_bound(row: Seq<Thing>)
    ensures
        spheres_in(row) <= row.len(),
    decreases row.len(),
{
    if row.len() > 0 {
        lemma_spheres_bound(row.drop_last());
    }
}

/// Tilts `platform` north, if `up` holds, or south.
pub fn tilt_platform_vertical(platform: &mut Vec<Vec<Thing>>, up: bool)
    requires
        tilted_upright(grid(old(platform)@), up) is Some,
    ensures
        grid(final(platform)@) == tilted_upright(grid(old(platform)@), up)->0,
{
    let done = try_tilt_vertical(platform, up);
    assert(done);
}

/// Tilts `platform` in the direction `direction`, if it is one and the
/// platform can be tilted that way.
pub fn try_tilt_generic(platform: &mut Vec<Vec<Thing>>, direction: usize) -> (done: bool)
    ensures
        done <==> tilted_to(grid(old(platform)@), direction) is Some,
        done ==> grid(final(platform)@) == tilted_to(grid(old(platform)@), direction)->0,
{
    match direction {
        0 => try_tilt_vertical(platform, true),
        1 => try_tilt_horizontal(platform, true),
        2 => try_tilt_vertical(platform, false),
        3 => try_tilt_horizontal(platform, false),
        _ => false,
    }
}

/// Tilts `platform` in the direction `direction`: 0 for north, 1 for west, 2
/// for south, and 3 for east.
pub fn tilt_platform_generic(platform: &mut Vec<Vec<Thing>>, direction: usize)
    requires
        tilted_to(grid(old(platform)@), direction) is Some,
    ensures
        grid(final(platform)@) == tilted_to(grid(old(platform)@), direction)->0,
{
    let done = try_tilt_generic(platform, direction);
    assert(done);
}

/// Runs one cycle on `platform`, if it can be tilted in all four directions.
pub fn try_cycle(platform: &mut Vec<Vec<Thing>>) -> (done: bool)
    ensures
        done <==> cycled(grid(old(platform)@)) is Some,
        done ==> grid(final(platform)@) == cycled(grid(old(platform)@))->0,
{
    let ghost start = grid(platform@);
    let mut i: usize = 0;
    while i < 4
        invariant
            i <= 4,
            start == grid(old(platform)@),
            cycled_upto(start, i as int) == Some(grid(platform@)),
        decreases 4 - i,
    {
        if !try_tilt_generic(platform, i) {
            assert(cycled_upto(start, i + 1) is None);
            proof {
                lemma_cycled_upto_start(start, i + 1, 4);
            }
            return false;
        }
        i += 1;
    }
    true
}

/// Where the first `k` tilts of a cycle cannot be done, neither can the first
/// `n`.
pub proof fn lemma_cycled_upto_start(rows: Seq<Seq<Thing>>, k: int, n: int)
    requires
        0 <= k <= n,
        cycled_upto(rows, k) is None,
    ensures
        cycled_upto(rows, n) is None,
    decreases n - k,
{
    if k < n {
        lemma_cycled_upto_start(rows, k, n - 1);
    }
}

/// Runs one cycle on `platform`: it is tilted north, west, south and east.
pub fn run_cycle(platform: &mut Vec<Vec<Thing>>)
    requires
        cycled(grid(old(platform)@)) is Some,
    ensures
        grid(final(platform)@) == cycled(grid(old(platform)@))->0,
{
    let done = try_cycle(platform);
    assert(done);
}

/// The contents of a list of noted rows of loads.
pub open spec fn seen_views(seen: Seq<(Vec<usize>, usize)>) -> Seq<(Seq<usize>, usize)> {
    Seq::new(seen.len(), |i: int| (seen[i].0@, seen[i].1))
}

/// Whether two rows of loads are the same.
fn same_loads(a: &Vec<usize>, b: &Vec<usize>) -> (same: bool)
    ensures
        same == (a@ == b@),
{
    if a.len() != b.len() {
        return false;
    }
    let mut i: usize = 0;
    while i < a.len()
        invariant
            i <= a.len(),
            a.len() == b.len(),
            forall|k: int| 0 <= k < i ==> a@[k] == b@[k],
        decreases a.len() - i,
    {
        if a[i] != b[i] {
            return false;
        }
        i += 1;
    }
    assert(a@ =~= b@);
    true
}

/// Looks `sequence` up among the noted rows of loads.
fn look_up(seen: &Vec<(Vec<usize>, usize)>, sequence: &Vec<usize>) -> (found: Option<usize>)
    ensures
        found == noted(seen_views(seen@), sequence@, 0),
        found is Some ==> exists|k: int| 0 <= k < seen.len() && (#[trigger] seen[k]).1 == found->0,
{
    let mut k: usize = 0;
    while k < seen.len()
        invariant
            k <= seen.len(),
            noted(seen_views(seen@), sequence@, 0) == noted(
                seen_views(seen@),
                sequence@,
                k as int,
            ),
        decreases seen.len() - k,
    {
        assert(seen_views(seen@)[k as int] == (seen[k as int].0@, seen[k as int].1));
        if same_loads(&seen[k].0, sequence) {
            return Some(seen[k].1);
        }
        k += 1;
    }
    None
}

/// A row of loads like `loads`.
fn copy_loads(loads: &Vec<usize>) -> (copy: Vec<usize>)
    ensures
        copy@ == loads@,
{
    let mut copy: Vec<usize> = Vec::new();
    let mut i: usize = 0;
    while i < loads.len()
        invariant
            i <= loads.len(),
            copy@ == loads@.take(i as int),
        decreases loads.len() - i,
    {
        copy.push(loads[i]);
        assert(copy@ =~= loads@.take(i + 1));
        i += 1;
    }
    assert(loads@.take(loads.len() as int) =~= loads@);
    copy
}

/// Computes the answer to the puzzle `input`, if it has one.
#[verifier::loop_isolation(false)]
pub fn solve(input: &Vec<char>) -> (found: Option<usize>)
    ensures
        found == answer(input@),
{
    let endpoint: usize = 1000000000;
    let all = lines_of(input);
    let mut platform = match read_platform(&all) {
        Some(p) => p,
        None => {
            return None;
        },
    };
    // From looking at the data, a cycle of this length appears.
    let cycle_length: usize = 7;
    let mut seen_sequences: Vec<(Vec<usize>, usize)> = Vec::new();
    let mut buffer: Vec<usize> = Vec::new();
    let mut iteration: usize = 0;
    assert(seen_views(seen_sequences@) =~= Seq::<(Seq<usize>, usize)>::empty());
    assert(buffer@ =~= Seq::<usize>::empty());
    while iteration < endpoint
        invariant
            iteration <= endpoint,
            buffer.len() < cycle_length,
            forall|k: int| 0 <= k < seen_sequences.len() ==> (#[trigger] seen_sequences[k]).1
                < iteration,
            answer(input@) == search(
                grid(platform@),
                buffer@,
                seen_views(seen_sequences@),
                iteration as int,
            ),
        decreases endpoint - iteration,
    {
        if !try_cycle(&mut platform) {
            return None;
        }
        let weight = match checked_load(platform.as_slice()) {
            Some(v) => v,
            None => {
                return None;
            },
        };
        buffer.push(weight);
        if buffer.len() == cycle_length {
            match look_up(&seen_sequences, &buffer) {
                Some(start) => {
                    let sequence_index: usize = (endpoint - start - 2) % cycle_length;
                    return Some(buffer[sequence_index]);
                },
                None => {
                    let ghost before = seen_views(seen_sequences@);
                    let ghost sequence = buffer@;
                    seen_sequences.push((copy_loads(&buffer), iteration));
                    assert(seen_views(seen_sequences@) =~= before.push((sequence, iteration)));
                    buffer.remove(0);
                    assert(buffer@ =~= sequence.drop_first());
                },
            }
        }
        iteration += 1;
    }
    None
}

/// The answer to the puzzle `input`, in decimal digits.
pub fn process(input: &str) -> (out: String)
    requires
        answer(input@) is Some,
    ensures
        out@ == decimal(answer(input@)->0 as nat),
{
    let chars = chars_of(input);
    decimal_string(solve(&chars).unwrap() as u64)
}

} // verus!
