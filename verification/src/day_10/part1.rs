use vstd::prelude::*;
use crate::text::{chars_of, decimal, decimal_string, lines, lines_of, views};

verus! {

/// The first place of an `S` in the first `k` characters of `row`.
pub open spec fn start_in_row(row: Seq<char>, k: int) -> Option<int>
    decreases k,
{
    if k <= 0 {
        None
    } else {
        match start_in_row(row, k - 1) {
            Some(j) => Some(j),
            None => if row[k - 1] == 'S' {
                Some(k - 1)
            } else {
                None
            },
        }
    }
}

/// The place of the start among the first `n` rows of `rows`: the first row
/// that holds an `S`, and the first `S` in that row.
pub open spec fn start_of(rows: Seq<Seq<char>>, n: int) -> Option<(usize, usize)>
    decreases n,
{
    if n <= 0 {
        None
    } else {
        match start_of(rows, n - 1) {
            Some(place) => Some(place),
            None => match start_in_row(rows[n - 1], rows[n - 1].len() as int) {
                Some(j) => Some(((n - 1) as usize, j as usize)),
                None => None,
            },
        }
    }
}

/// The direction of the neighbour `d`: row and column of the step to the
/// neighbour above, to the right, to the left and below, in this order.
pub open spec fn step_of(d: int) -> (int, int) {
    if d == 0 {
        (-1, 0)
    } else if d == 1 {
        (0, 1)
    } else if d == 2 {
        (0, -1)
    } else {
        (1, 0)
    }
}

/// Whether the pipe `c` of the neighbour `d` leads back to the place it is a
/// neighbour of: the neighbour above must open downwards, the one to the
/// right to the left, the one to the left to the right, and the one below
/// upwards.
pub open spec fn leads_back(c: char, d: int) -> bool {
    if d == 0 {
        c == '|' || c == '7' || c == 'F'
    } else if d == 1 {
        c == '-' || c == '7' || c == 'J'
    } else if d == 2 {
        c == '-' || c == 'F' || c == 'L'
    } else {
        c == '|' || c == 'L' || c == 'J'
    }
}

/// The neighbours of the place in row `y` and column `x` of `rows` among its
/// first `d` neighbours that lie within the rows of `rows` and the columns of
/// its first row and hold a pipe that leads back. There are none if such a
/// neighbour lies behind the end of its row.
pub open spec fn touching_among(rows: Seq<Seq<char>>, y: int, x: int, d: int) -> Option<
    Seq<(usize, usize)>,
>
    decreases d,
{
    if d <= 0 {
        Some(Seq::empty())
    } else {
        match touching_among(rows, y, x, d - 1) {
            Some(found) => {
                let yd = y + step_of(d - 1).0;
                let xd = x + step_of(d - 1).1;
                if 0 <= yd < rows.len() && 0 <= xd < rows[0].len() {
                    if xd >= rows[yd].len() {
                        None
                    } else if leads_back(rows[yd][xd], d - 1) {
                        Some(found.push((yd as usize, xd as usize)))
                    } else {
                        Some(found)
                    }
                } else {
                    Some(found)
                }
            },
            None => None,
        }
    }
}

/// Whether the neighbours of the place in row `y` and column `x` can be looked
/// for in `rows`: there is a row, and the numbers of the rows, of the columns
/// of the first row, of `y` and of `x` and of the rows and columns next to
/// them fit in 32 bits.
pub open spec fn can_look(rows: Seq<Seq<char>>, y: int, x: int) -> bool {
    0 < rows.len() <= i32::MAX && rows[0].len() <= i32::MAX && 0 <= y < i32::MAX && 0 <= x
        < i32::MAX
}

/// The neighbours of the place in row `y` and column `x` of `rows` that lead
/// back to it: above, to the right, to the left and below, in this order.
pub open spec fn touching(rows: Seq<Seq<char>>, y: int, x: int) -> Option<Seq<(usize, usize)>> {
    if can_look(rows, y, x) {
        touching_among(rows, y, x, 4)
    } else {
        None
    }
}

/// The number of places among the first `k` of `row` that have no distance.
pub open spec fn open_in_row(row: Seq<Option<i32>>, k: int) -> nat
    decreases k,
{
    if k <= 0 {
        0
    } else {
        open_in_row(row, k - 1) + (if row[k - 1] is None {
            1nat
        } else {
            0nat
        })
    }
}

/// The number of places in the first `n` rows of `dists` that have no
/// distance.
pub open spec fn open_places(dists: Seq<Seq<Option<i32>>>, n: int) -> nat
    decreases n,
{
    if n <= 0 {
        0
    } else {
        open_places(dists, n - 1) + open_in_row(dists[n - 1], dists[n - 1].len() as int)
    }
}

/// `dists` with the distance `dist` at row `y` and column `x`.
pub open spec fn marked(dists: Seq<Seq<Option<i32>>>, y: int, x: int, dist: i32) -> Seq<
    Seq<Option<i32>>,
> {
    dists.update(y, dists[y].update(x, Some(dist)))
}

/// The places `next`, each to be reached at the distance `dist`.
pub open spec fn at_distance(next: Seq<(usize, usize)>, dist: i32) -> Seq<(usize, usize, i32)> {
    Seq::new(next.len(), |i: int| (next[i].0, next[i].1, dist))
}

/// Giving a distance to one place of a row that had none leaves one place
/// less without a distance.
pub proof fn lemma_open_in_row(row: Seq<Option<i32>>, x: int, dist: i32, k: int)
    requires
        0 <= x < row.len(),
        row[x] is None,
        0 <= k <= row.len(),
    ensures
        open_in_row(row.update(x, Some(dist)), k) + (if x < k {
            1nat
        } else {
            0nat
        }) == open_in_row(row, k),
    decreases k,
{
    if k > 0 {
        lemma_open_in_row(row, x, dist, k - 1);
    }
}

/// Giving a distance to one place that had none leaves one place less without
/// a distance.
pub proof fn lemma_open_places(dists: Seq<Seq<Option<i32>>>, y: int, x: int, dist: i32, n: int)
    requires
        0 <= y < dists.len(),
        0 <= x < dists[y].len(),
        dists[y][x] is None,
        0 <= n <= dists.len(),
    ensures
        open_places(marked(dists, y, x, dist), n) + (if y < n {
            1nat
        } else {
            0nat
        }) == open_places(dists, n),
    decreases n,
{
    if n > 0 {
        lemma_open_places(dists, y, x, dist, n - 1);
        if y == n - 1 {
            lemma_open_in_row(dists[y], x, dist, dists[y].len() as int);
        }
    }
}

/// The greatest distance that the search gives to a place, from the state in
/// which `queue` holds the places still to be looked at, each with its row,
/// its column and its distance, `dists` the distances given so far, and `peak`
/// the greatest of them. The first place of the queue is taken. If it has a
/// distance already, it is passed over. If not, it is given its distance, and
/// its neighbours that lead back to it are put at the end of the queue with a
/// distance one greater. There is none if a place of the queue lies outside
/// `dists`, the neighbours of a place cannot be looked for, or a distance does
/// not fit in 32 bits.
pub open spec fn search(
    rows: Seq<Seq<char>>,
    queue: Seq<(usize, usize, i32)>,
    dists: Seq<Seq<Option<i32>>>,
    peak: i32,
) -> Option<i32>
    decreases open_places(dists, dists.len() as int), queue.len(),
{
    if queue.len() == 0 {
        Some(peak)
    } else {
        let y = queue[0].0 as int;
        let x = queue[0].1 as int;
        let dist = queue[0].2;
        let rest = queue.drop_first();
        if y >= dists.len() || x >= dists[y].len() {
            None
        } else if dists[y][x] is Some {
            search(rows, rest, dists, peak)
        } else {
            match touching(rows, y, x) {
                Some(next) => if next.len() > 0 && dist == i32::MAX {
                    None
                } else {
                    proof {
                        lemma_open_places(dists, y, x, dist, dists.len() as int);
                    }
                    search(
                        rows,
                        rest + at_distance(next, (dist + 1) as i32),
                        marked(dists, y, x, dist),
                        if dist > peak {
                            dist
                        } else {
                            peak
                        },
                    )
                },
                None => None,
            }
        }
    }
}

/// The distances of a map before the search: none for each place of as many
/// rows as `rows` has, each as wide as its first row.
pub open spec fn no_dists(rows: Seq<Seq<char>>) -> Seq<Seq<Option<i32>>> {
    Seq::new(rows.len(), |r: int| Seq::new(rows[0].len(), |c: int| None::<i32>))
}

/// The answer to the puzzle `input`: the greatest distance from the start to
/// a place of the loop. There is none if the map has no start or the search
/// cannot be done.
pub open spec fn answer(input: Seq<char>) -> Option<i32> {
    let rows = lines(input);
    match start_of(rows, rows.len() as int) {
        Some(start) => search(rows, seq![(start.0, start.1, 0i32)], no_dists(rows), 0),
        None => None,
    }
}

/// The contents of a list of distances.
pub open spec fn dist_views(dists: Seq<Vec<Option<i32>>>) -> Seq<Seq<Option<i32>>> {
    Seq::new(dists.len(), |i: int| dists[i]@)
}

/// Finds the place of the start of `map`.
#[verifier::loop_isolation(false)]
pub fn find_start(map: &[Vec<char>]) -> (found: Option<(usize, usize)>)
    ensures
        found == start_of(views(map@), map@.len() as int),
{
    let ghost rows = views(map@);
    let mut i: usize = 0;
    while i < map.len()
        invariant
            i <= map.len(),
            rows == views(map@),
            start_of(rows, i as int) is None,
        decreases map.len() - i,
    {
        let row = &map[i];
        assert(rows[i as int] == row@);
        let mut j: usize = 0;
        while j < row.len()
            invariant
                j <= row.len(),
                start_in_row(row@, j as int) is None,
            decreases row.len() - j,
        {
            if row[j] == 'S' {
                proof {
                    lemma_start_in_row_kept(row@, j + 1, row.len() as int);
                    lemma_start_kept(rows, i + 1, rows.len() as int);
                }
                return Some((i, j));
            }
            j += 1;
        }
        i += 1;
    }
    None
}

/// A start found in the first `k` characters of a row is the first in the row.
pub proof fn lemma_start_in_row_kept(row: Seq<char>, k: int, n: int)
    requires
        0 <= k <= n,
        start_in_row(row, k) is Some,
    ensures
        start_in_row(row, n) == start_in_row(row, k),
    decreases n - k,
{
    if k < n {
        lemma_start_in_row_kept(row, k, n - 1);
    }
}

/// A start found in the first `k` rows is the first of the map.
pub proof fn lemma_start_kept(rows: Seq<Seq<char>>, k: int, n: int)
    requires
        0 <= k <= n,
        start_of(rows, k) is Some,
    ensures
        start_of(rows, n) == start_of(rows, k),
    decreases n - k,
{
    if k < n {
        lemma_start_kept(rows, k, n - 1);
    }
}

/// Whether the pipe `c` of the neighbour `d` leads back.
fn check_leads_back(c: char, d: usize) -> (b: bool)
    ensures
        b == leads_back(c, d as int),
{
    if d == 0 {
        c == '|' || c == '7' || c == 'F'
    } else if d == 1 {
        c == '-' || c == '7' || c == 'J'
    } else if d == 2 {
        c == '-' || c == 'F' || c == 'L'
    } else {
        c == '|' || c == 'L' || c == 'J'
    }
}

/// Looks for the neighbours of the place in row `y` and column `x` of `map`
/// that lead back to it, if they can be looked for.
pub fn find_touching(map: &[Vec<char>], y: usize, x: usize) -> (found: Option<Vec<(usize, usize)>>)
    ensures
        found is Some <==> touching(views(map@), y as int, x as int) is Some,
        found is Some ==> found->0@ == touching(views(map@), y as int, x as int)->0,
        found is Some ==> found->0.len() <= 4,
{
    let ghost rows = views(map@);
    if map.len() == 0 {
        return None;
    }
    assert(rows[0] == map[0]@);
    let limit: u64 = 0x7FFF_FFFF;
    if map.len() as u64 > limit || map[0].len() as u64 > limit || y as u64 >= limit || x as u64
        >= limit {
        return None;
    }
    let x_0: i32 = x as i32;
    let y_0: i32 = y as i32;
    let x_max: i32 = map[0].len() as i32;
    let y_max: i32 = map.len() as i32;
    let mut found: Vec<(usize, usize)> = Vec::new();
    let mut d: usize = 0;
    while d < 4
        invariant
            d <= 4,
            rows == views(map@),
            can_look(rows, y as int, x as int),
            x_0 == x,
            y_0 == y,
            x_max == rows[0].len(),
            y_max == rows.len(),
            found.len() <= d,
            touching_among(rows, y as int, x as int, d as int) == Some(found@),
        decreases 4 - d,
    {
        let (dy, dx): (i32, i32) = if d == 0 {
            (-1, 0)
        } else if d == 1 {
            (0, 1)
        } else if d == 2 {
            (0, -1)
        } else {
            (1, 0)
        };
        let yd: i32 = y_0 + dy;
        let xd: i32 = x_0 + dx;
        if yd >= 0 && yd < y_max && xd >= 0 && xd < x_max {
            let row = &map[yd as usize];
            assert(rows[yd as int] == row@);
            if xd as usize >= row.len() {
                proof {
                    lemma_touching_fails(rows, y as int, x as int, d + 1);
                }
                return None;
            }
            if check_leads_back(row[xd as usize], d) {
                found.push((yd as usize, xd as usize));
            }
        }
        d += 1;
    }
    Some(found)
}

/// Where the first `d` neighbours cannot be looked for, neither can all four.
pub proof fn lemma_touching_fails(rows: Seq<Seq<char>>, y: int, x: int, d: int)
    requires
        0 <= d <= 4,
        touching_among(rows, y, x, d) is None,
    ensures
        touching_among(rows, y, x, 4) is None,
    decreases 4 - d,
{
    if d < 4 {
        lemma_touching_fails(rows, y, x, d + 1);
    }
}

/// The neighbours of the place in row `y` and column `x` of `map` that lead
/// back to it: above, to the right, to the left and below, in this order.
pub fn get_touching_pipes(map: &[Vec<char>], y: usize, x: usize) -> (found: Vec<(usize, usize)>)
    requires
        touching(views(map@), y as int, x as int) is Some,
    ensures
        found@ == touching(views(map@), y as int, x as int)->0,
{
    find_touching(map, y, x).unwrap()
}

/// Computes the answer to the puzzle `input`, if it has one.
#[verifier::loop_isolation(false)]
pub fn solve(input: &Vec<char>) -> (found: Option<i32>)
    ensures
        found == answer(input@),
        found is Some ==> found->0 >= 0,
{
    let map = lines_of(input);
    let ghost rows = views(map@);
    let start = match find_start(map.as_slice()) {
        Some(s) => s,
        None => {
            return None;
        },
    };
    assert(map.len() > 0);
    assert(rows[0] == map[0]@);
    let width: usize = map[0].len();
    let mut dists: Vec<Vec<Option<i32>>> = Vec::new();
    while dists.len() < map.len()
        invariant
            dists.len() <= map.len(),
            forall|r: int| 0 <= r < dists.len() ==> (#[trigger] dists[r])@ == no_dists(rows)[r],
        decreases map.len() - dists.len(),
    {
        let mut row: Vec<Option<i32>> = Vec::new();
        while row.len() < width
            invariant
                row.len() <= width,
                forall|c: int| 0 <= c < row.len() ==> (#[trigger] row[c]) is None,
            decreases width - row.len(),
        {
            row.push(None);
        }
        assert(row@ =~= no_dists(rows)[dists.len() as int]);
        dists.push(row);
    }
    assert(dist_views(dists@) =~= no_dists(rows));

    let mut stack: Vec<(usize, usize, i32)> = Vec::new();
    stack.push((start.0, start.1, 0));
    assert(stack@ =~= seq![(start.0, start.1, 0i32)]);
    let mut peak_distance: i32 = 0;
    let mut head: usize = 0;
    while head < stack.len()
        invariant
            head <= stack.len(),
            peak_distance >= 0,
            answer(input@) == search(
                rows,
                stack@.skip(head as int),
                dist_views(dists@),
                peak_distance,
            ),
        decreases open_places(dist_views(dists@), dists.len() as int), stack.len() - head,
    {
        let (y, x, dist) = stack[head];
        let ghost queue = stack@.skip(head as int);
        let ghost before = dist_views(dists@);
        assert(queue[0] == stack@[head as int]);
        assert(queue.drop_first() =~= stack@.skip(head + 1));
        head += 1;
        if y >= dists.len() {
            return None;
        }
        assert(before[y as int] == dists[y as int]@);
        if x >= dists[y].len() {
            return None;
        }
        if dists[y][x].is_some() {
            continue ;
        }
        let next_points = match find_touching(map.as_slice(), y, x) {
            Some(v) => v,
            None => {
                return None;
            },
        };
        if next_points.len() > 0 && dist == i32::MAX {
            return None;
        }
        if dist > peak_distance {
            peak_distance = dist;
        }
        dists[y][x] = Some(dist);
        proof {
            assert(dist_views(dists@) =~= marked(before, y as int, x as int, dist));
            lemma_open_places(before, y as int, x as int, dist, before.len() as int);
        }
        let ghost rest = stack@.skip(head as int);
        let mut k: usize = 0;
        while k < next_points.len()
            invariant
                k <= next_points.len(),
                head <= stack.len(),
                next_points.len() > 0 ==> dist < i32::MAX,
                stack@.skip(head as int) == rest + at_distance(
                    next_points@.take(k as int),
                    (dist + 1) as i32,
                ),
            decreases next_points.len() - k,
        {
            let p = next_points[k];
            let ghost waiting = stack@.skip(head as int);
            stack.push((p.0, p.1, dist + 1));
            assert(stack@.skip(head as int) =~= waiting.push((p.0, p.1, (dist + 1) as i32)));
            assert(at_distance(next_points@.take(k + 1), (dist + 1) as i32) =~= at_distance(
                next_points@.take(k as int),
                (dist + 1) as i32,
            ).push((p.0, p.1, (dist + 1) as i32)));
            assert(stack@.skip(head as int) =~= rest + at_distance(
                next_points@.take(k + 1),
                (dist + 1) as i32,
            ));
            k += 1;
        }
        assert(next_points@.take(next_points.len() as int) =~= next_points@);
    }
    assert(stack@.skip(head as int) =~= Seq::<(usize, usize, i32)>::empty());
    Some(peak_distance)
}

/// The answer to the puzzle `input`, in decimal digits.
pub fn process(input: &str) -> (out: String)
    requires
        answer(input@) is Some,
    ensures
        out@ == decimal(answer(input@)->0 as nat),
{
    let chars = chars_of(input);
    decimal_string(solve(&chars).unwrap() as u64)
}

} // verus!
