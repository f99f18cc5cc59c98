use vstd::prelude::*;
use crate::text::{chars_of, decimal, decimal_string, lines, lines_of, views};

verus! {

/// The direction in which a beam travels.
#[derive(Debug, PartialEq, Eq, Clone, Copy, Hash, Structural)]
pub enum Direction {
    Up,
    Down,
    Left,
    Right,
}

/// A beam at one place: the column and the row of the place, and the
/// direction of the beam.
#[derive(Debug, PartialEq, Eq, Hash, Copy, Clone, Structural)]
pub struct Tile {
    pub x: i32,
    pub y: i32,
    pub direction: Direction,
}

/// The places of a beam.
#[derive(Debug)]
pub struct Beam {
    pub beam: Vec<Tile>,
}

/// Whether a beam at `point`, a column and a row, that travels in the
/// direction `direction` has a next place in a grid of `grid_size.0` rows and
/// `grid_size.1` columns.
pub open spec fn next_in_grid(point: (i32, i32), direction: Direction, grid_size: (usize, usize))
    -> bool {
    match direction {
        Direction::Up => point.1 > 0,
        Direction::Down => point.1 < grid_size.0 - 1,
        Direction::Left => point.0 > 0,
        Direction::Right => point.0 < grid_size.1 - 1,
    }
}

/// The place next to `tile` in its direction: its column and its row.
pub open spec fn next_point(tile: Tile) -> (int, int) {
    match tile.direction {
        Direction::Up => (tile.x as int, tile.y - 1),
        Direction::Down => (tile.x as int, tile.y + 1),
        Direction::Left => (tile.x - 1, tile.y as int),
        Direction::Right => (tile.x + 1, tile.y as int),
    }
}

/// Whether `grid` has a place in column `x` of row `y`.
pub open spec fn has_place(grid: Seq<Seq<char>>, x: int, y: int) -> bool {
    0 <= y < grid.len() && 0 <= x < grid[y].len()
}

/// The directions in which a beam that comes in the direction `from` leaves
/// a place that holds `c`: a splitter that it meets across sends it both
/// ways, a mirror turns it, and anything else lets it pass.
pub open spec fn leaving(c: char, from: Direction) -> Seq<Direction> {
    if c == '-' {
        if from == Direction::Down || from == Direction::Up {
            seq![Direction::Left, Direction::Right]
        } else {
            seq![from]
        }
    } else if c == '|' {
        if from == Direction::Left || from == Direction::Right {
            seq![Direction::Up, Direction::Down]
        } else {
            seq![from]
        }
    } else if c == '\\' {
        seq![
            match from {
                Direction::Up => Direction::Left,
                Direction::Down => Direction::Right,
                Direction::Left => Direction::Up,
                Direction::Right => Direction::Down,
            },
        ]
    } else if c == '/' {
        seq![
            match from {
                Direction::Up => Direction::Right,
                Direction::Down => Direction::Left,
                Direction::Left => Direction::Down,
                Direction::Right => Direction::Up,
            },
        ]
    } else {
        seq![from]
    }
}

/// The beams at the place in column `x` and row `y` in the directions
/// `directions`.
pub open spec fn beams_at(x: int, y: int, directions: Seq<Direction>) -> Seq<Tile> {
    Seq::new(directions.len(), |i: int| Tile { x: x as i32, y: y as i32, direction: directions[i] })
}

/// The beams that follow the beam `tile`: none if it has no next place in a
/// grid of the size `grid_size`, and else the beams that leave its next place.
/// The outer result is missing if `grid` does not have that place, or its
/// column or row does not fit in 32 bits.
pub open spec fn successors(grid: Seq<Seq<char>>, grid_size: (usize, usize), tile: Tile) -> Option<
    Seq<Tile>,
> {
    if !next_in_grid((tile.x, tile.y), tile.direction, grid_size) {
        Some(Seq::empty())
    } else {
        let (x, y) = next_point(tile);
        if has_place(grid, x, y) && x <= i32::MAX && y <= i32::MAX {
            Some(beams_at(x, y, leaving(grid[y][x], tile.direction)))
        } else {
            None
        }
    }
}

/// The number of a direction.
pub open spec fn direction_index(d: Direction) -> int {
    match d {
        Direction::Up => 0,
        Direction::Down => 1,
        Direction::Left => 2,
        Direction::Right => 3,
    }
}

/// Whether `flags` has a flag for each beam of `grid`: as many rows, and in
/// each row four flags for each place.
pub open spec fn shaped(grid: Seq<Seq<char>>, flags: Seq<Seq<bool>>) -> bool {
    flags.len() == grid.len() && forall|y: int|
        0 <= y < grid.len() ==> (#[trigger] flags[y]).len() == 4 * grid[y].len()
}

/// Whether the beam `tile` lies on a place of `grid`.
pub open spec fn on_grid(grid: Seq<Seq<char>>, tile: Tile) -> bool {
    has_place(grid, tile.x as int, tile.y as int)
}

/// Whether each of `tiles` lies on a place of `grid`.
pub open spec fn all_on_grid(grid: Seq<Seq<char>>, tiles: Seq<Tile>) -> bool {
    forall|i: int| 0 <= i < tiles.len() ==> on_grid(grid, #[trigger] tiles[i])
}

/// The flag of the beam `tile`.
pub open spec fn flag_of(flags: Seq<Seq<bool>>, tile: Tile) -> bool {
    flags[tile.y as int][4 * tile.x + direction_index(tile.direction)]
}

/// `flags` with the flag of the beam `tile` set.
pub open spec fn with_flag(flags: Seq<Seq<bool>>, tile: Tile) -> Seq<Seq<bool>> {
    flags.update(
        tile.y as int,
        flags[tile.y as int].update(4 * tile.x + direction_index(tile.direction), true),
    )
}

/// The number of flags among the first `k` of `row` that are not set.
pub open spec fn open_in_row(row: Seq<bool>, k: int) -> nat
    decreases k,
{
    if k <= 0 {
        0
    } else {
        open_in_row(row, k - 1) + (if row[k - 1] {
            0nat
        } else {
            1nat
        })
    }
}

/// The number of flags in the first `n` rows of `flags` that are not set.
pub open spec fn open_flags(flags: Seq<Seq<bool>>, n: int) -> nat
    decreases n,
{
    if n <= 0 {
        0
    } else {
        open_flags(flags, n - 1) + open_in_row(flags[n - 1], flags[n - 1].len() as int)
    }
}

/// Setting a flag of a row that was not set leaves one flag less not set.
pub proof fn lemma_open_in_row(row: Seq<bool>, x: int, k: int)
    requires
        0 <= x < row.len(),
        !row[x],
        0 <= k <= row.len(),
    ensures
        open_in_row(row.update(x, true), k) + (if x < k {
            1nat
        } else {
            0nat
        }) == open_in_row(row, k),
    decreases k,
{
    if k > 0 {
        lemma_open_in_row(row, x, k - 1);
    }
}

/// Setting a flag that was not set leaves one flag less not set.
pub proof fn lemma_open_flags(flags: Seq<Seq<bool>>, y: int, x: int, n: int)
    requires
        0 <= y < flags.len(),
        0 <= x < flags[y].len(),
        !flags[y][x],
        0 <= n <= flags.len(),
    ensures
        open_flags(flags.update(y, flags[y].update(x, true)), n) + (if y < n {
            1nat
        } else {
            0nat
        }) == open_flags(flags, n),
    decreases n,
{
    if n > 0 {
        lemma_open_flags(flags, y, x, n - 1);
        if y == n - 1 {
            lemma_open_in_row(flags[y], x, flags[y].len() as int);
        }
    }
}

/// The beams that follow a beam lie on places of the grid.
pub proof fn lemma_successors_on_grid(grid: Seq<Seq<char>>, grid_size: (usize, usize), tile: Tile)
    requires
        successors(grid, grid_size, tile) is Some,
    ensures
        all_on_grid(grid, successors(grid, grid_size, tile)->0),
{
    let next = successors(grid, grid_size, tile)->0;
    assert forall|i: int| 0 <= i < next.len() implies on_grid(grid, #[trigger] next[i]) by {}
}

/// The beams that the light passes through, in the order in which it comes to
/// them, from the state in which `queue` holds the beams still to be followed,
/// `flags` a set flag for each beam on the grid passed through so far, and
/// `seen` these beams. The first beam of the queue is taken. If its flag is
/// set, it is passed over. If not, its flag is set, it is put at the end of
/// `seen`, and the beams that follow it are put at the end of the queue.
/// There are none if a beam that is followed leads to a place that the grid
/// does not have.
pub open spec fn trace(
    grid: Seq<Seq<char>>,
    grid_size: (usize, usize),
    queue: Seq<Tile>,
    flags: Seq<Seq<bool>>,
    seen: Seq<Tile>,
) -> Option<Seq<Tile>>
    decreases open_flags(flags, flags.len() as int), queue.len(),
    when shaped(grid, flags) && all_on_grid(grid, queue)
{
    if queue.len() == 0 {
        Some(seen)
    } else {
        let tile = queue[0];
        let rest = queue.drop_first();
        if flag_of(flags, tile) {
            trace(grid, grid_size, rest, flags, seen)
        } else {
            match successors(grid, grid_size, tile) {
                Some(next) => {
                    proof {
                        lemma_trace_step(grid, grid_size, queue, flags);
                    }
                    trace(grid, grid_size, rest + next, with_flag(flags, tile), seen.push(tile))
                },
                None => None,
            }
        }
    }
}

/// One step of the light keeps its state well formed and sets one flag.
pub proof fn lemma_trace_step(
    grid: Seq<Seq<char>>,
    grid_size: (usize, usize),
    queue: Seq<Tile>,
    flags: Seq<Seq<bool>>,
)
    requires
        shaped(grid, flags),
        all_on_grid(grid, queue),
        queue.len() > 0,
    ensures
        all_on_grid(grid, queue.drop_first()),
        !flag_of(flags, queue[0]) ==> shaped(grid, with_flag(flags, queue[0])) && open_flags(
            with_flag(flags, queue[0]),
            flags.len() as int,
        ) < open_flags(flags, flags.len() as int),
        successors(grid, grid_size, queue[0]) is Some ==> all_on_grid(
            grid,
            queue.drop_first() + successors(grid, grid_size, queue[0])->0,
        ),
{
    let tile = queue[0];
    let rest = queue.drop_first();
    assert(on_grid(grid, tile));
    assert forall|i: int| 0 <= i < rest.len() implies on_grid(grid, #[trigger] rest[i]) by {
        assert(rest[i] == queue[i + 1]);
    }
    if !flag_of(flags, tile) {
        let x = 4 * tile.x + direction_index(tile.direction);
        assert(flags[tile.y as int].len() == 4 * grid[tile.y as int].len());
        lemma_open_flags(flags, tile.y as int, x, flags.len() as int);
        let after = with_flag(flags, tile);
        assert forall|y: int| 0 <= y < grid.len() implies (#[trigger] after[y]).len() == 4
            * grid[y].len() by {
            assert(flags[y].len() == 4 * grid[y].len());
        }
    }
    if successors(grid, grid_size, tile) is Some {
        let next = successors(grid, grid_size, tile)->0;
        lemma_successors_on_grid(grid, grid_size, tile);
        assert forall|i: int| 0 <= i < (rest + next).len() implies on_grid(
            grid,
            #[trigger] (rest + next)[i],
        ) by {
            if i < rest.len() {
                assert((rest + next)[i] == rest[i]);
            } else {
                assert((rest + next)[i] == next[i - rest.len()]);
            }
        }
    }
}

/// A flag for each beam of `grid`, none of them set.
pub open spec fn no_flags(grid: Seq<Seq<char>>) -> Seq<Seq<bool>> {
    Seq::new(grid.len(), |y: int| Seq::new((4 * grid[y].len()) as nat, |x: int| false))
}

/// The beams that light passes through when it starts as the beam `start`, in
/// the order in which it comes to them. The start need not lie on the grid.
/// There are none if a beam leads to a place that `grid` does not have.
pub open spec fn beam(grid: Seq<Seq<char>>, grid_size: (usize, usize), start: Tile) -> Option<
    Seq<Tile>,
> {
    if on_grid(grid, start) {
        trace(grid, grid_size, seq![start], no_flags(grid), Seq::empty())
    } else {
        match successors(grid, grid_size, start) {
            Some(next) => trace(grid, grid_size, next, no_flags(grid), seq![start]),
            None => None,
        }
    }
}

/// The number of different places among the places of `tiles`.
pub open spec fn point_count(tiles: Seq<Tile>) -> nat
    decreases tiles.len(),
{
    if tiles.len() == 0 {
        0
    } else {
        point_count(tiles.drop_last()) + (if has_point(
            tiles.drop_last(),
            tiles.last().x,
            tiles.last().y,
        ) {
            0nat
        } else {
            1nat
        })
    }
}

/// Whether one of `tiles` lies in column `x` and row `y`.
pub open spec fn has_point(tiles: Seq<Tile>, x: i32, y: i32) -> bool {
    exists|i: int| 0 <= i < tiles.len() && (#[trigger] tiles[i]).x == x && tiles[i].y == y
}

/// The size of `grid` as it is taken: the number of its rows, and the number
/// of columns of its first row.
pub open spec fn size_of(grid: Seq<Seq<char>>) -> (usize, usize) {
    (grid.len() as usize, grid[0].len() as usize)
}

/// The number of places that light which enters `grid` as the beam `start`
/// from outside passes through: the different places of its beams but the
/// start.
pub open spec fn energized(grid: Seq<Seq<char>>, start: Tile) -> Option<usize> {
    match beam(grid, size_of(grid), start) {
        Some(tiles) => Some((point_count(tiles) - 1) as usize),
        None => None,
    }
}

/// The answer to the puzzle `input`: the number of places that light passes
/// through which enters the first row from the left. There is none if the
/// grid has no row, is larger than 32 bits can count, or lacks a place that
/// the light comes to.
pub open spec fn answer(input: Seq<char>) -> Option<usize> {
    let grid = lines(input);
    if 0 < grid.len() <= i32::MAX && grid[0].len() <= i32::MAX {
        energized(grid, Tile { x: -1i32, y: 0, direction: Direction::Right })
    } else {
        None
    }
}


/// The contents of a list of rows of flags.
pub open spec fn flag_views(flags: Seq<Vec<bool>>) -> Seq<Seq<bool>> {
    Seq::new(flags.len(), |i: int| flags[i]@)
}

impl Beam {
    /// A beam of the places `beam`.
    pub fn new(beam: Vec<Tile>) -> (made: Beam)
        ensures
            made.beam@ == beam@,
    {
        Self { beam }
    }

    /// The different places of the beam, each with its column and its row, in
    /// the order in which the beam first comes to them.
    pub fn get_points(&self) -> (points: Vec<(i32, i32)>)
        ensures
            points.len() == point_count(self.beam@),
            forall|i: int|
                0 <= i < points.len() ==> has_point(
                    self.beam@,
                    (#[trigger] points[i]).0,
                    points[i].1,
                ),
            forall|i: int, j: int| 0 <= i < j < points.len() ==> points[i] != points[j],
    {
        let mut points: Vec<(i32, i32)> = Vec::new();
        let mut k: usize = 0;
        assert(self.beam@.take(0) =~= Seq::<Tile>::empty());
        while k < self.beam.len()
            invariant
                k <= self.beam.len(),
                points.len() == point_count(self.beam@.take(k as int)),
                forall|i: int|
                    0 <= i < points.len() ==> has_point(
                        self.beam@.take(k as int),
                        (#[trigger] points[i]).0,
                        points[i].1,
                    ),
                forall|x: i32, y: i32|
                    has_point(self.beam@.take(k as int), x, y) ==> exists|i: int|
                        0 <= i < points.len() && #[trigger] points[i] == (x, y),
                forall|i: int, j: int| 0 <= i < j < points.len() ==> points[i] != points[j],
            decreases self.beam.len() - k,
        {
            let tile = self.beam[k];
            let ghost before = self.beam@.take(k as int);
            let ghost after = self.beam@.take(k + 1);
            proof {
                assert(after.drop_last() =~= before);
                assert(after.last() == tile);
            }
            let mut known: bool = false;
            let mut i: usize = 0;
            while i < points.len()
                invariant
                    i <= points.len(),
                    known <==> exists|j: int|
                        0 <= j < i && #[trigger] points[j] == (tile.x, tile.y),
                decreases points.len() - i,
            {
                if points[i].0 == tile.x && points[i].1 == tile.y {
                    known = true;
                }
                i += 1;
            }
            proof {
                if known {
                    let j = choose|j: int| 0 <= j < points.len() && #[trigger] points[j] == (
                        tile.x,
                        tile.y,
                    );
                    assert(has_point(before, points[j].0, points[j].1));
                } else {
                    if has_point(before, tile.x, tile.y) {
                        let j = choose|j: int| 0 <= j < points.len() && #[trigger] points[j] == (
                            tile.x,
                            tile.y,
                        );
                        assert(false);
                    }
                }
                assert forall|x: i32, y: i32| has_point(before, x, y) implies has_point(
                    after,
                    x,
                    y,
                ) by {
                    let j = choose|j: int|
                        0 <= j < before.len() && (#[trigger] before[j]).x == x && before[j].y == y;
                    assert(after[j] == before[j]);
                }
                assert(has_point(after, tile.x, tile.y)) by {
                    assert(after[k as int].x == tile.x && after[k as int].y == tile.y);
                }
            }
            let ghost old_points = points@;
            if !known {
                points.push((tile.x, tile.y));
            }
            proof {
                assert forall|x: i32, y: i32| has_point(after, x, y) implies exists|i: int|
                    0 <= i < points.len() && #[trigger] points[i] == (x, y) by {
                    let j = choose|j: int|
                        0 <= j < after.len() && (#[trigger] after[j]).x == x && after[j].y == y;
                    if j < k {
                        assert(before[j] == after[j]);
                        assert(has_point(before, x, y));
                        let i = choose|i: int|
                            0 <= i < old_points.len() && #[trigger] old_points[i] == (x, y);
                        assert(points[i] == (x, y));
                    } else {
                        if known {
                            let i = choose|i: int|
                                0 <= i < old_points.len() && #[trigger] old_points[i] == (
                                    tile.x,
                                    tile.y,
                                );
                            assert(points[i] == (x, y));
                        } else {
                            assert(points[points.len() - 1] == (x, y));
                        }
                    }
                }
                assert forall|i: int| 0 <= i < points.len() implies has_point(
                    after,
                    (#[trigger] points[i]).0,
                    points[i].1,
                ) by {
                    if i < old_points.len() {
                        assert(points[i] == old_points[i]);
                        assert(has_point(before, old_points[i].0, old_points[i].1));
                    }
                }
            }
            k += 1;
        }
        assert(self.beam@.take(self.beam.len() as int) =~= self.beam@);
        points
    }

    /// Whether the beam holds `new_point`.
    pub fn is_overlap(&self, new_point: &Tile) -> (found: bool)
        ensures
            found == self.beam@.contains(*new_point),
    {
        let mut i: usize = 0;
        while i < self.beam.len()
            invariant
                i <= self.beam.len(),
                forall|k: int| 0 <= k < i ==> self.beam@[k] != *new_point,
            decreases self.beam.len() - i,
        {
            if self.beam[i] == *new_point {
                return true;
            }
            i += 1;
        }
        false
    }
}

/// Whether a beam at `point` that travels in the direction `direction` has a
/// next place in a grid of the size `grid_size`.
pub fn is_next_in_grid(point: (i32, i32), direction: Direction, grid_size: (usize, usize)) -> (b:
    bool)
    requires
        grid_size.0 <= i32::MAX,
        grid_size.1 <= i32::MAX,
    ensures
        b == next_in_grid(point, direction, grid_size),
{
    match direction {
        Direction::Up => point.1 > 0,
        Direction::Down => point.1 < grid_size.0 as i32 - 1,
        Direction::Left => point.0 > 0,
        Direction::Right => point.0 < grid_size.1 as i32 - 1,
    }
}

/// Whether `point`, a column and a row, lies in a grid of `grid_size.0` rows
/// and `grid_size.1` columns.
pub fn is_in_grid(point: (usize, usize), grid_size: (usize, usize)) -> (b: bool)
    ensures
        b == (point.0 < grid_size.1 && point.1 < grid_size.0),
{
    point.0 < grid_size.1 && point.1 < grid_size.0
}

/// Computes the beams that follow the beam `photon`, if the grid has the
/// place that it leads to.
fn follow(grid: &[Vec<char>], grid_size: (usize, usize), photon: Tile) -> (found: Option<Vec<Tile>>)
    requires
        grid_size.0 <= i32::MAX,
        grid_size.1 <= i32::MAX,
    ensures
        found is Some <==> successors(views(grid@), grid_size, photon) is Some,
        found is Some ==> found->0@ == successors(views(grid@), grid_size, photon)->0,
{
    let ghost rows = views(grid@);
    let mut next: Vec<Tile> = Vec::new();
    if !is_next_in_grid((photon.x, photon.y), photon.direction, grid_size) {
        return Some(next);
    }
    let next_point: (i32, i32) = match photon.direction {
        Direction::Up => (photon.x, photon.y - 1),
        Direction::Down => (photon.x, photon.y + 1),
        Direction::Left => (photon.x - 1, photon.y),
        Direction::Right => (photon.x + 1, photon.y),
    };
    let x: i32 = next_point.0;
    let y: i32 = next_point.1;
    if y < 0 || x < 0 || y as usize >= grid.len() {
        return None;
    }
    let row = &grid[y as usize];
    assert(rows[y as int] == row@);
    if x as usize >= row.len() {
        return None;
    }
    let c = row[x as usize];
    if c == '-' {
        match photon.direction {
            Direction::Down | Direction::Up => {
                next.push(Tile { x, y, direction: Direction::Left });
                next.push(Tile { x, y, direction: Direction::Right });
            },
            _ => {
                next.push(Tile { x, y, direction: photon.direction });
            },
        }
    } else if c == '|' {
        match photon.direction {
            Direction::Left | Direction::Right => {
                next.push(Tile { x, y, direction: Direction::Up });
                next.push(Tile { x, y, direction: Direction::Down });
            },
            _ => {
                next.push(Tile { x, y, direction: photon.direction });
            },
        }
    } else if c == '\\' {
        let direction = match photon.direction {
            Direction::Up => Direction::Left,
            Direction::Down => Direction::Right,
            Direction::Left => Direction::Up,
            Direction::Right => Direction::Down,
        };
        next.push(Tile { x, y, direction });
    } else if c == '/' {
        let direction = match photon.direction {
            Direction::Up => Direction::Right,
            Direction::Down => Direction::Left,
            Direction::Left => Direction::Down,
            Direction::Right => Direction::Up,
        };
        next.push(Tile { x, y, direction });
    } else {
        next.push(Tile { x, y, direction: photon.direction });
    }
    assert(next@ =~= beams_at(x as int, y as int, leaving(c, photon.direction)));
    Some(next)
}

/// A flag for each beam of `grid`, none of them set.
fn make_flags(grid: &[Vec<char>]) -> (flags: Vec<Vec<bool>>)
    ensures
        flag_views(flags@) == no_flags(views(grid@)),
{
    let ghost rows = views(grid@);
    let mut flags: Vec<Vec<bool>> = Vec::new();
    let mut y: usize = 0;
    while y < grid.len()
        invariant
            y <= grid.len(),
            rows == views(grid@),
            flags.len() == y,
            forall|i: int| 0 <= i < y ==> (#[trigger] flags[i])@ == no_flags(rows)[i],
        decreases grid.len() - y,
    {
        let width: usize = grid[y].len();
        assert(rows[y as int] == grid[y as int]@);
        let mut row: Vec<bool> = Vec::new();
        let mut x: usize = 0;
        while x < width
            invariant
                x <= width,
                row.len() == 4 * x,
                forall|i: int| 0 <= i < row.len() ==> !#[trigger] row[i],
            decreases width - x,
        {
            row.push(false);
            row.push(false);
            row.push(false);
            row.push(false);
            x += 1;
        }
        assert(row@ =~= no_flags(rows)[y as int]);
        flags.push(row);
        y += 1;
    }
    assert(flag_views(flags@) =~= no_flags(rows));
    flags
}

/// The number of the direction `d`.
fn index_of_direction(d: Direction) -> (i: usize)
    ensures
        i == direction_index(d),
{
    match d {
        Direction::Up => 0,
        Direction::Down => 1,
        Direction::Left => 2,
        Direction::Right => 3,
    }
}

/// Follows the light that starts as the beam in column `start_x` and row
/// `start_y` in the direction `start_dir`, if the grid has the places that it
/// comes to.
#[verifier::loop_isolation(false)]
pub fn try_beam(
    grid: &[Vec<char>],
    grid_size: (usize, usize),
    start_x: i32,
    start_y: i32,
    start_dir: Direction,
) -> (found: Option<Vec<Tile>>)
    requires
        grid_size.0 <= i32::MAX,
        grid_size.1 <= i32::MAX,
    ensures
        found is Some <==> beam(
            views(grid@),
            grid_size,
            Tile { x: start_x, y: start_y, direction: start_dir },
        ) is Some,
        found is Some ==> found->0@ == beam(
            views(grid@),
            grid_size,
            Tile { x: start_x, y: start_y, direction: start_dir },
        )->0,
        found is Some ==> found->0.len() >= 1,
{
    let ghost rows = views(grid@);
    let start = Tile { x: start_x, y: start_y, direction: start_dir };
    let mut flags = make_flags(grid);
    let mut seen_points: Vec<Tile> = Vec::new();
    let mut photons: Vec<Tile> = Vec::new();
    let mut inside: bool = false;
    if start_y >= 0 && start_x >= 0 && (start_y as usize) < grid.len() {
        assert(rows[start_y as int] == grid[start_y as int]@);
        if (start_x as usize) < grid[start_y as usize].len() {
            inside = true;
        }
    }
    assert(inside == on_grid(rows, start));
    if inside {
        photons.push(start);
        assert(photons@ =~= seq![start]);
    } else {
        match follow(grid, grid_size, start) {
            Some(next) => {
                proof {
                    lemma_successors_on_grid(rows, grid_size, start);
                }
                photons = next;
                seen_points.push(start);
                assert(seen_points@ =~= seq![start]);
            },
            None => {
                return None;
            },
        }
    }
    proof {
        assert forall|y: int| 0 <= y < rows.len() implies (#[trigger] flag_views(flags@)[y]).len()
            == 4 * rows[y].len() by {}
        assert(photons@.skip(0) =~= photons@);
        assert forall|y: int, x: int|
            0 <= y < flags.len() && 0 <= x < flags[y].len() implies !#[trigger] flags[y][x] by {
            assert(flag_views(flags@)[y] == flags[y]@);
        }
    }
    let ghost goal = beam(rows, grid_size, start);
    let mut head: usize = 0;
    while head < photons.len()
        invariant
            head <= photons.len(),
            flags.len() == grid.len(),
            shaped(rows, flag_views(flags@)),
            all_on_grid(rows, photons@.skip(head as int)),
            seen_points.len() >= 1 || (head == 0 && photons.len() >= 1),
            seen_points.len() == 0 ==> forall|y: int, x: int|
                0 <= y < flags.len() && 0 <= x < flags[y].len() ==> !#[trigger] flags[y][x],
            goal == trace(
                rows,
                grid_size,
                photons@.skip(head as int),
                flag_views(flags@),
                seen_points@,
            ),
        decreases open_flags(flag_views(flags@), flags.len() as int), photons.len() - head,
    {
        let photon = photons[head];
        let ghost queue = photons@.skip(head as int);
        let ghost before = flag_views(flags@);
        proof {
            assert(queue[0] == photon);
            assert(queue.drop_first() =~= photons@.skip(head + 1));
            assert(on_grid(rows, photon));
            assert(before[photon.y as int] == flags[photon.y as int]@);
            assert(before[photon.y as int].len() == 4 * rows[photon.y as int].len());
            lemma_trace_step(rows, grid_size, queue, before);
        }
        head += 1;
        let y: usize = photon.y as usize;
        assert(4 * photon.x + 3 < flags[y as int].len());
        let place: usize = 4 * (photon.x as usize) + index_of_direction(photon.direction);
        if flags[y][place] {
            continue ;
        }
        let next = match follow(grid, grid_size, photon) {
            Some(v) => v,
            None => {
                return None;
            },
        };
        flags[y][place] = true;
        assert(flag_views(flags@) =~= with_flag(before, photon));
        seen_points.push(photon);
        let ghost rest = photons@.skip(head as int);
        let mut k: usize = 0;
        while k < next.len()
            invariant
                k <= next.len(),
                head <= photons.len(),
                photons@.skip(head as int) == rest + next@.take(k as int),
            decreases next.len() - k,
        {
            let ghost waiting = photons@.skip(head as int);
            photons.push(next[k]);
            assert(photons@.skip(head as int) =~= waiting.push(next@[k as int]));
            assert(next@.take(k + 1) =~= next@.take(k as int).push(next@[k as int]));
            assert(photons@.skip(head as int) =~= rest + next@.take(k + 1));
            k += 1;
        }
        assert(next@.take(next.len() as int) =~= next@);
    }
    assert(photons@.skip(head as int) =~= Seq::<Tile>::empty());
    Some(seen_points)
}

/// The beams that light passes through which starts as the beam in column
/// `start_x` and row `start_y` in the direction `start_dir`, in the order in
/// which it comes to them.
pub fn calculate_beam(
    grid: &[Vec<char>],
    grid_size: (usize, usize),
    start_x: i32,
    start_y: i32,
    start_dir: Direction,
) -> (seen_points: Vec<Tile>)
    requires
        grid_size.0 <= i32::MAX,
        grid_size.1 <= i32::MAX,
        beam(
            views(grid@),
            grid_size,
            Tile { x: start_x, y: start_y, direction: start_dir },
        ) is Some,
    ensures
        seen_points@ == beam(
            views(grid@),
            grid_size,
            Tile { x: start_x, y: start_y, direction: start_dir },
        )->0,
{
    try_beam(grid, grid_size, start_x, start_y, start_dir).unwrap()
}

/// Whether one of the first `k` of `tiles` lies in column `x` and row `y`.
fn find_point(tiles: &Vec<Tile>, k: usize, x: i32, y: i32) -> (found: bool)
    requires
        k <= tiles.len(),
    ensures
        found == has_point(tiles@.take(k as int), x, y),
{
    let ghost front = tiles@.take(k as int);
    let mut i: usize = 0;
    while i < k
        invariant
            i <= k <= tiles.len(),
            front == tiles@.take(k as int),
            forall|j: int| 0 <= j < i ==> !((#[trigger] front[j]).x == x && front[j].y == y),
        decreases k - i,
    {
        assert(front[i as int] == tiles@[i as int]);
        if tiles[i].x == x && tiles[i].y == y {
            return true;
        }
        i += 1;
    }
    false
}

/// A place lies among the first `k + 1` beams if it lies among the first `k`
/// or is the place of the beam after them.
pub proof fn lemma_has_point_step(tiles: Seq<Tile>, k: int, x: i32, y: i32)
    requires
        0 <= k < tiles.len(),
    ensures
        has_point(tiles.take(k + 1), x, y) <==> has_point(tiles.take(k), x, y) || (tiles[k].x == x
            && tiles[k].y == y),
{
    let before = tiles.take(k);
    let after = tiles.take(k + 1);
    if has_point(after, x, y) {
        let i = choose|i: int|
            0 <= i < after.len() && (#[trigger] after[i]).x == x && after[i].y == y;
        if i < k {
            assert(before[i] == after[i]);
        }
    }
    if has_point(before, x, y) {
        let i = choose|i: int|
            0 <= i < before.len() && (#[trigger] before[i]).x == x && before[i].y == y;
        assert(after[i] == before[i]);
    }
    if tiles[k].x == x && tiles[k].y == y {
        assert(after[k].x == x && after[k].y == y);
    }
}

/// Counts the different places of `tiles` by looking each up among the beams
/// before it.
fn count_by_search(tiles: &Vec<Tile>) -> (count: usize)
    ensures
        count == point_count(tiles@),
{
    let mut count: usize = 0;
    let mut k: usize = 0;
    assert(tiles@.take(0) =~= Seq::<Tile>::empty());
    while k < tiles.len()
        invariant
            k <= tiles.len(),
            count == point_count(tiles@.take(k as int)),
            count <= k,
        decreases tiles.len() - k,
    {
        proof {
            assert(tiles@.take(k + 1).drop_last() =~= tiles@.take(k as int));
            assert(tiles@.take(k + 1).last() == tiles@[k as int]);
        }
        if !find_point(tiles, k, tiles[k].x, tiles[k].y) {
            count += 1;
        }
        k += 1;
    }
    assert(tiles@.take(tiles.len() as int) =~= tiles@);
    count
}

/// Whether one of `tiles` lies `c` columns behind column `min_x` and `r` rows
/// below row `min_y`.
pub open spec fn has_point_at(tiles: Seq<Tile>, min_x: i32, min_y: i32, r: int, c: int) -> bool {
    has_point(tiles, (min_x + c) as i32, (min_y + r) as i32)
}

/// Counts the different places of `tiles`, all of which lie in the columns
/// from `min_x` and the rows from `min_y` on, by marking each place on a map
/// of `height` rows and `width` columns.
fn count_by_marks(tiles: &Vec<Tile>, min_x: i32, min_y: i32, width: u64, height: u64) -> (count:
    usize)
    requires
        min_x + width - 1 <= i32::MAX,
        min_y + height - 1 <= i32::MAX,
        forall|i: int|
            0 <= i < tiles.len() ==> min_x <= (#[trigger] tiles[i]).x < min_x + width && min_y
                <= tiles[i].y < min_y + height,
    ensures
        count == point_count(tiles@),
{
    let mut marks: Vec<Vec<bool>> = Vec::new();
    while (marks.len() as u64) < height
        invariant
            marks.len() <= height,
            forall|r: int| 0 <= r < marks.len() ==> (#[trigger] marks[r]).len() == width,
            forall|r: int, c: int|
                0 <= r < marks.len() && 0 <= c < width ==> !(#[trigger] marks[r][c]),
        decreases height - marks.len(),
    {
        let mut row: Vec<bool> = Vec::new();
        while (row.len() as u64) < width
            invariant
                row.len() <= width,
                forall|c: int| 0 <= c < row.len() ==> !#[trigger] row[c],
            decreases width - row.len(),
        {
            row.push(false);
        }
        marks.push(row);
    }
    let mut count: usize = 0;
    let mut k: usize = 0;
    assert(tiles@.take(0) =~= Seq::<Tile>::empty());
    while k < tiles.len()
        invariant
            k <= tiles.len(),
            min_x + width - 1 <= i32::MAX,
            min_y + height - 1 <= i32::MAX,
            marks.len() == height,
            forall|r: int| 0 <= r < marks.len() ==> (#[trigger] marks[r]).len() == width,
            forall|i: int|
                0 <= i < tiles.len() ==> min_x <= (#[trigger] tiles[i]).x < min_x + width
                    && min_y <= tiles[i].y < min_y + height,
            forall|r: int, c: int|
                0 <= r < height && 0 <= c < width ==> ((#[trigger] marks[r][c]) <==> has_point_at(
                    tiles@.take(k as int),
                    min_x,
                    min_y,
                    r,
                    c,
                )),
            count == point_count(tiles@.take(k as int)),
            count <= k,
        decreases tiles.len() - k,
    {
        let tile = tiles[k];
        let r: usize = (tile.y as i64 - min_y as i64) as usize;
        let c: usize = (tile.x as i64 - min_x as i64) as usize;
        proof {
            assert(tiles@.take(k + 1).drop_last() =~= tiles@.take(k as int));
            assert(tiles@.take(k + 1).last() == tile);
            assert((min_x + c) as i32 == tile.x && (min_y + r) as i32 == tile.y);
            assert forall|rr: int, cc: int| 0 <= rr < height && 0 <= cc < width implies ((
            #[trigger] has_point_at(tiles@.take(k + 1), min_x, min_y, rr, cc)) <==> has_point_at(
                tiles@.take(k as int),
                min_x,
                min_y,
                rr,
                cc,
            ) || (rr == r && cc == c)) by {
                lemma_has_point_step(tiles@, k as int, (min_x + cc) as i32, (min_y + rr) as i32);
            }
        }
        if !marks[r][c] {
            marks[r][c] = true;
            count += 1;
        }
        k += 1;
    }
    assert(tiles@.take(tiles.len() as int) =~= tiles@);
    count
}

/// The number of different places among the places of `tiles`.
pub fn get_point_count(tiles: Vec<Tile>) -> (count: usize)
    ensures
        count == point_count(tiles@),
{
    if tiles.len() == 0 {
        return 0;
    }
    let mut min_x: i32 = tiles[0].x;
    let mut max_x: i32 = tiles[0].x;
    let mut min_y: i32 = tiles[0].y;
    let mut max_y: i32 = tiles[0].y;
    let mut i: usize = 1;
    while i < tiles.len()
        invariant
            1 <= i <= tiles.len(),
            min_x <= max_x,
            min_y <= max_y,
            forall|k: int|
                0 <= k < i ==> min_x <= (#[trigger] tiles[k]).x <= max_x && min_y <= tiles[k].y
                    <= max_y,
        decreases tiles.len() - i,
    {
        let tile = tiles[i];
        if tile.x < min_x {
            min_x = tile.x;
        }
        if tile.x > max_x {
            max_x = tile.x;
        }
        if tile.y < min_y {
            min_y = tile.y;
        }
        if tile.y > max_y {
            max_y = tile.y;
        }
        i += 1;
    }
    let width: u64 = (max_x as i64 - min_x as i64 + 1) as u64;
    let height: u64 = (max_y as i64 - min_y as i64 + 1) as u64;
    // A map of the places pays where it is not much larger than the list.
    assert(width as u128 * height as u128 <= 0x1_0000_0000 * 0x1_0000_0000) by (nonlinear_arith)
        requires
            width <= 0x1_0000_0000,
            height <= 0x1_0000_0000,
    ;
    let area: u128 = width as u128 * height as u128;
    let limit: u128 = 16 * (tiles.len() as u128) + 16;
    if area <= limit {
        count_by_marks(&tiles, min_x, min_y, width, height)
    } else {
        count_by_search(&tiles)
    }
}

/// One or more beams lie on one or more places.
pub proof fn lemma_point_count_positive(tiles: Seq<Tile>)
    requires
        tiles.len() >= 1,
    ensures
        point_count(tiles) >= 1,
    decreases tiles.len(),
{
    if tiles.len() >= 2 {
        lemma_point_count_positive(tiles.drop_last());
    } else {
        assert(tiles.drop_last() =~= Seq::<Tile>::empty());
        assert(!has_point(Seq::<Tile>::empty(), tiles.last().x, tiles.last().y));
    }
}

/// Counts the places that light passes through which enters `grid` as the
/// beam in column `start_x` and row `start_y` in the direction `start_dir`.
pub fn count_energized(grid: &Vec<Vec<char>>, start_x: i32, start_y: i32, start_dir: Direction)
    -> (found: Option<usize>)
    requires
        0 < grid.len() <= i32::MAX,
        grid[0].len() <= i32::MAX,
    ensures
        found == energized(views(grid@), Tile { x: start_x, y: start_y, direction: start_dir }),
{
    assert(views(grid@)[0] == grid[0]@);
    let grid_size = (grid.len(), grid[0].len());
    match try_beam(grid.as_slice(), grid_size, start_x, start_y, start_dir) {
        Some(points) => {
            proof {
                lemma_point_count_positive(points@);
            }
            Some(get_point_count(points) - 1)
        },
        None => None,
    }
}

/// Computes the answer to the puzzle `input`, if it has one.
pub fn solve(input: &Vec<char>) -> (found: Option<usize>)
    ensures
        found == answer(input@),
{
    let grid = lines_of(input);
    if grid.len() == 0 {
        return None;
    }
    assert(views(grid@)[0] == grid[0]@);
    if grid.len() as u64 > 0x7FFF_FFFFu64 || grid[0].len() as u64 > 0x7FFF_FFFFu64 {
        return None;
    }
    // The light starts in front of the first place, which is not counted.
    count_energized(&grid, -1, 0, Direction::Right)
}

/// The answer to the puzzle `input`, in decimal digits.
pub fn process(input: &str) -> (out: String)
    requires
        answer(input@) is Some,
    ensures
        out@ == decimal(answer(input@)->0 as nat),
{
    let chars = chars_of(input);
    decimal_string(solve(&chars).unwrap() as u64)
}

} // verus!
