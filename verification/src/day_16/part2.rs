use vstd::prelude::*;
use crate::day_16::part1::{count_energized, energized, Direction, Tile};
use crate::text::{chars_of, decimal, decimal_string, lines, lines_of, views};

verus! {

/// The greater of `best` and what the light energizes that enters `grid` as
/// the beam `start`.
pub open spec fn improved(grid: Seq<Seq<char>>, best: Option<usize>, start: Tile) -> Option<usize> {
    match (best, energized(grid, start)) {
        (Some(a), Some(b)) => Some(
            if b > a {
                b
            } else {
                a
            },
        ),
        _ => None,
    }
}

/// The most places that light energizes which enters `grid` sideways at one
/// of the first `i` numbers: from the left in the row of that number, or
/// towards the left from the column as far to the right as the grid has rows.
pub open spec fn best_sideways(grid: Seq<Seq<char>>, i: int) -> Option<usize>
    decreases i,
{
    if i <= 0 {
        Some(0)
    } else {
        improved(
            grid,
            improved(
                grid,
                best_sideways(grid, i - 1),
                Tile { x: -1i32, y: (i - 1) as i32, direction: Direction::Right },
            ),
            Tile { x: grid.len() as i32, y: (i - 1) as i32, direction: Direction::Left },
        )
    }
}

/// The most places that light energizes which enters `grid` sideways at any of
/// the numbers of its columns, or upright at one of the first `i` numbers:
/// downwards in the column of that number, or upwards from the row as far down
/// as the grid has columns.
pub open spec fn best_upright(grid: Seq<Seq<char>>, i: int) -> Option<usize>
    decreases i,
{
    if i <= 0 {
        best_sideways(grid, grid[0].len() as int)
    } else {
        improved(
            grid,
            improved(
                grid,
                best_upright(grid, i - 1),
                Tile { x: (i - 1) as i32, y: -1i32, direction: Direction::Down },
            ),
            Tile { x: (i - 1) as i32, y: grid[0].len() as i32, direction: Direction::Up },
        )
    }
}

/// The answer to the puzzle `input`: the most places that light energizes
/// which enters the grid at one of its edges. The light is sent sideways once
/// for each column of the first row and upright once for each row. There is
/// none if the grid has no row, is larger than 32 bits can count, or lacks a
/// place that the light comes to.
pub open spec fn answer(input: Seq<char>) -> Option<usize> {
    let grid = lines(input);
    if 0 < grid.len() <= i32::MAX && grid[0].len() <= i32::MAX {
        best_upright(grid, grid.len() as int)
    } else {
        None
    }
}

/// Where the first `k` entries have no best, neither have the first `n`.
pub proof fn lemma_best_sideways_fails(grid: Seq<Seq<char>>, k: int, n: int)
    requires
        0 <= k <= n,
        best_sideways(grid, k) is None,
    ensures
        best_sideways(grid, n) is None,
    decreases n - k,
{
    if k < n {
        lemma_best_sideways_fails(grid, k, n - 1);
    }
}

/// Where the first `k` entries have no best, neither have the first `n`.
pub proof fn lemma_best_upright_fails(grid: Seq<Seq<char>>, k: int, n: int)
    requires
        0 <= k <= n,
        best_upright(grid, k) is None,
    ensures
        best_upright(grid, n) is None,
    decreases n - k,
{
    if k < n {
        lemma_best_upright_fails(grid, k, n - 1);
    }
}

/// Computes the answer to the puzzle `input`, if it has one.
#[verifier::loop_isolation(false)]
pub fn solve(input: &Vec<char>) -> (found: Option<usize>)
    ensures
        found == answer(input@),
{
    let grid = lines_of(input);
    let ghost rows = views(grid@);
    if grid.len() == 0 {
        return None;
    }
    assert(rows[0] == grid[0]@);
    if grid.len() as u64 > 0x7FFF_FFFFu64 || grid[0].len() as u64 > 0x7FFF_FFFFu64 {
        return None;
    }
    let grid_size = (grid.len(), grid[0].len());
    let mut max_sum: usize = 0;

    let mut i: usize = 0;
    while i < grid_size.1
        invariant
            i <= grid_size.1,
            best_sideways(rows, i as int) == Some(max_sum),
        decreases grid_size.1 - i,
    {
        let ghost before = best_sideways(rows, i as int);
        let first = count_energized(&grid, -1, i as i32, Direction::Right);
        let second = count_energized(&grid, grid_size.0 as i32, i as i32, Direction::Left);
        match (first, second) {
            (Some(a), Some(b)) => {
                if a > max_sum {
                    max_sum = a;
                }
                if b > max_sum {
                    max_sum = b;
                }
            },
            _ => {
                proof {
                    assert(best_sideways(rows, i + 1) is None);
                    lemma_best_sideways_fails(rows, i + 1, grid_size.1 as int);
                    lemma_best_upright_fails(rows, 0, grid_size.0 as int);
                }
                return None;
            },
        }
        i += 1;
    }

    let mut k: usize = 0;
    while k < grid_size.0
        invariant
            k <= grid_size.0,
            best_upright(rows, k as int) == Some(max_sum),
        decreases grid_size.0 - k,
    {
        let first = count_energized(&grid, k as i32, -1, Direction::Down);
        let second = count_energized(&grid, k as i32, grid_size.1 as i32, Direction::Up);
        match (first, second) {
            (Some(a), Some(b)) => {
                if a > max_sum {
                    max_sum = a;
                }
                if b > max_sum {
                    max_sum = b;
                }
            },
            _ => {
                proof {
                    assert(best_upright(rows, k + 1) is None);
                    lemma_best_upright_fails(rows, k + 1, grid_size.0 as int);
                }
                return None;
            },
        }
        k += 1;
    }
    Some(max_sum)
}

/// The answer to the puzzle `input`, in decimal digits.
pub fn process(input: &str) -> (out: String)
    requires
        answer(input@) is Some,
    ensures
        out@ == decimal(answer(input@)->0 as nat),
{
    let chars = chars_of(input);
    decimal_string(solve(&chars).unwrap() as u64)
}

} // verus!
