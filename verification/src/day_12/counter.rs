use vstd::prelude::*;
use crate::day_12::record::{records, Group, Record, Status};
use crate::day_12::semantics::{arrangement_set, lemma_arrangements_counted};
use crate::day_12::arrangements::{
    admits, arrangements, may_all_be_damaged, run_lengths, lemma_arrangements_step,
};

verus! {

/// The entry of the counting table for the first `i` springs and the first `j`
/// runs of `r`: the number of arrangements of that prefix of the row for that
/// prefix of the run list.
pub open spec fn table(r: Record, i: int, j: int) -> nat {
    arrangements(r.cells.take(i), r.runs.take(j))
}

/// Whether a run of `len` springs may end with the `i`-th spring of `r`: it is
/// not empty, it is no longer than the prefix, and none of its springs is
/// known to be operational.
pub open spec fn run_fits(r: Record, i: int, len: nat) -> bool {
    len >= 1 && i >= len && may_all_be_damaged(r.cells, i - len, i)
}

/// A number of arrangements as the counter reports it: itself where it fits
/// in 64 bits, and the largest 64-bit number otherwise.
pub open spec fn capped(n: nat) -> u64 {
    if n > u64::MAX {
        u64::MAX
    } else {
        n as u64
    }
}

/// The empty prefix of a row is arranged in one way for no run, and in no way
/// for any run.
pub proof fn lemma_table_base(r: Record, j: int)
    requires
        0 <= j <= r.runs.len(),
    ensures
        table(r, 0, j) == (if j == 0 {
            1nat
        } else {
            0nat
        }),
{
    assert(r.cells.take(0) =~= Seq::<Status>::empty());
    assert(run_lengths(Seq::<bool>::empty()) =~= Seq::<nat>::empty());
    if j == 0 {
        assert(r.runs.take(0) =~= Seq::<nat>::empty());
    } else {
        assert(r.runs.take(j).len() == j);
    }
}

/// The transition of the counting table. The `i`-th spring is either taken as
/// operational, with the same runs placed in front of it, or it ends the
/// `j`-th run, in front of which stands the start of the row or one spring
/// taken as operational.
pub proof fn lemma_table_step(r: Record, i: int, j: int)
    requires
        1 <= i <= r.cells.len(),
        0 <= j <= r.runs.len(),
    ensures
        table(r, i, j) == (if admits(r.cells[i - 1], false) {
            table(r, i - 1, j)
        } else {
            0
        }) + (if j >= 1 && run_fits(r, i, r.runs[j - 1]) {
            let len = r.runs[j - 1];
            if i == len {
                table(r, 0, j - 1)
            } else if admits(r.cells[i - len - 1], false) {
                table(r, i - len - 1, j - 1)
            } else {
                0
            }
        } else {
            0
        }),
{
    let cells = r.cells.take(i);
    let runs = r.runs.take(j);
    lemma_arrangements_step(cells, runs);
    assert(cells.drop_last() =~= r.cells.take(i - 1));
    if j >= 1 {
        let len = r.runs[j - 1];
        let before = r.runs.take(j - 1);
        assert(runs.last() == len);
        assert(runs.drop_last() =~= before);
        assert(r.cells.take(0) =~= Seq::<Status>::empty());
        if i >= len {
            assert(may_all_be_damaged(cells, i - len, i) == may_all_be_damaged(
                r.cells,
                i - len,
                i,
            )) by {
                if may_all_be_damaged(cells, i - len, i) {
                    assert forall|k: int| i - len <= k < i implies admits(
                        #[trigger] r.cells[k],
                        true,
                    ) by {
                        assert(cells[k] == r.cells[k]);
                    }
                }
                if may_all_be_damaged(r.cells, i - len, i) {
                    assert forall|k: int| i - len <= k < i implies admits(
                        #[trigger] cells[k],
                        true,
                    ) by {
                        assert(cells[k] == r.cells[k]);
                    }
                }
            }
            if i > len {
                assert(cells.take(i - len - 1) =~= r.cells.take(i - len - 1));
            }
        }
    }
}

/// Adding capped numbers with saturation caps their sum.
pub proof fn lemma_capped_sum(a: nat, b: nat)
    ensures
        capped(a).saturating_add(capped(b)) == capped(a + b),
{
}

/// Whether a spring in state `s` may be damaged.
fn may_be_damaged(s: Status) -> (b: bool)
    ensures
        b == admits(s, true),
{
    match s {
        Status::Operational => false,
        _ => true,
    }
}

/// Whether a spring in state `s` may be operational.
fn may_be_operational(s: Status) -> (b: bool)
    ensures
        b == admits(s, false),
{
    match s {
        Status::Damaged => false,
        _ => true,
    }
}

/// Whether every spring from `from` up to `to` may be damaged.
fn window_may_be_damaged(springs: &Vec<Status>, from: usize, to: usize) -> (ok: bool)
    requires
        from <= to <= springs.len(),
    ensures
        ok == may_all_be_damaged(springs@, from as int, to as int),
{
    let mut k: usize = from;
    while k < to
        invariant
            from <= k <= to <= springs.len(),
            may_all_be_damaged(springs@, from as int, k as int),
        decreases to - k,
    {
        if !may_be_damaged(springs[k]) {
            return false;
        }
        k += 1;
    }
    true
}

/// Counts the arrangements of `group`: the ways to resolve its unknown springs
/// such that the runs of damaged springs have exactly the lengths
/// `group.brokens`, in order. The group is not changed, and the count depends
/// on nothing but its springs and its run lengths.
///
/// The count is reported exactly where it fits in 64 bits, and as `u64::MAX`
/// where it does not.
pub fn count_arrangements(group: Group) -> (count: u64)
    ensures
        count == capped(arrangement_set(group@.cells, group@.runs).len()),
        count == capped(arrangements(group@.cells, group@.runs)),
{
    let n: usize = group.springs.len();
    let m: usize = group.brokens.len();
    let ghost r = group@;
    let mut cache: Vec<Vec<u64>> = Vec::new();

    let mut first_row: Vec<u64> = Vec::new();
    first_row.push(1);
    proof {
        lemma_table_base(r, 0);
    }
    while first_row.len() <= m
        invariant
            r == group@,
            m == r.runs.len(),
            1 <= first_row.len() <= m + 1,
            forall|b: int| 0 <= b < first_row.len() ==> first_row[b] == capped(table(r, 0, b)),
        decreases m + 1 - first_row.len(),
    {
        proof {
            lemma_table_base(r, first_row.len() as int);
        }
        first_row.push(0);
    }
    cache.push(first_row);

    let mut i: usize = 0;
    while i < n
        invariant
            r == group@,
            n == group.springs.len(),
            m == group.brokens.len(),
            i <= n,
            cache.len() == i + 1,
            forall|a: int| 0 <= a <= i ==> (#[trigger] cache[a]).len() == m + 1,
            forall|a: int, b: int|
                0 <= a <= i && 0 <= b <= m ==> (#[trigger] cache[a][b]) == capped(table(r, a, b)),
        decreases n - i,
    {
        let spring = group.springs[i];
        let end: usize = i + 1;
        let mut row: Vec<u64> = Vec::new();
        proof {
            lemma_table_step(r, end as int, 0);
        }
        if may_be_operational(spring) {
            row.push(cache[i][0]);
        } else {
            row.push(0);
        }
        let mut j: usize = 0;
        while j < m
            invariant
                r == group@,
                n == group.springs.len(),
                m == group.brokens.len(),
                i < n,
                end == i + 1,
                spring == group.springs[i as int],
                cache.len() == i + 1,
                forall|a: int| 0 <= a <= i ==> (#[trigger] cache[a]).len() == m + 1,
                forall|a: int, b: int|
                    0 <= a <= i && 0 <= b <= m ==> (#[trigger] cache[a][b]) == capped(
                        table(r, a, b),
                    ),
                j <= m,
                row.len() == j + 1,
                forall|b: int|
                    0 <= b <= j ==> (#[trigger] row[b]) == capped(table(r, end as int, b)),
            decreases m - j,
        {
            let mut count: u64 = 0;
            let ghost kept: nat = if admits(spring, false) {
                table(r, i as int, j + 1)
            } else {
                0
            };
            // The spring is taken as operational.
            if may_be_operational(spring) {
                count = cache[i][j + 1];
            }
            assert(count == capped(kept));
            // The spring ends the run.
            let len: usize = group.brokens[j] as usize;
            proof {
                lemma_table_step(r, end as int, j + 1);
                assert(r.runs[j as int] == len);
            }
            if len >= 1 && end >= len && window_may_be_damaged(&group.springs, end - len, end) {
                if end == len {
                    proof {
                        lemma_capped_sum(kept, table(r, 0, j as int));
                    }
                    count = count.saturating_add(cache[0][j]);
                } else {
                    let gap = group.springs[end - len - 1];
                    if may_be_operational(gap) {
                        proof {
                            lemma_capped_sum(kept, table(r, end - len - 1, j as int));
                        }
                        count = count.saturating_add(cache[end - len - 1][j]);
                    }
                }
            }
            row.push(count);
            j += 1;
        }
        cache.push(row);
        i += 1;
    }
    proof {
        assert(r.cells.take(n as int) =~= r.cells);
        assert(r.runs.take(m as int) =~= r.runs);
        lemma_arrangements_counted(r.cells, r.runs);
    }
    cache[n][m]
}

/// The number of arrangements of all of `all` together: the sum of their
/// numbers of arrangements.
pub open spec fn total_arrangements(all: Seq<Record>) -> nat
    decreases all.len(),
{
    if all.len() == 0 {
        0
    } else {
        total_arrangements(all.drop_last()) + arrangement_set(
            all.last().cells,
            all.last().runs,
        ).len()
    }
}

/// Sums the numbers of arrangements of `groups`; without groups the sum is
/// zero.
///
/// The sum is reported exactly where it fits in 64 bits, and as `u64::MAX`
/// where it does not.
pub fn sum_arrangements(groups: Vec<Group>) -> (sum: u64)
    ensures
        sum == capped(total_arrangements(records(groups@))),
{
    let mut rest = groups;
    let mut sum: u64 = 0;
    let ghost all = records(groups@);
    let ghost exact: nat = 0;
    while rest.len() > 0
        invariant
            sum == capped(exact),
            total_arrangements(all) == total_arrangements(records(rest@)) + exact,
        decreases rest.len(),
    {
        let ghost before = records(rest@);
        let group = rest.pop().unwrap();
        let ghost r = group@;
        proof {
            assert(before.drop_last() =~= records(rest@));
            assert(before.last() == r);
            lemma_arrangements_counted(r.cells, r.runs);
            lemma_capped_sum(exact, arrangements(r.cells, r.runs));
            exact = exact + arrangements(r.cells, r.runs);
        }
        sum = sum.saturating_add(count_arrangements(group));
    }
    sum
}

} // verus!
