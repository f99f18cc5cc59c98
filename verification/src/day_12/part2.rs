use vstd::prelude::*;
use crate::day_12::counter::{capped, sum_arrangements, total_arrangements};
use crate::day_12::record::{parse_groups, parsed_records, records, run_list, Group, Record, Status};
use crate::text::{chars_of, decimal, decimal_string, lines, lines_of};

verus! {

/// `k` copies of `s`, one after the other.
pub open spec fn repeated<T>(s: Seq<T>, k: nat) -> Seq<T>
    decreases k,
{
    if k == 0 {
        Seq::empty()
    } else {
        repeated(s, (k - 1) as nat) + s
    }
}

/// `k` copies of `s`, one after the other, with one `sep` between each two of
/// them.
pub open spec fn repeated_joined<T>(s: Seq<T>, sep: T, k: nat) -> Seq<T>
    decreases k,
{
    if k == 0 {
        Seq::empty()
    } else if k == 1 {
        s
    } else {
        repeated_joined(s, sep, (k - 1) as nat).push(sep) + s
    }
}

/// The record `r` unfolded `k` times: `k` copies of its springs, joined by one
/// unknown spring between each two copies, and `k` copies of its run list.
pub open spec fn expanded(r: Record, k: nat) -> Record {
    Record { cells: repeated_joined(r.cells, Status::Unknown, k), runs: repeated(r.runs, k) }
}

/// Each record of `all` unfolded `k` times.
pub open spec fn expanded_all(all: Seq<Record>, k: nat) -> Seq<Record> {
    Seq::new(all.len(), |i: int| expanded(all[i], k))
}

/// The lengths of an unfolded record: `k` copies of `n` springs with `k - 1`
/// springs between them, and `k` copies of the run list.
pub proof fn lemma_expanded_lengths(r: Record, k: nat)
    requires
        k >= 1,
    ensures
        expanded(r, k).cells.len() == k * r.cells.len() + (k - 1),
        expanded(r, k).runs.len() == k * r.runs.len(),
    decreases k,
{
    let n = r.cells.len();
    let m = r.runs.len();
    let j = (k - 1) as nat;
    assert(k * n == j * n + n) by (nonlinear_arith)
        requires
            k == j + 1,
    ;
    assert(k * m == j * m + m) by (nonlinear_arith)
        requires
            k == j + 1,
    ;
    if k == 1 {
        assert(j * n == 0 && j * m == 0) by (nonlinear_arith)
            requires
                j == 0,
        ;
        assert(repeated(r.runs, 0) =~= Seq::<nat>::empty());
        assert(repeated(r.runs, 1) =~= r.runs);
    } else {
        lemma_expanded_lengths(r, j);
    }
}

/// The run lengths of a repeated list are the repeated run lengths.
pub proof fn lemma_run_list_repeated(brokens: Seq<u32>, k: nat)
    ensures
        run_list(repeated(brokens, k)) == repeated(run_list(brokens), k),
    decreases k,
{
    if k == 0 {
        assert(run_list(repeated(brokens, 0)) =~= repeated(run_list(brokens), 0));
    } else {
        lemma_run_list_repeated(brokens, (k - 1) as nat);
        assert(run_list(repeated(brokens, k)) =~= run_list(repeated(brokens, (k - 1) as nat))
            + run_list(brokens));
    }
}

/// Appends the items of `items` to `out`.
fn append_all<T: Copy>(out: &mut Vec<T>, items: &Vec<T>)
    ensures
        final(out)@ == old(out)@ + items@,
{
    let mut i: usize = 0;
    assert(items@.take(0) =~= Seq::<T>::empty());
    assert(out@ =~= old(out)@ + items@.take(0));
    while i < items.len()
        invariant
            i <= items.len(),
            out@ == old(out)@ + items@.take(i as int),
        decreases items.len() - i,
    {
        out.push(items[i]);
        assert(out@ =~= old(out)@ + items@.take(i + 1));
        i += 1;
    }
    assert(items@.take(items.len() as int) =~= items@);
}

/// Unfolds `group` `factor` times: `factor` copies of its springs, joined by
/// one unknown spring between each two copies, and `factor` copies of its run
/// list.
pub fn expand(group: &Group, factor: usize) -> (unfolded: Group)
    ensures
        unfolded@ == expanded(group@, factor as nat),
{
    let mut springs: Vec<Status> = Vec::new();
    let mut brokens: Vec<u32> = Vec::new();
    let mut copies: usize = 0;
    while copies < factor
        invariant
            copies <= factor,
            springs@ == repeated_joined(group.springs@, Status::Unknown, copies as nat),
            brokens@ == repeated(group.brokens@, copies as nat),
        decreases factor - copies,
    {
        if copies > 0 {
            springs.push(Status::Unknown);
        }
        let ghost joined = springs@;
        append_all(&mut springs, &group.springs);
        append_all(&mut brokens, &group.brokens);
        proof {
            if copies == 0 {
                assert(springs@ =~= group.springs@);
            }
        }
        copies += 1;
    }
    proof {
        lemma_run_list_repeated(group.brokens@, factor as nat);
    }
    Group { springs, brokens }
}

impl Group {
    /// Unfolds the group five times.
    pub fn expand(self) -> (unfolded: Group)
        ensures
            unfolded@ == expanded(self@, 5),
    {
        expand(&self, 5)
    }
}

/// Unfolds each of `groups` five times.
fn expand_all(groups: Vec<Group>) -> (unfolded: Vec<Group>)
    ensures
        records(unfolded@) == expanded_all(records(groups@), 5),
{
    let mut unfolded: Vec<Group> = Vec::new();
    let mut i: usize = 0;
    while i < groups.len()
        invariant
            i <= groups.len(),
            unfolded.len() == i,
            forall|k: int| 0 <= k < i ==> (#[trigger] unfolded[k])@ == expanded(groups[k]@, 5),
        decreases groups.len() - i,
    {
        unfolded.push(expand(&groups[i], 5));
        i += 1;
    }
    assert(records(unfolded@) =~= expanded_all(records(groups@), 5));
    unfolded
}

/// The answer to the puzzle `input`, one record to a line: the number of
/// arrangements of all its records together, each unfolded five times. There
/// is none if a line has no word.
pub open spec fn answer(input: Seq<char>) -> Option<u64> {
    match parsed_records(lines(input)) {
        Some(all) => Some(capped(total_arrangements(expanded_all(all, 5)))),
        None => None,
    }
}

/// Computes the answer to the puzzle `input`, if it has one.
pub fn solve(input: &Vec<char>) -> (found: Option<u64>)
    ensures
        found == answer(input@),
{
    let all_lines = lines_of(input);
    match parse_groups(&all_lines) {
        Some(groups) => Some(sum_arrangements(expand_all(groups))),
        None => None,
    }
}

/// The answer to the puzzle `input`, in decimal digits.
pub fn process(input: &str) -> (out: String)
    requires
        answer(input@) is Some,
    ensures
        out@ == decimal(answer(input@)->0 as nat),
{
    let chars = chars_of(input);
    decimal_string(solve(&chars).unwrap())
}

} // verus!
