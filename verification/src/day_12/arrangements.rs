use vstd::prelude::*;
use crate::day_12::record::Status;

verus! {

/// Whether a spring in state `c` may be resolved to damaged (`true`) or to
/// operational (`false`).
pub open spec fn admits(c: Status, damaged: bool) -> bool {
    match c {
        Status::Unknown => true,
        Status::Damaged => damaged,
        Status::Operational => !damaged,
    }
}

/// `r` with its last entry raised by one.
pub open spec fn grow_last(r: Seq<nat>) -> Seq<nat> {
    r.drop_last().push(r.last() + 1)
}

/// The lengths of the maximal runs of `true` in `a`, from left to right.
pub open spec fn run_lengths(a: Seq<bool>) -> Seq<nat>
    decreases a.len(),
{
    if a.len() == 0 {
        Seq::empty()
    } else if !a.last() {
        run_lengths(a.drop_last())
    } else if a.len() >= 2 && a[a.len() - 2] {
        grow_last(run_lengths(a.drop_last()))
    } else {
        run_lengths(a.drop_last()).push(1)
    }
}

/// The number of ways to resolve every spring of `cells` such that the row,
/// followed by the already resolved springs `tail`, shows runs of damaged
/// springs of exactly the lengths `runs`, in order.
///
/// The springs are resolved from the last to the first; an unknown spring
/// contributes both of its resolutions.
pub open spec fn resolutions(cells: Seq<Status>, tail: Seq<bool>, runs: Seq<nat>) -> nat
    decreases cells.len(),
{
    if cells.len() == 0 {
        if run_lengths(tail) == runs {
            1
        } else {
            0
        }
    } else {
        let rest = cells.drop_last();
        let damaged: nat = if admits(cells.last(), true) {
            resolutions(rest, seq![true] + tail, runs)
        } else {
            0
        };
        let operational: nat = if admits(cells.last(), false) {
            resolutions(rest, seq![false] + tail, runs)
        } else {
            0
        };
        damaged + operational
    }
}

/// The number of arrangements of a record: the resolutions of its unknown
/// springs whose runs of damaged springs have exactly the lengths `runs`.
pub open spec fn arrangements(cells: Seq<Status>, runs: Seq<nat>) -> nat {
    resolutions(cells, Seq::empty(), runs)
}

/// Whether every spring of `cells` from `from` up to `to` may be damaged.
pub open spec fn may_all_be_damaged(cells: Seq<Status>, from: int, to: int) -> bool {
    forall|k: int| from <= k < to ==> admits(#[trigger] cells[k], true)
}

/// The number of arrangements of `cells` that end in a run of exactly `len`
/// damaged springs and show the runs `before` in front of it.
///
/// The run takes the last `len` springs; in front of it stands the start of
/// the row or one operational spring, and in front of that an arrangement of
/// the remaining springs for `before`.
pub open spec fn closing(cells: Seq<Status>, len: nat, before: Seq<nat>) -> nat {
    let n = cells.len() as int;
    if n < len || !may_all_be_damaged(cells, n - len, n) {
        0
    } else if n == len {
        arrangements(Seq::empty(), before)
    } else if admits(cells[n - len - 1], false) {
        arrangements(cells.take(n - len - 1), before)
    } else {
        0
    }
}

/// A row of `k` damaged springs.
pub open spec fn damaged_run(k: nat) -> Seq<bool> {
    Seq::new(k, |i: int| true)
}

/// Whether `front` followed by `tail` shows exactly the runs `runs`.
pub open spec fn shows(front: Seq<bool>, tail: Seq<bool>, runs: Seq<nat>) -> bool {
    run_lengths(front + tail) == runs
}

/// What one more spring at the end of a row does to its runs: nothing if it
/// is operational; if it is damaged, it lengthens the last run where the row
/// ends in a damaged spring, and starts a run of one spring where it does not.
pub proof fn lemma_run_lengths_push(p: Seq<bool>, b: bool)
    ensures
        !b ==> run_lengths(p.push(b)) == run_lengths(p),
        b && p.len() > 0 && p.last() ==> run_lengths(p.push(b)) == grow_last(run_lengths(p)),
        b && !(p.len() > 0 && p.last()) ==> run_lengths(p.push(b)) == run_lengths(p).push(1),
{
    assert(p.push(b).drop_last() =~= p);
}

/// A row that ends in a damaged spring shows at least one run.
pub proof fn lemma_run_lengths_ends_damaged(p: Seq<bool>)
    requires
        p.len() > 0,
        p.last(),
    ensures
        run_lengths(p).len() >= 1,
        run_lengths(p).last() >= 1,
    decreases p.len(),
{
    if p.len() >= 2 && p[p.len() - 2] {
        lemma_run_lengths_ends_damaged(p.drop_last());
    }
}

/// Every run has at least one spring.
pub proof fn lemma_run_lengths_positive(a: Seq<bool>)
    ensures
        forall|i: int| 0 <= i < run_lengths(a).len() ==> #[trigger] run_lengths(a)[i] >= 1,
    decreases a.len(),
{
    if a.len() > 0 {
        let prev = run_lengths(a.drop_last());
        lemma_run_lengths_positive(a.drop_last());
        if a.last() && a.len() >= 2 && a[a.len() - 2] {
            lemma_run_lengths_ends_damaged(a.drop_last());
        }
        assert forall|i: int| 0 <= i < run_lengths(a).len() implies #[trigger] run_lengths(
            a,
        )[i] >= 1 by {
            if i < prev.len() - 1 {
                assert(run_lengths(a)[i] == prev[i]);
            } else if i < prev.len() && !a.last() {
                assert(run_lengths(a)[i] == prev[i]);
            }
        }
    }
}

/// After an operational spring, `k` damaged springs add one run of length `k`.
pub proof fn lemma_run_after_gap(p: Seq<bool>, k: nat)
    requires
        k >= 1,
    ensures
        run_lengths(p.push(false) + damaged_run(k)) == run_lengths(p).push(k),
    decreases k,
{
    let q = p.push(false);
    if k == 1 {
        assert(q + damaged_run(1) =~= q.push(true));
        lemma_run_lengths_push(q, true);
        lemma_run_lengths_push(p, false);
    } else {
        let j = (k - 1) as nat;
        lemma_run_after_gap(p, j);
        assert(q + damaged_run(k) =~= (q + damaged_run(j)).push(true));
        lemma_run_lengths_push(q + damaged_run(j), true);
        assert(run_lengths(p).push(j).drop_last() =~= run_lengths(p));
    }
}

/// A row of `k` damaged springs alone shows the single run `k`.
pub proof fn lemma_run_alone(k: nat)
    requires
        k >= 1,
    ensures
        run_lengths(damaged_run(k)) == seq![k],
    decreases k,
{
    if k == 1 {
        assert(damaged_run(1) =~= Seq::<bool>::empty().push(true));
        lemma_run_lengths_push(Seq::<bool>::empty(), true);
        assert(Seq::<nat>::empty().push(1) =~= seq![1nat]);
    } else {
        let j = (k - 1) as nat;
        lemma_run_alone(j);
        assert(damaged_run(k) =~= damaged_run(j).push(true));
        lemma_run_lengths_push(damaged_run(j), true);
        assert(grow_last(seq![j]) =~= seq![k]);
    }
}

/// A row that ends in `k` damaged springs shows a last run of at least `k`.
pub proof fn lemma_run_at_end(q: Seq<bool>, k: nat)
    requires
        k >= 1,
    ensures
        run_lengths(q + damaged_run(k)).len() >= 1,
        run_lengths(q + damaged_run(k)).last() >= k,
    decreases k,
{
    if k == 1 {
        assert(q + damaged_run(1) =~= q.push(true));
        lemma_run_lengths_push(q, true);
        if q.len() > 0 && q.last() {
            lemma_run_lengths_ends_damaged(q);
        }
    } else {
        let j = (k - 1) as nat;
        lemma_run_at_end(q, j);
        assert(q + damaged_run(k) =~= (q + damaged_run(j)).push(true));
        lemma_run_lengths_push(q + damaged_run(j), true);
    }
}


/// Two resolved tails that complete the same fronts to their run lists leave
/// the same number of resolutions.
pub proof fn lemma_resolutions_congruent(
    cells: Seq<Status>,
    t1: Seq<bool>,
    r1: Seq<nat>,
    t2: Seq<bool>,
    r2: Seq<nat>,
)
    requires
        forall|p: Seq<bool>| #[trigger] shows(p, t1, r1) == shows(p, t2, r2),
    ensures
        resolutions(cells, t1, r1) == resolutions(cells, t2, r2),
    decreases cells.len(),
{
    if cells.len() == 0 {
        let e = Seq::<bool>::empty();
        assert(shows(e, t1, r1) == shows(e, t2, r2));
        assert(e + t1 =~= t1);
        assert(e + t2 =~= t2);
    } else {
        let rest = cells.drop_last();
        assert forall|p: Seq<bool>| #[trigger]
            shows(p, seq![true] + t1, r1) == shows(p, seq![true] + t2, r2) by {
            assert(p + (seq![true] + t1) =~= p.push(true) + t1);
            assert(p + (seq![true] + t2) =~= p.push(true) + t2);
            assert(shows(p.push(true), t1, r1) == shows(p.push(true), t2, r2));
        }
        lemma_resolutions_congruent(rest, seq![true] + t1, r1, seq![true] + t2, r2);
        assert forall|p: Seq<bool>| #[trigger]
            shows(p, seq![false] + t1, r1) == shows(p, seq![false] + t2, r2) by {
            assert(p + (seq![false] + t1) =~= p.push(false) + t1);
            assert(p + (seq![false] + t2) =~= p.push(false) + t2);
            assert(shows(p.push(false), t1, r1) == shows(p.push(false), t2, r2));
        }
        lemma_resolutions_congruent(rest, seq![false] + t1, r1, seq![false] + t2, r2);
    }
}

/// A resolved tail that no front completes to `runs` leaves no resolution.
pub proof fn lemma_resolutions_none(cells: Seq<Status>, tail: Seq<bool>, runs: Seq<nat>)
    requires
        forall|p: Seq<bool>| !#[trigger] shows(p, tail, runs),
    ensures
        resolutions(cells, tail, runs) == 0,
    decreases cells.len(),
{
    if cells.len() == 0 {
        let e = Seq::<bool>::empty();
        assert(!shows(e, tail, runs));
        assert(e + tail =~= tail);
    } else {
        let rest = cells.drop_last();
        assert forall|p: Seq<bool>| !#[trigger] shows(p, seq![true] + tail, runs) by {
            assert(p + (seq![true] + tail) =~= p.push(true) + tail);
            assert(!shows(p.push(true), tail, runs));
        }
        lemma_resolutions_none(rest, seq![true] + tail, runs);
        assert forall|p: Seq<bool>| !#[trigger] shows(p, seq![false] + tail, runs) by {
            assert(p + (seq![false] + tail) =~= p.push(false) + tail);
            assert(!shows(p.push(false), tail, runs));
        }
        lemma_resolutions_none(rest, seq![false] + tail, runs);
    }
}

/// A closing run of `len >= 1` springs takes the last spring, which must admit
/// being damaged, and closes with one spring less on the springs before it.
pub proof fn lemma_closing_extend(cells: Seq<Status>, len: nat, before: Seq<nat>)
    requires
        cells.len() > 0,
        len >= 1,
    ensures
        closing(cells, len, before) == (if admits(cells.last(), true) {
            closing(cells.drop_last(), (len - 1) as nat, before)
        } else {
            0
        }),
{
    let n = cells.len() as int;
    let rest = cells.drop_last();
    let less = (len - 1) as nat;
    if admits(cells.last(), true) {
        if n >= len {
            assert(may_all_be_damaged(rest, n - len, n - 1) == may_all_be_damaged(
                cells,
                n - len,
                n,
            )) by {
                if may_all_be_damaged(rest, n - len, n - 1) {
                    assert forall|j: int| n - len <= j < n implies admits(
                        #[trigger] cells[j],
                        true,
                    ) by {
                        if j < n - 1 {
                            assert(rest[j] == cells[j]);
                        }
                    }
                }
                if may_all_be_damaged(cells, n - len, n) {
                    assert forall|j: int| n - len <= j < n - 1 implies admits(
                        #[trigger] rest[j],
                        true,
                    ) by {
                        assert(rest[j] == cells[j]);
                    }
                }
            }
            if n > len {
                assert(rest[n - len - 1] == cells[n - len - 1]);
                assert(rest.take(n - len - 1) =~= cells.take(n - len - 1));
            }
        }
    } else {
        assert(!may_all_be_damaged(cells, n - len, n)) by {
            if n >= len {
                assert(!admits(cells[n - 1], true));
            }
        }
    }
}

/// With `k` damaged springs already resolved at the end of a last run of
/// length `runs.last()`, the resolutions of `cells` are the arrangements in
/// which `cells` ends in the rest of that run.
pub proof fn lemma_resolutions_in_run(cells: Seq<Status>, k: nat, runs: Seq<nat>)
    requires
        runs.len() > 0,
        1 <= k <= runs.last(),
    ensures
        resolutions(cells, damaged_run(k), runs) == closing(
            cells,
            (runs.last() - k) as nat,
            runs.drop_last(),
        ),
    decreases cells.len(),
{
    let len = runs.last();
    let before = runs.drop_last();
    let need = (len - k) as nat;
    let n = cells.len() as int;
    let e = Seq::<bool>::empty();
    if cells.len() == 0 {
        lemma_run_alone(k);
        if k == len {
            assert(e + e =~= e);
            assert(run_lengths(e) =~= Seq::<nat>::empty());
            if runs == seq![k] {
                assert(before =~= Seq::<nat>::empty());
            } else {
                assert(before.len() > 0) by {
                    if before.len() == 0 {
                        assert(runs =~= seq![k]);
                    }
                }
            }
        } else {
            assert(seq![k].last() == k);
        }
    } else {
        let rest = cells.drop_last();
        let with_damaged = seq![true] + damaged_run(k);
        let with_gap = seq![false] + damaged_run(k);
        assert(with_damaged =~= damaged_run(k + 1));
        if k == len {
            // One more damaged spring would make the run too long.
            assert forall|p: Seq<bool>| !#[trigger] shows(p, with_damaged, runs) by {
                lemma_run_at_end(p, k + 1);
            }
            lemma_resolutions_none(rest, with_damaged, runs);
            // An operational spring closes the run.
            assert forall|p: Seq<bool>| #[trigger]
                shows(p, with_gap, runs) == shows(p, e, before) by {
                assert(p + with_gap =~= p.push(false) + damaged_run(k));
                assert(p + e =~= p);
                lemma_run_after_gap(p, k);
                if run_lengths(p) == before {
                    assert(before.push(k) =~= runs);
                }
                if run_lengths(p).push(k) == runs {
                    assert(run_lengths(p).push(k).drop_last() =~= run_lengths(p));
                }
            }
            lemma_resolutions_congruent(rest, with_gap, runs, e, before);
            assert(cells.take(n - 1) =~= rest);
        } else {
            // An operational spring would close the run too early.
            assert forall|p: Seq<bool>| !#[trigger] shows(p, with_gap, runs) by {
                assert(p + with_gap =~= p.push(false) + damaged_run(k));
                lemma_run_after_gap(p, k);
                assert(run_lengths(p).push(k).last() == k);
            }
            lemma_resolutions_none(rest, with_gap, runs);
            lemma_resolutions_in_run(rest, k + 1, runs);
            lemma_closing_extend(cells, need, before);
        }
    }
}

/// The recurrence that the number of arrangements obeys in the last spring:
/// either that spring is operational and the springs before it show all runs,
/// or it ends the last run.
pub proof fn lemma_arrangements_step(cells: Seq<Status>, runs: Seq<nat>)
    requires
        cells.len() > 0,
    ensures
        arrangements(cells, runs) == (if admits(cells.last(), false) {
            arrangements(cells.drop_last(), runs)
        } else {
            0
        }) + (if runs.len() > 0 && runs.last() >= 1 {
            closing(cells, runs.last(), runs.drop_last())
        } else {
            0
        }),
{
    let e = Seq::<bool>::empty();
    let rest = cells.drop_last();
    let n = cells.len() as int;
    assert(seq![true] + e =~= damaged_run(1));
    // The last spring operational.
    assert forall|p: Seq<bool>| #[trigger] shows(p, seq![false] + e, runs) == shows(p, e, runs) by {
        assert(p + (seq![false] + e) =~= p.push(false));
        assert(p + e =~= p);
        lemma_run_lengths_push(p, false);
    }
    lemma_resolutions_congruent(rest, seq![false] + e, runs, e, runs);
    // The last spring damaged.
    if runs.len() > 0 && runs.last() >= 1 {
        lemma_resolutions_in_run(rest, 1, runs);
        lemma_closing_extend(cells, runs.last(), runs.drop_last());
    } else {
        assert forall|p: Seq<bool>| !#[trigger] shows(p, damaged_run(1), runs) by {
            lemma_run_at_end(p, 1);
        }
        lemma_resolutions_none(rest, damaged_run(1), runs);
    }
}

} // verus!
