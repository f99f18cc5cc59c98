use vstd::prelude::*;
use crate::day_12::record::{Record, Status};
use crate::day_12::semantics::{arrangement_set, lemma_arrangements_counted};
use crate::day_12::arrangements::{
    admits, arrangements, closing, lemma_arrangements_step, lemma_resolutions_none,
    lemma_run_lengths_positive, may_all_be_damaged, run_lengths, shows,
};

verus! {

/// The sum of a list of run lengths.
pub open spec fn total(runs: Seq<nat>) -> nat
    decreases runs.len(),
{
    if runs.len() == 0 {
        0
    } else {
        total(runs.drop_last()) + runs.last()
    }
}

/// The least number of springs that a row must have to show `runs`: the
/// springs of the runs and one operational spring between each two of them.
pub open spec fn least_length(runs: Seq<nat>) -> int {
    total(runs) + (runs.len() - 1)
}

/// Whether no spring of `cells` is known to be damaged.
pub open spec fn none_damaged(cells: Seq<Status>) -> bool {
    forall|i: int| 0 <= i < cells.len() ==> #[trigger] cells[i] != Status::Damaged
}

/// Whether every spring of `cells` is unknown.
pub open spec fn all_unknown(cells: Seq<Status>) -> bool {
    forall|i: int| 0 <= i < cells.len() ==> #[trigger] cells[i] == Status::Unknown
}

/// A record without runs has one arrangement if none of its springs is known
/// to be damaged, and none otherwise.
pub proof fn lemma_no_runs(cells: Seq<Status>)
    ensures
        arrangement_set(cells, Seq::empty()).len() == (if none_damaged(cells) {
            1nat
        } else {
            0nat
        }),
        arrangements(cells, Seq::empty()) == (if none_damaged(cells) {
            1nat
        } else {
            0nat
        }),
    decreases cells.len(),
{
    lemma_arrangements_counted(cells, Seq::empty());
    if cells.len() == 0 {
        assert(run_lengths(Seq::<bool>::empty()) =~= Seq::<nat>::empty());
    } else {
        let rest = cells.drop_last();
        lemma_arrangements_step(cells, Seq::empty());
        lemma_no_runs(rest);
        if none_damaged(cells) {
            assert(cells.last() != Status::Damaged);
            assert forall|i: int| 0 <= i < rest.len() implies #[trigger] rest[i]
                != Status::Damaged by {
                assert(rest[i] == cells[i]);
            }
        } else if admits(cells.last(), false) && none_damaged(rest) {
            assert forall|i: int| 0 <= i < cells.len() implies #[trigger] cells[i]
                != Status::Damaged by {
                if i < rest.len() {
                    assert(rest[i] == cells[i]);
                }
            }
        }
    }
}

/// A record without springs but with at least one run has no arrangement.
pub proof fn lemma_no_cells(runs: Seq<nat>)
    requires
        runs.len() > 0,
    ensures
        arrangement_set(Seq::empty(), runs).len() == 0,
        arrangements(Seq::empty(), runs) == 0,
{
    lemma_arrangements_counted(Seq::empty(), runs);
    assert(run_lengths(Seq::<bool>::empty()) =~= Seq::<nat>::empty());
}

/// A record whose runs, with one operational spring between each two of them,
/// need more springs than the row has, has no arrangement.
pub proof fn lemma_too_short(cells: Seq<Status>, runs: Seq<nat>)
    requires
        least_length(runs) > cells.len(),
    ensures
        arrangement_set(cells, runs).len() == 0,
        arrangements(cells, runs) == 0,
    decreases cells.len(),
{
    lemma_arrangements_counted(cells, runs);
    assert(runs.len() > 0);
    if cells.len() == 0 {
        lemma_no_cells(runs);
    } else {
        let n = cells.len() as int;
        let len = runs.last();
        let before = runs.drop_last();
        lemma_arrangements_step(cells, runs);
        lemma_too_short(cells.drop_last(), runs);
        if len >= 1 && n >= len {
            assert(before.len() > 0) by {
                if before.len() == 0 {
                    assert(total(before) == 0);
                }
            }
            if n == len {
                lemma_no_cells(before);
            } else {
                lemma_too_short(cells.take(n - len - 1), before);
            }
        }
    }
}

/// A row of `n` unknown springs shows a single run of length `len`, with
/// `1 <= len <= n`, in `n - len + 1` arrangements.
pub proof fn lemma_single_run(cells: Seq<Status>, len: nat)
    requires
        all_unknown(cells),
        1 <= len <= cells.len(),
    ensures
        arrangement_set(cells, seq![len]).len() == cells.len() - len + 1,
        arrangements(cells, seq![len]) == cells.len() - len + 1,
    decreases cells.len(),
{
    lemma_arrangements_counted(cells, seq![len]);
    let n = cells.len() as int;
    let runs = seq![len];
    let rest = cells.drop_last();
    let none = Seq::<nat>::empty();
    lemma_arrangements_step(cells, runs);
    assert(runs.drop_last() =~= none);
    assert(runs.last() == len);
    assert(total(runs) == len) by {
        assert(total(none) == 0);
    }
    assert(all_unknown(rest)) by {
        assert forall|i: int| 0 <= i < rest.len() implies #[trigger] rest[i]
            == Status::Unknown by {
            assert(rest[i] == cells[i]);
        }
    }
    // The arrangements in which the run ends before the last spring.
    if n > len {
        lemma_single_run(rest, len);
    } else {
        lemma_too_short(rest, runs);
    }
    // The one arrangement in which the run ends with the last spring.
    assert(may_all_be_damaged(cells, n - len, n));
    if n == len {
        lemma_no_runs(Seq::<Status>::empty());
    } else {
        let front = cells.take(n - len - 1);
        assert(none_damaged(front)) by {
            assert forall|i: int| 0 <= i < front.len() implies #[trigger] front[i]
                != Status::Damaged by {
                assert(front[i] == cells[i]);
            }
        }
        lemma_no_runs(front);
    }
    assert(closing(cells, len, none) == 1);
}


/// A record that is not well formed, which asks for a run without a spring,
/// has no arrangement.
pub proof fn lemma_empty_run(cells: Seq<Status>, runs: Seq<nat>)
    requires
        !(Record { cells, runs }).well_formed(),
    ensures
        arrangement_set(cells, runs).len() == 0,
        arrangements(cells, runs) == 0,
{
    lemma_arrangements_counted(cells, runs);
    let none = Seq::<bool>::empty();
    let k = choose|k: int| 0 <= k < runs.len() && !(#[trigger] runs[k] >= 1);
    assert forall|p: Seq<bool>| !#[trigger] shows(p, none, runs) by {
        lemma_run_lengths_positive(p + none);
        if run_lengths(p + none) == runs {
            assert(run_lengths(p + none)[k] >= 1);
        }
    }
    lemma_resolutions_none(cells, none, runs);
}

} // verus!
