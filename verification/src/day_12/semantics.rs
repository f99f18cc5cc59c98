use vstd::prelude::*;
use vstd::relations::injective_on;
use vstd::set_lib::{lemma_map_size, lemma_set_disjoint_lens};
use crate::day_12::arrangements::{admits, arrangements, resolutions, run_lengths};
use crate::day_12::record::Status;

verus! {

/// Whether `a` resolves `cells`: it says of each spring whether it is damaged,
/// and of no spring against what is known of it.
pub open spec fn resolves(cells: Seq<Status>, a: Seq<bool>) -> bool {
    a.len() == cells.len() && forall|i: int|
        0 <= i < cells.len() ==> admits(cells[i], #[trigger] a[i])
}

/// Whether `a` is an arrangement of a record: it resolves the springs, and
/// its runs of damaged springs have exactly the lengths `runs`, in order.
pub open spec fn is_arrangement(cells: Seq<Status>, runs: Seq<nat>, a: Seq<bool>) -> bool {
    resolves(cells, a) && run_lengths(a) == runs
}

/// The arrangements of a record. Two arrangements are different if they
/// differ in any spring.
pub open spec fn arrangement_set(cells: Seq<Status>, runs: Seq<nat>) -> Set<Seq<bool>> {
    Set::new(|a: Seq<bool>| is_arrangement(cells, runs, a))
}

/// The resolutions of `cells` that, followed by `tail`, show the runs `runs`.
pub open spec fn completions(cells: Seq<Status>, tail: Seq<bool>, runs: Seq<nat>) -> Set<
    Seq<bool>,
> {
    Set::new(|p: Seq<bool>| resolves(cells, p) && run_lengths(p + tail) == runs)
}

/// The resolution `q` with the spring `b` behind it.
pub open spec fn with_last(b: bool) -> spec_fn(Seq<bool>) -> Seq<bool> {
    |q: Seq<bool>| q.push(b)
}

/// The completions of a row by their last spring: those of the row without
/// its last spring, with that spring resolved as `b`, each followed by `b`.
proof fn lemma_completions_split(
    cells: Seq<Status>,
    tail: Seq<bool>,
    runs: Seq<nat>,
    b: bool,
)
    requires
        cells.len() > 0,
    ensures
        forall|p: Seq<bool>|
            #![trigger completions(cells, tail, runs).contains(p)]
            completions(cells, tail, runs).contains(p) && p.last() == b <==> admits(
                cells.last(),
                b,
            ) && completions(cells.drop_last(), seq![b] + tail, runs).map(with_last(b)).contains(
                p,
            ),
        injective_on(with_last(b), completions(cells.drop_last(), seq![b] + tail, runs)),
{
    let rest = cells.drop_last();
    let whole = completions(cells, tail, runs);
    let part = completions(rest, seq![b] + tail, runs);
    let n = cells.len() as int;
    assert forall|p: Seq<bool>| #![trigger whole.contains(p)]
        whole.contains(p) && p.last() == b implies admits(cells.last(), b) && part.map(
            with_last(b),
        ).contains(p) by {
        let q = p.drop_last();
        assert(p =~= q.push(b));
        assert(admits(cells[n - 1], p[n - 1]));
        assert forall|i: int| 0 <= i < rest.len() implies admits(rest[i], #[trigger] q[i]) by {
            assert(admits(cells[i], p[i]));
        }
        assert(q + (seq![b] + tail) =~= p + tail);
        assert(part.contains(q));
        assert(with_last(b)(q) == p);
    }
    assert forall|p: Seq<bool>| #![trigger whole.contains(p)]
        admits(cells.last(), b) && part.map(with_last(b)).contains(p) implies whole.contains(p)
        && p.last() == b by {
        let q = choose|q: Seq<bool>| part.contains(q) && p == with_last(b)(q);
        assert(p == q.push(b));
        assert forall|i: int| 0 <= i < cells.len() implies admits(cells[i], #[trigger] p[i]) by {
            if i < n - 1 {
                assert(admits(rest[i], q[i]));
            }
        }
        assert(q + (seq![b] + tail) =~= p + tail);
    }
    assert forall|q1: Seq<bool>, q2: Seq<bool>|
        part.contains(q1) && part.contains(q2) && #[trigger] with_last(b)(q1)
            == #[trigger] with_last(b)(q2) implies q1 == q2 by {
        assert(q1.push(b).drop_last() =~= q1);
        assert(q2.push(b).drop_last() =~= q2);
    }
}

/// The completions of a row are as many as its resolutions are counted.
pub proof fn lemma_completions_counted(cells: Seq<Status>, tail: Seq<bool>, runs: Seq<nat>)
    ensures
        completions(cells, tail, runs).finite(),
        completions(cells, tail, runs).len() == resolutions(cells, tail, runs),
    decreases cells.len(),
{
    let whole = completions(cells, tail, runs);
    if cells.len() == 0 {
        let none = Seq::<bool>::empty();
        assert(none + tail =~= tail);
        if run_lengths(tail) == runs {
            assert(whole =~= set![none]) by {
                assert forall|p: Seq<bool>| whole.contains(p) implies p == none by {
                    assert(p =~= none);
                }
            }
        } else {
            assert(whole =~= Set::<Seq<bool>>::empty()) by {
                assert forall|p: Seq<bool>| !whole.contains(p) by {
                    if whole.contains(p) {
                        assert(p =~= none);
                    }
                }
            }
        }
    } else {
        let rest = cells.drop_last();
        let damaged = completions(rest, seq![true] + tail, runs);
        let operational = completions(rest, seq![false] + tail, runs);
        lemma_completions_counted(rest, seq![true] + tail, runs);
        lemma_completions_counted(rest, seq![false] + tail, runs);
        lemma_completions_split(cells, tail, runs, true);
        lemma_completions_split(cells, tail, runs, false);
        let with_damaged = if admits(cells.last(), true) {
            damaged.map(with_last(true))
        } else {
            Set::<Seq<bool>>::empty()
        };
        let with_operational = if admits(cells.last(), false) {
            operational.map(with_last(false))
        } else {
            Set::<Seq<bool>>::empty()
        };
        lemma_map_size(damaged, damaged.map(with_last(true)), with_last(true));
        lemma_map_size(operational, operational.map(with_last(false)), with_last(false));
        assert(whole =~= with_damaged + with_operational) by {
            assert forall|p: Seq<bool>| whole.contains(p) <==> (with_damaged
                + with_operational).contains(p) by {
                if whole.contains(p) {
                    if p.last() {
                        assert(with_damaged.contains(p));
                    } else {
                        assert(with_operational.contains(p));
                    }
                }
                if with_damaged.contains(p) {
                    assert(whole.contains(p) && p.last() == true);
                }
                if with_operational.contains(p) {
                    assert(whole.contains(p) && p.last() == false);
                }
            }
        }
        assert(with_damaged.disjoint(with_operational)) by {
            assert forall|p: Seq<bool>| !(with_damaged.contains(p) && with_operational.contains(
                p,
            )) by {
                if with_damaged.contains(p) && with_operational.contains(p) {
                    assert(whole.contains(p) && p.last() == true);
                    assert(whole.contains(p) && p.last() == false);
                }
            }
        }
        lemma_set_disjoint_lens(with_damaged, with_operational);
    }
}

/// The number of arrangements of a record, as the counter counts them, is the
/// number of its arrangements.
pub proof fn lemma_arrangements_counted(cells: Seq<Status>, runs: Seq<nat>)
    ensures
        arrangement_set(cells, runs).finite(),
        arrangement_set(cells, runs).len() == arrangements(cells, runs),
{
    let none = Seq::<bool>::empty();
    lemma_completions_counted(cells, none, runs);
    assert(arrangement_set(cells, runs) =~= completions(cells, none, runs)) by {
        assert forall|a: Seq<bool>|
            arrangement_set(cells, runs).contains(a) <==> completions(cells, none, runs).contains(
                a,
            ) by {
            assert(a + none =~= a);
        }
    }
}

} // verus!
