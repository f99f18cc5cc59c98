//! Sums of results of which some may be missing.

use vstd::prelude::*;

verus! {

/// The sum of `items`, if none of them is missing.
pub open spec fn sum_all(items: Seq<Option<nat>>) -> Option<nat>
    decreases items.len(),
{
    if items.len() == 0 {
        Some(0)
    } else {
        match (sum_all(items.drop_last()), items.last()) {
            (Some(a), Some(b)) => Some(a + b),
            _ => None,
        }
    }
}

/// Where all of `items` are there, so are the first `k` of them, and they sum
/// to no more.
pub proof fn lemma_sum_all_grows(items: Seq<Option<nat>>, k: int)
    requires
        0 <= k <= items.len(),
        sum_all(items) is Some,
    ensures
        sum_all(items.take(k)) is Some,
        sum_all(items.take(k))->0 <= sum_all(items)->0,
        forall|i: int| 0 <= i < items.len() ==> (#[trigger] items[i]) is Some,
    decreases items.len(),
{
    if items.len() == 0 {
        assert(items.take(k) =~= items);
    } else if k == items.len() {
        assert(items.take(k) =~= items);
        lemma_sum_all_grows(items.drop_last(), k - 1);
        assert forall|i: int| 0 <= i < items.len() implies (#[trigger] items[i]) is Some by {
            if i < items.len() - 1 {
                assert(items.drop_last()[i] is Some);
            }
        }
    } else {
        lemma_sum_all_grows(items.drop_last(), k);
        assert(items.drop_last().take(k) =~= items.take(k));
        assert forall|i: int| 0 <= i < items.len() implies (#[trigger] items[i]) is Some by {
            if i < items.len() - 1 {
                assert(items.drop_last()[i] is Some);
            }
        }
    }
}

/// The sum of the first `k + 1` items from the sum of the first `k`.
pub proof fn lemma_sum_all_step(items: Seq<Option<nat>>, k: int)
    requires
        0 <= k < items.len(),
    ensures
        sum_all(items.take(k + 1)) == (match (sum_all(items.take(k)), items[k]) {
            (Some(a), Some(b)) => Some(a + b),
            _ => None,
        }),
{
    assert(items.take(k + 1).drop_last() =~= items.take(k));
}


/// `total`, if it is there and at most `max`.
pub open spec fn within(total: Option<nat>, max: nat) -> Option<nat> {
    match total {
        Some(v) => if v <= max {
            Some(v)
        } else {
            None
        },
        None => None,
    }
}

/// A number of 32 bits that may be missing, as a natural number.
pub open spec fn nat_of(x: Option<u32>) -> Option<nat> {
    match x {
        Some(v) => Some(v as nat),
        None => None,
    }
}

/// A number of 64 bits that may be missing, as a natural number.
pub open spec fn nat_of_64(x: Option<u64>) -> Option<nat> {
    match x {
        Some(v) => Some(v as nat),
        None => None,
    }
}

/// Where the first `k` items have no sum of at most `max`, neither have all.
pub proof fn lemma_sum_all_fails(items: Seq<Option<nat>>, k: int, max: nat)
    requires
        0 <= k <= items.len(),
        within(sum_all(items.take(k)), max) is None,
    ensures
        within(sum_all(items), max) is None,
{
    if sum_all(items) is Some {
        lemma_sum_all_grows(items, k);
    }
}


/// The sum of `items`, if none of them is missing and the sum fits in 32 bits.
pub open spec fn total_u32(items: Seq<Option<u32>>) -> Option<u32> {
    match within(sum_all(Seq::new(items.len(), |i: int| nat_of(items[i]))), u32::MAX as nat) {
        Some(v) => Some(v as u32),
        None => None,
    }
}

/// The sum of `items`, if none of them is missing and the sum fits in 64 bits.
pub open spec fn total_u64(items: Seq<Option<u64>>) -> Option<u64> {
    match within(sum_all(Seq::new(items.len(), |i: int| nat_of_64(items[i]))), u64::MAX as nat) {
        Some(v) => Some(v as u64),
        None => None,
    }
}

/// Sums `items`, if none of them is missing and the sum fits in 32 bits.
pub fn sum_u32(items: &Vec<Option<u32>>) -> (found: Option<u32>)
    ensures
        found == total_u32(items@),
{
    let ghost nats = Seq::new(items@.len(), |i: int| nat_of(items@[i]));
    let mut sum: u32 = 0;
    let mut i: usize = 0;
    assert(nats.take(0) =~= Seq::<Option<nat>>::empty());
    while i < items.len()
        invariant
            i <= items.len(),
            nats == Seq::new(items@.len(), |i: int| nat_of(items@[i])),
            sum_all(nats.take(i as int)) == Some(sum as nat),
        decreases items.len() - i,
    {
        proof {
            lemma_sum_all_step(nats, i as int);
        }
        let next = match items[i] {
            Some(v) => sum.checked_add(v),
            None => None,
        };
        match next {
            Some(v) => {
                sum = v;
            },
            None => {
                proof {
                    lemma_sum_all_fails(nats, i + 1, u32::MAX as nat);
                }
                return None;
            },
        }
        i += 1;
    }
    assert(nats.take(items.len() as int) =~= nats);
    Some(sum)
}

/// Sums `items`, if none of them is missing and the sum fits in 64 bits.
pub fn sum_u64(items: &Vec<Option<u64>>) -> (found: Option<u64>)
    ensures
        found == total_u64(items@),
{
    let ghost nats = Seq::new(items@.len(), |i: int| nat_of_64(items@[i]));
    let mut sum: u64 = 0;
    let mut i: usize = 0;
    assert(nats.take(0) =~= Seq::<Option<nat>>::empty());
    while i < items.len()
        invariant
            i <= items.len(),
            nats == Seq::new(items@.len(), |i: int| nat_of_64(items@[i])),
            sum_all(nats.take(i as int)) == Some(sum as nat),
        decreases items.len() - i,
    {
        proof {
            lemma_sum_all_step(nats, i as int);
        }
        let next = match items[i] {
            Some(v) => sum.checked_add(v),
            None => None,
        };
        match next {
            Some(v) => {
                sum = v;
            },
            None => {
                proof {
                    lemma_sum_all_fails(nats, i + 1, u64::MAX as nat);
                }
                return None;
            },
        }
        i += 1;
    }
    assert(nats.take(items.len() as int) =~= nats);
    Some(sum)
}


/// Where all of `items` are there, each of them is at most their sum.
pub proof fn lemma_sum_all_bounds(items: Seq<Option<nat>>, k: int)
    requires
        0 <= k < items.len(),
        sum_all(items) is Some,
    ensures
        items[k] is Some,
        items[k]->0 <= sum_all(items)->0,
{
    lemma_sum_all_grows(items, k + 1);
    lemma_sum_all_step(items, k);
}


/// A machine-sized number that may be missing, as a natural number.
pub open spec fn nat_of_usize(x: Option<usize>) -> Option<nat> {
    match x {
        Some(v) => Some(v as nat),
        None => None,
    }
}

/// The sum of `items`, if none of them is missing and the sum fits in a
/// machine-sized number.
pub open spec fn total_usize(items: Seq<Option<usize>>) -> Option<usize> {
    match within(
        sum_all(Seq::new(items.len(), |i: int| nat_of_usize(items[i]))),
        usize::MAX as nat,
    ) {
        Some(v) => Some(v as usize),
        None => None,
    }
}

/// Sums `items`, if none of them is missing and the sum fits in a
/// machine-sized number.
pub fn sum_usize(items: &Vec<Option<usize>>) -> (found: Option<usize>)
    ensures
        found == total_usize(items@),
{
    let ghost nats = Seq::new(items@.len(), |i: int| nat_of_usize(items@[i]));
    let mut sum: usize = 0;
    let mut i: usize = 0;
    assert(nats.take(0) =~= Seq::<Option<nat>>::empty());
    while i < items.len()
        invariant
            i <= items.len(),
            nats == Seq::new(items@.len(), |i: int| nat_of_usize(items@[i])),
            sum_all(nats.take(i as int)) == Some(sum as nat),
        decreases items.len() - i,
    {
        proof {
            lemma_sum_all_step(nats, i as int);
        }
        let next = match items[i] {
            Some(v) => sum.checked_add(v),
            None => None,
        };
        match next {
            Some(v) => {
                sum = v;
            },
            None => {
                proof {
                    lemma_sum_all_fails(nats, i + 1, usize::MAX as nat);
                }
                return None;
            },
        }
        i += 1;
    }
    assert(nats.take(items.len() as int) =~= nats);
    Some(sum)
}


/// The sum of `items`, if none of them is missing and the sum is at most
/// `max`.
pub open spec fn total_within(items: Seq<Option<u64>>, max: nat) -> Option<u64> {
    match within(sum_all(Seq::new(items.len(), |i: int| nat_of_64(items[i]))), max) {
        Some(v) => Some(v as u64),
        None => None,
    }
}

/// Sums `items`, if none of them is missing and the sum is at most `max`.
pub fn sum_within(items: &Vec<Option<u64>>, max: u64) -> (found: Option<u64>)
    ensures
        found == total_within(items@, max as nat),
{
    let ghost nats = Seq::new(items@.len(), |i: int| nat_of_64(items@[i]));
    let mut sum: u64 = 0;
    let mut i: usize = 0;
    assert(nats.take(0) =~= Seq::<Option<nat>>::empty());
    while i < items.len()
        invariant
            i <= items.len(),
            nats == Seq::new(items@.len(), |i: int| nat_of_64(items@[i])),
            sum_all(nats.take(i as int)) == Some(sum as nat),
            sum <= max,
        decreases items.len() - i,
    {
        proof {
            lemma_sum_all_step(nats, i as int);
        }
        let next = match items[i] {
            Some(v) => sum.checked_add(v),
            None => None,
        };
        match next {
            Some(v) => {
                if v > max {
                    proof {
                        lemma_sum_all_fails(nats, i + 1, max as nat);
                    }
                    return None;
                }
                sum = v;
            },
            None => {
                proof {
                    lemma_sum_all_fails(nats, i + 1, max as nat);
                }
                return None;
            },
        }
        i += 1;
    }
    assert(nats.take(items.len() as int) =~= nats);
    Some(sum)
}

} // verus!
