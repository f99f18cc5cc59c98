use itertools::Itertools;
use vstd::prelude::*;

verus! {

/// The pairs of the item at place `i` of `s` with each item behind it and in
/// front of place `j`, in order.
pub open spec fn pairs_with(s: Seq<(usize, usize)>, i: int, j: int) -> Seq<Seq<(usize, usize)>>
    decreases j - i,
{
    if i < 0 || j <= i + 1 || j > s.len() {
        Seq::empty()
    } else {
        pairs_with(s, i, j - 1).push(seq![s[i], s[j - 1]])
    }
}

/// The pairs of two items of `s` of which the first stands in front of place
/// `i` and the second behind the first: ordered by the place of the first
/// item, and then by the place of the second.
pub open spec fn all_pairs(s: Seq<(usize, usize)>, i: int) -> Seq<Seq<(usize, usize)>>
    decreases i,
{
    if i <= 0 {
        Seq::empty()
    } else {
        all_pairs(s, i - 1) + pairs_with(s, i - 1, s.len() as int)
    }
}

/// The contents of a list of pairs.
pub open spec fn pair_views(pairs: Seq<Vec<(usize, usize)>>) -> Seq<Seq<(usize, usize)>> {
    Seq::new(pairs.len(), |i: int| pairs[i]@)
}

/// All pairs of two of `items`, by `Itertools::combinations` with a length of
/// two, gathered into a list by `Itertools::collect_vec`.
///
/// Not proved: that the combinations come in the order of the places of their
/// items, the first item first, each as a list of its two items in the order
/// in which they stand in `items`.
#[verifier::external_body]
pub(crate) fn pairs_of(items: Vec<(usize, usize)>) -> (pairs: Vec<Vec<(usize, usize)>>)
    ensures
        pair_views(pairs@) == all_pairs(items@, items@.len() as int),
{
    items.into_iter().combinations(2).collect_vec()
}

/// Every pair has two items.
pub proof fn lemma_pairs_have_two(s: Seq<(usize, usize)>, i: int, k: int)
    requires
        0 <= k < all_pairs(s, i).len(),
    ensures
        all_pairs(s, i)[k].len() == 2,
    decreases i,
{
    if i > 0 {
        if k < all_pairs(s, i - 1).len() {
            lemma_pairs_have_two(s, i - 1, k);
        } else {
            lemma_pairs_with_have_two(s, i - 1, s.len() as int, k - all_pairs(s, i - 1).len());
        }
    }
}

/// Every pair of one item with an item behind it has two items.
proof fn lemma_pairs_with_have_two(s: Seq<(usize, usize)>, i: int, j: int, k: int)
    requires
        0 <= k < pairs_with(s, i, j).len(),
    ensures
        pairs_with(s, i, j)[k].len() == 2,
    decreases j - i,
{
    if i >= 0 && j > i + 1 && j <= s.len() {
        if k < pairs_with(s, i, j - 1).len() {
            lemma_pairs_with_have_two(s, i, j - 1, k);
        }
    }
}

} // verus!
