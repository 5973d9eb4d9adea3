//! Ranking by weight: which positions of a list of weights are kept, and in
//! what order they come out.

use vstd::prelude::*;
use vstd::seq_lib::{lemma_multiset_commutative, to_multiset_build};
use crate::chunker::Chunk;

verus! {

/// Whether position `a` comes before position `b` in the ranking: its weight
/// is greater, or the weights are equal and `a` is the earlier position.
pub open spec fn precedes(weights: Seq<u32>, a: usize, b: usize) -> bool {
    weights[a as int] > weights[b as int] || (weights[a as int] == weights[b as int] && a < b)
}

/// Whether `order` is the ranking of `weights`: it holds the positions with a
/// weight above zero, each once, the greater weight first and, among equal
/// weights, the earlier position first.
pub open spec fn is_ranking(weights: Seq<u32>, order: Seq<usize>) -> bool {
    &&& forall|k: int|
        0 <= k < order.len() ==> (#[trigger] order[k]) < weights.len() && weights[order[k] as int]
            > 0
    &&& forall|i: int|
        0 <= i < weights.len() && #[trigger] weights[i] > 0 ==> exists|k: int|
            0 <= k < order.len() && #[trigger] order[k] == i
    &&& forall|a: int, b: int|
        0 <= a < b < order.len() ==> precedes(weights, #[trigger] order[a], #[trigger] order[b])
}

/// The ranking of `weights`. There is exactly one; see
/// `lemma_ranking_unique`.
pub open spec fn ranking_of(weights: Seq<u32>) -> Seq<usize> {
    choose|order: Seq<usize>| is_ranking(weights, order)
}

/// Whether every item of `items` is a position of `weights`.
pub open spec fn in_range(weights: Seq<u32>, items: Seq<usize>) -> bool {
    forall|k: int| 0 <= k < items.len() ==> (#[trigger] items[k]) < weights.len()
}

/// Whether no item of `items` comes before an item that stands earlier.
pub open spec fn in_order(weights: Seq<u32>, items: Seq<usize>) -> bool {
    forall|a: int, b: int|
        0 <= a < b < items.len() ==> !precedes(weights, #[trigger] items[b], #[trigger] items[a])
}

/// Two rankings of the same weights agree up to position `k`.
proof fn lemma_rankings_agree(weights: Seq<u32>, first: Seq<usize>, second: Seq<usize>, k: int)
    requires
        is_ranking(weights, first),
        is_ranking(weights, second),
        0 <= k < first.len(),
        0 <= k < second.len(),
    ensures
        forall|j: int| 0 <= j <= k ==> first[j] == second[j],
    decreases k,
{
    if k > 0 {
        lemma_rankings_agree(weights, first, second, k - 1);
    }
    if first[k] != second[k] {
        let x = first[k];
        let y = second[k];
        assert(weights[x as int] > 0);
        let m = choose|m: int| 0 <= m < second.len() && second[m] == x as int;
        assert(weights[y as int] > 0);
        let n = choose|n: int| 0 <= n < first.len() && first[n] == y as int;
        if m < k {
            assert(precedes(weights, first[m], first[k]));
        } else if n < k {
            assert(precedes(weights, second[n], second[k]));
        } else {
            assert(precedes(weights, second[k], second[m]));
            assert(precedes(weights, first[k], first[n]));
        }
    }
}

/// One ranking is not longer than another of the same weights.
proof fn lemma_ranking_not_longer(weights: Seq<u32>, first: Seq<usize>, second: Seq<usize>)
    requires
        is_ranking(weights, first),
        is_ranking(weights, second),
    ensures
        first.len() <= second.len(),
{
    if first.len() > second.len() {
        let k = second.len() as int;
        let x = first[k];
        assert(weights[x as int] > 0);
        let m = choose|m: int| 0 <= m < second.len() && second[m] == x as int;
        lemma_rankings_agree(weights, first, second, m);
        assert(precedes(weights, first[m], first[k]));
    }
}

/// A list of weights has one ranking only.
pub proof fn lemma_ranking_unique(weights: Seq<u32>, first: Seq<usize>, second: Seq<usize>)
    requires
        is_ranking(weights, first),
        is_ranking(weights, second),
    ensures
        first == second,
{
    lemma_ranking_not_longer(weights, first, second);
    lemma_ranking_not_longer(weights, second, first);
    if first.len() > 0 {
        lemma_rankings_agree(weights, first, second, first.len() - 1);
    }
    assert(first =~= second);
}

/// Merges two lists that are in order into one.
fn merge(weights: &[u32], left: &Vec<usize>, right: &Vec<usize>) -> (merged: Vec<usize>)
    requires
        in_range(weights@, left@),
        in_range(weights@, right@),
        in_order(weights@, left@),
        in_order(weights@, right@),
    ensures
        in_range(weights@, merged@),
        in_order(weights@, merged@),
        merged@.to_multiset() == left@.to_multiset().add(right@.to_multiset()),
{
    let mut merged: Vec<usize> = Vec::new();
    let mut i: usize = 0;
    let mut j: usize = 0;
    proof {
        let none = Seq::<usize>::empty();
        none.to_multiset_ensures();
        vstd::multiset::lemma_multiset_empty_len(none.to_multiset());
        assert(left@.take(0) == none);
        assert(right@.take(0) == none);
        assert(merged@ == none);
        assert(none.to_multiset().add(none.to_multiset()) =~= none.to_multiset());
    }
    while i < left.len() || j < right.len()
        invariant
            0 <= i <= left.len(),
            0 <= j <= right.len(),
            in_range(weights@, left@),
            in_range(weights@, right@),
            in_order(weights@, left@),
            in_order(weights@, right@),
            in_range(weights@, merged@),
            in_order(weights@, merged@),
            merged@.to_multiset() == left@.take(i as int).to_multiset().add(
                right@.take(j as int).to_multiset(),
            ),
            forall|k: int|
                0 <= k < merged.len() && i < left.len() ==> !precedes(
                    weights@,
                    left@[i as int],
                    #[trigger] merged@[k],
                ),
            forall|k: int|
                0 <= k < merged.len() && j < right.len() ==> !precedes(
                    weights@,
                    right@[j as int],
                    #[trigger] merged@[k],
                ),
        decreases left.len() - i + right.len() - j,
    {
        let take_left = if i >= left.len() {
            false
        } else if j >= right.len() {
            true
        } else {
            let l = left[i];
            let r = right[j];
            !(weights[r] > weights[l] || (weights[r] == weights[l] && r < l))
        };
        if take_left {
            let item = left[i];
            proof {
                to_multiset_build(left@.take(i as int), item);
                assert(left@.take(i + 1) == left@.take(i as int).push(item));
                to_multiset_build(merged@, item);
                assert(left@.take(i as int).to_multiset().insert(item).add(
                    right@.take(j as int).to_multiset(),
                ) =~= left@.take(i as int).to_multiset().add(
                    right@.take(j as int).to_multiset(),
                ).insert(item));
            }
            merged.push(item);
            i = i + 1;
        } else {
            let item = right[j];
            proof {
                to_multiset_build(right@.take(j as int), item);
                assert(right@.take(j + 1) == right@.take(j as int).push(item));
                to_multiset_build(merged@, item);
                assert(left@.take(i as int).to_multiset().add(
                    right@.take(j as int).to_multiset().insert(item),
                ) =~= left@.take(i as int).to_multiset().add(
                    right@.take(j as int).to_multiset(),
                ).insert(item));
            }
            merged.push(item);
            j = j + 1;
        }
    }
    proof {
        assert(left@.take(left.len() as int) == left@);
        assert(right@.take(right.len() as int) == right@);
    }
    merged
}

/// Puts the items of `items` from `lo` up to `hi` in order, by merging.
fn sort_range(weights: &[u32], items: &Vec<usize>, lo: usize, hi: usize) -> (sorted: Vec<usize>)
    requires
        lo <= hi <= items.len(),
        in_range(weights@, items@),
    ensures
        in_range(weights@, sorted@),
        in_order(weights@, sorted@),
        sorted@.to_multiset() == items@.subrange(lo as int, hi as int).to_multiset(),
    decreases hi - lo,
{
    if hi - lo <= 1 {
        let mut sorted: Vec<usize> = Vec::new();
        if lo < hi {
            proof {
                to_multiset_build(sorted@, items@[lo as int]);
                assert(sorted@.push(items@[lo as int]) == items@.subrange(lo as int, hi as int));
            }
            sorted.push(items[lo]);
        } else {
            assert(sorted@ == items@.subrange(lo as int, hi as int));
        }
        sorted
    } else {
        let mid = lo + (hi - lo) / 2;
        let left = sort_range(weights, items, lo, mid);
        let right = sort_range(weights, items, mid, hi);
        proof {
            lemma_multiset_commutative(
                items@.subrange(lo as int, mid as int),
                items@.subrange(mid as int, hi as int),
            );
            assert(items@.subrange(lo as int, mid as int) + items@.subrange(mid as int, hi as int)
                == items@.subrange(lo as int, hi as int));
        }
        merge(weights, &left, &right)
    }
}

/// Ranks the positions of `weights`: those with a weight above zero, the
/// greater weight first and, among equal weights, the earlier position
/// first.
pub fn ranking(weights: &[u32]) -> (order: Vec<usize>)
    ensures
        is_ranking(weights@, order@),
        order@ == ranking_of(weights@),
{
    let mut kept: Vec<usize> = Vec::new();
    let mut i: usize = 0;
    while i < weights.len()
        invariant
            0 <= i <= weights.len(),
            forall|k: int|
                0 <= k < kept.len() ==> (#[trigger] kept@[k]) < i && weights@[kept@[k] as int] > 0,
            forall|a: int, b: int| 0 <= a < b < kept.len() ==> kept@[a] < kept@[b],
            forall|p: usize| p < i && weights@[p as int] > 0 ==> kept@.contains(p),
        decreases weights.len() - i,
    {
        if weights[i] > 0 {
            let ghost before = kept@;
            kept.push(i);
            proof {
                assert(kept@[before.len() as int] == i);
                assert forall|p: usize| p < i + 1 && weights@[p as int] > 0 implies kept@.contains(
                    p,
                ) by {
                    if p < i {
                        assert(before.contains(p));
                        let at = choose|at: int| 0 <= at < before.len() && before[at] == p;
                        assert(kept@[at] == p);
                    }
                }
            }
        }
        i = i + 1;
    }
    let order = sort_range(weights, &kept, 0, kept.len());
    proof {
        assert(kept@.subrange(0, kept.len() as int) == kept@);
        kept@.to_multiset_ensures();
        order@.to_multiset_ensures();
        assert(kept@.no_duplicates());
        kept@.lemma_multiset_has_no_duplicates();
        order@.lemma_multiset_has_no_duplicates_conv();
        assert forall|k: int| 0 <= k < order@.len() implies (#[trigger] order@[k]) < weights@.len()
            && weights@[order@[k] as int] > 0 by {
            assert(order@.contains(order@[k]));
            assert(order@.to_multiset().count(order@[k]) > 0);
            assert(kept@.contains(order@[k]));
        }
        assert forall|i: int| 0 <= i < weights@.len() && #[trigger] weights@[i] > 0 implies exists|
            k: int,
        |
            0 <= k < order@.len() && #[trigger] order@[k] == i by {
            let p = i as usize;
            assert(kept@.contains(p));
            assert(kept@.to_multiset().count(p) > 0);
            assert(order@.contains(p));
            let k = choose|k: int| 0 <= k < order@.len() && order@[k] == p;
            assert(order@[k] == i);
        }
        assert(is_ranking(weights@, order@));
        lemma_ranking_unique(weights@, order@, ranking_of(weights@));
    }
    order
}

/// The weights of a sequence of chunks with weights.
pub open spec fn weights_of(scored: Seq<(Chunk, u32)>) -> Seq<u32> {
    Seq::new(scored.len(), |i: int| scored[i].1)
}

/// Keeps the chunks with a weight above zero and puts them in order: the
/// greater weight first and, among equal weights, the chunk that stood
/// earlier first.
pub fn rank_scored_chunks(scored: &[(Chunk, u32)]) -> (ranked: Vec<(Chunk, u32)>)
    ensures
        is_ranking(weights_of(scored@), ranking_of(weights_of(scored@))),
        ranked@.len() == ranking_of(weights_of(scored@)).len(),
        forall|k: int|
            0 <= k < ranked@.len() ==> #[trigger] ranked@[k] == scored@[ranking_of(
                weights_of(scored@),
            )[k] as int],
        forall|k: int| 0 <= k < ranked@.len() ==> (#[trigger] ranked@[k]).1 > 0,
        forall|a: int, b: int|
            0 <= a < b < ranked@.len() ==> (#[trigger] ranked@[a]).1 >= (#[trigger] ranked@[b]).1,
        forall|i: int|
            0 <= i < scored@.len() && (#[trigger] scored@[i]).1 > 0 ==> exists|k: int|
                0 <= k < ranked@.len() && #[trigger] ranked@[k] == scored@[i],
{
    let mut weights: Vec<u32> = Vec::new();
    let mut i: usize = 0;
    while i < scored.len()
        invariant
            0 <= i <= scored.len(),
            weights@ == weights_of(scored@).take(i as int),
        decreases scored.len() - i,
    {
        weights.push(scored[i].1);
        proof {
            assert(weights@ == weights_of(scored@).take(i + 1));
        }
        i = i + 1;
    }
    proof {
        assert(weights_of(scored@).take(scored.len() as int) == weights_of(scored@));
    }
    let order = ranking(weights.as_slice());
    let mut ranked: Vec<(Chunk, u32)> = Vec::new();
    let mut k: usize = 0;
    while k < order.len()
        invariant
            0 <= k <= order.len(),
            ranked@.len() == k,
            weights@ == weights_of(scored@),
            is_ranking(weights@, order@),
            forall|n: int| 0 <= n < k ==> #[trigger] ranked@[n] == scored@[order@[n] as int],
        decreases order.len() - k,
    {
        let at = order[k];
        ranked.push((scored[at].0.clone(), scored[at].1));
        k = k + 1;
    }
    proof {
        assert forall|a: int, b: int| 0 <= a < b < ranked@.len() implies (#[trigger] ranked@[a]).1
            >= (#[trigger] ranked@[b]).1 by {
            assert(precedes(weights@, order@[a], order@[b]));
        }
        assert forall|i: int| 0 <= i < scored@.len() && (#[trigger] scored@[i]).1 > 0 implies exists|
            k: int,
        |
            0 <= k < ranked@.len() && #[trigger] ranked@[k] == scored@[i] by {
            assert(weights@[i] > 0);
            let k = choose|k: int| 0 <= k < order@.len() && order@[k] == i;
            assert(ranked@[k] == scored@[i]);
        }
    }
    ranked
}

} // verus!
