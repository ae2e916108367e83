//! The ranker: the scored pairs in ascending order of score.

use crate::assoc::{as_map, distinct_keys, has_key, lemma_entry, lemma_map_size, place_of};
use crate::model::DocumentView;
use crate::pairs::{pair_score_views, PairScore, PairScores};
use vstd::prelude::*;
use vstd::seq_lib::{
    lemma_multiset_commutative, to_multiset_build, to_multiset_contains, to_multiset_len,
};

verus! {

/// No score is followed, directly or later, by a smaller one.
pub open spec fn ascending(ranking: Seq<((DocumentView, DocumentView), nat)>) -> bool {
    forall|a: int, b: int|
        0 <= a <= b < ranking.len() ==> (#[trigger] ranking[a]).1 <= (#[trigger] ranking[b]).1
}

/// Pairs with equal scores stand in the ranking in the order in which they
/// stand in `entries`.
pub open spec fn ties_keep_order(
    ranking: Seq<((DocumentView, DocumentView), nat)>,
    entries: Seq<((DocumentView, DocumentView), nat)>,
) -> bool {
    forall|a: int, b: int|
        0 <= a < b < ranking.len() && (#[trigger] ranking[a]).1 == (#[trigger] ranking[b]).1
            ==> place_of(entries, ranking[a].0) < place_of(entries, ranking[b].0)
}

/// The places `low`, `low + 1`, up to but without `high`.
pub open spec fn places(low: nat, high: nat) -> Seq<usize> {
    Seq::new((high - low) as nat, |i: int| (low + i) as usize)
}

/// Every place named by `order` lies from `low` up to but without `high`.
pub open spec fn within(order: Seq<usize>, low: nat, high: nat) -> bool {
    forall|i: int| 0 <= i < order.len() ==> low <= (#[trigger] order[i]) < high
}

/// The score of the entry at `place`.
pub open spec fn score_at(entries: Seq<PairScore>, place: usize) -> u128 {
    entries[place as int].score
}

/// The order of the ranking on places: by score, and by place where the
/// scores are equal.
pub open spec fn comes_before(entries: Seq<PairScore>, first: usize, second: usize) -> bool {
    score_at(entries, first) < score_at(entries, second) || (score_at(entries, first) == score_at(
        entries,
        second,
    ) && first < second)
}

/// Each place named by `order` comes before those named behind it.
pub open spec fn ordered(order: Seq<usize>, entries: Seq<PairScore>) -> bool {
    forall|a: int, b: int|
        0 <= a < b < order.len() ==> comes_before(entries, #[trigger] order[a], #[trigger] order[b])
}

/// Each place named by `order` comes before `next`.
pub open spec fn all_before(order: Seq<usize>, entries: Seq<PairScore>, next: usize) -> bool {
    forall|k: int| 0 <= k < order.len() ==> comes_before(entries, #[trigger] order[k], next)
}

/// A place that all of an order come before may follow it, and what that
/// place comes before, all of the longer order come before.
proof fn lemma_ordered_push(order: Seq<usize>, entries: Seq<PairScore>, next: usize)
    requires
        ordered(order, entries),
        all_before(order, entries, next),
    ensures
        ordered(order.push(next), entries),
        forall|later: usize|
            comes_before(entries, next, later) ==> #[trigger] all_before(
                order.push(next),
                entries,
                later,
            ),
{
    let longer = order.push(next);
    assert forall|a: int, b: int| 0 <= a < b < longer.len() implies comes_before(
        entries,
        #[trigger] longer[a],
        #[trigger] longer[b],
    ) by {
        assert(longer[a] == order[a]);
        if b < order.len() {
            assert(longer[b] == order[b]);
        }
    }
    assert forall|later: usize| comes_before(entries, next, later) implies #[trigger] all_before(
        longer,
        entries,
        later,
    ) by {
        assert forall|k: int| 0 <= k < longer.len() implies comes_before(
            entries,
            #[trigger] longer[k],
            later,
        ) by {
            if k < order.len() {
                assert(longer[k] == order[k]);
                assert(comes_before(entries, order[k], next));
            }
        }
    }
}

/// An order with the members of `places(low, high)` names places from `low`
/// up to but without `high`.
proof fn lemma_members_of_places(order: Seq<usize>, low: nat, high: nat)
    requires
        low <= high <= usize::MAX,
        order.to_multiset() == places(low, high).to_multiset(),
    ensures
        within(order, low, high),
{
    let all = places(low, high);
    assert forall|i: int| 0 <= i < order.len() implies low <= (#[trigger] order[i]) < high by {
        assert(order.contains(order[i]));
        to_multiset_contains(order, order[i]);
        to_multiset_contains(all, order[i]);
        let k = choose|k: int| 0 <= k < all.len() && all[k] == order[i];
        assert(all[k] == (low + k) as usize);
    }
}

/// Merges two ordered runs of places into one. Every place of `left` lies
/// below `middle` and every place of `right` does not, so that of two equal
/// scores the one from `left` comes first.
fn merge(left: &Vec<usize>, right: &Vec<usize>, middle: usize, entries: &Vec<PairScore>) -> (merged:
    Vec<usize>)
    requires
        within(left@, 0, middle as nat),
        within(right@, middle as nat, entries@.len()),
        ordered(left@, entries@),
        ordered(right@, entries@),
    ensures
        ordered(merged@, entries@),
        merged@.to_multiset() == left@.to_multiset().add(right@.to_multiset()),
{
    let mut merged: Vec<usize> = Vec::new();
    let mut i: usize = 0;
    let mut j: usize = 0;
    proof {
        assert(left@.take(0) =~= Seq::<usize>::empty());
        assert(right@.take(0) =~= Seq::<usize>::empty());
        lemma_multiset_commutative(left@.take(0), right@.take(0));
        assert(left@.take(0) + right@.take(0) =~= merged@);
    }
    while i < left.len() || j < right.len()
        invariant
            i <= left.len(),
            j <= right.len(),
            within(left@, 0, middle as nat),
            within(right@, middle as nat, entries@.len()),
            ordered(left@, entries@),
            ordered(right@, entries@),
            ordered(merged@, entries@),
            merged@.to_multiset() == left@.take(i as int).to_multiset().add(
                right@.take(j as int).to_multiset(),
            ),
            i < left.len() ==> all_before(merged@, entries@, left@[i as int]),
            j < right.len() ==> all_before(merged@, entries@, right@[j as int]),
        decreases (left.len() - i) + (right.len() - j),
    {
        let ghost before = merged@;
        let from_left: bool = if i >= left.len() {
            false
        } else if j >= right.len() {
            true
        } else {
            entries[left[i]].score <= entries[right[j]].score
        };
        if from_left {
            let next: usize = left[i];
            merged.push(next);
            proof {
                lemma_ordered_push(before, entries@, next);
                assert(left@.take(i + 1) =~= left@.take(i as int).push(next));
                to_multiset_build(left@.take(i as int), next);
                to_multiset_build(before, next);
                assert(merged@.to_multiset() =~= left@.take(i + 1).to_multiset().add(
                    right@.take(j as int).to_multiset(),
                ));
                if i + 1 < left.len() {
                    assert(comes_before(entries@, left@[i as int], left@[i + 1]));
                }
                if j < right.len() {
                    assert(left@[i as int] < right@[j as int]);
                    assert(comes_before(entries@, next, right@[j as int]));
                }
            }
            i += 1;
        } else {
            let next: usize = right[j];
            merged.push(next);
            proof {
                lemma_ordered_push(before, entries@, next);
                assert(right@.take(j + 1) =~= right@.take(j as int).push(next));
                to_multiset_build(right@.take(j as int), next);
                to_multiset_build(before, next);
                assert(merged@.to_multiset() =~= left@.take(i as int).to_multiset().add(
                    right@.take(j + 1).to_multiset(),
                ));
                if j + 1 < right.len() {
                    assert(comes_before(entries@, right@[j as int], right@[j + 1]));
                }
                if i < left.len() {
                    assert(comes_before(entries@, next, left@[i as int]));
                }
            }
            j += 1;
        }
    }
    proof {
        assert(left@.take(i as int) =~= left@);
        assert(right@.take(j as int) =~= right@);
    }
    merged
}

/// The places from `low` up to but without `high`, ordered by score and,
/// where the scores are equal, by place: a merge sort.
fn sorted_places(low: usize, high: usize, entries: &Vec<PairScore>) -> (order: Vec<usize>)
    requires
        low <= high <= entries.len(),
    ensures
        ordered(order@, entries@),
        order@.to_multiset() == places(low as nat, high as nat).to_multiset(),
    decreases high - low,
{
    if high - low == 0 {
        let order: Vec<usize> = Vec::new();
        assert(order@ =~= places(low as nat, high as nat));
        order
    } else if high - low == 1 {
        let mut order: Vec<usize> = Vec::new();
        order.push(low);
        assert(order@ =~= places(low as nat, high as nat));
        order
    } else {
        let middle: usize = low + (high - low) / 2;
        let left = sorted_places(low, middle, entries);
        let right = sorted_places(middle, high, entries);
        proof {
            lemma_members_of_places(left@, low as nat, middle as nat);
            lemma_members_of_places(right@, middle as nat, high as nat);
            lemma_multiset_commutative(
                places(low as nat, middle as nat),
                places(middle as nat, high as nat),
            );
            assert(places(low as nat, middle as nat) + places(middle as nat, high as nat)
                =~= places(low as nat, high as nat));
        }
        merge(&left, &right, middle, entries)
    }
}

/// An order with the members of `places(0, n)` names each place below `n`
/// once.
proof fn lemma_order_is_permutation(order: Seq<usize>, n: nat)
    requires
        n <= usize::MAX,
        order.to_multiset() == places(0, n).to_multiset(),
    ensures
        order.len() == n,
        within(order, 0, n),
        forall|j: usize| j < n ==> #[trigger] order.contains(j),
{
    let all = places(0, n);
    to_multiset_len(order);
    to_multiset_len(all);
    lemma_members_of_places(order, 0, n);
    assert forall|j: usize| j < n implies #[trigger] order.contains(j) by {
        assert(all[j as int] == j);
        assert(all.contains(j));
        to_multiset_contains(all, j);
        to_multiset_contains(order, j);
    }
}

/// Entries taken in an order that names each place once stand for the same
/// mapping and keep their keys distinct.
proof fn lemma_reordered(
    entries: Seq<((DocumentView, DocumentView), nat)>,
    order: Seq<usize>,
    ranking: Seq<((DocumentView, DocumentView), nat)>,
)
    requires
        distinct_keys(entries),
        entries.len() <= usize::MAX,
        order.len() == entries.len(),
        ranking.len() == entries.len(),
        within(order, 0, entries.len()),
        forall|a: int, b: int|
            0 <= a < b < order.len() ==> (#[trigger] order[a]) != (#[trigger] order[b]),
        forall|j: usize| j < entries.len() ==> #[trigger] order.contains(j),
        forall|i: int| 0 <= i < ranking.len() ==> #[trigger] ranking[i] == entries[order[i] as int],
    ensures
        distinct_keys(ranking),
        as_map(ranking) == as_map(entries),
        forall|i: int|
            0 <= i < ranking.len() ==> place_of(entries, (#[trigger] ranking[i]).0) == order[i],
{
    assert forall|a: int, b: int| 0 <= a < b < ranking.len() implies (#[trigger] ranking[a]).0 != (
    #[trigger] ranking[b]).0 by {
        let x = order[a] as int;
        let y = order[b] as int;
        assert(x != y);
        if x < y {
            assert(entries[x].0 != entries[y].0);
        } else {
            assert(entries[y].0 != entries[x].0);
        }
    }
    assert forall|key: (DocumentView, DocumentView)|
        has_key(ranking, key) <==> has_key(entries, key) by {
        if has_key(ranking, key) {
            let i = place_of(ranking, key);
            assert(entries[order[i] as int].0 == key);
        }
        if has_key(entries, key) {
            let j = place_of(entries, key);
            assert(order.contains(j as usize));
            let i = choose|i: int| 0 <= i < order.len() && order[i] == j as usize;
            assert(ranking[i].0 == key);
        }
    }
    assert forall|key: (DocumentView, DocumentView)| has_key(ranking, key) implies as_map(
        ranking,
    )[key] == as_map(entries)[key] by {
        let i = place_of(ranking, key);
        lemma_entry(ranking, i);
        lemma_entry(entries, order[i] as int);
    }
    assert forall|i: int| 0 <= i < ranking.len() implies place_of(
        entries,
        (#[trigger] ranking[i]).0,
    ) == order[i] by {
        lemma_entry(entries, order[i] as int);
    }
    assert(as_map(ranking) =~= as_map(entries));
}

/// Ranks the scored pairs: the result holds every pair of `scores` once,
/// with its score, and no score is followed by a smaller one. Pairs with
/// equal scores keep the order that they have in `scores`.
pub fn rank_pairs(scores: &PairScores) -> (ranking: Vec<PairScore>)
    requires
        scores.wf(),
    ensures
        ascending(pair_score_views(ranking@)),
        ties_keep_order(pair_score_views(ranking@), scores.entries()),
        distinct_keys(pair_score_views(ranking@)),
        as_map(pair_score_views(ranking@)) == scores@,
        ranking@.len() == scores@.len(),
{
    let entries = scores.scores();
    let order = sorted_places(0, entries.len(), entries);
    let ghost stored = scores.entries();
    proof {
        lemma_order_is_permutation(order@, entries@.len());
        lemma_map_size(stored);
    }
    let mut ranking: Vec<PairScore> = Vec::new();
    let mut i: usize = 0;
    while i < order.len()
        invariant
            i <= order.len(),
            ranking@.len() == i,
            order@.len() == entries@.len(),
            entries@.len() == scores@.len(),
            within(order@, 0, entries@.len()),
            forall|k: int| 0 <= k < i ==> (#[trigger] ranking@[k])@ == entries@[order@[k] as int]@,
        decreases order.len() - i,
    {
        ranking.push(entries[order[i]].clone());
        i += 1;
    }
    proof {
        let ranked = pair_score_views(ranking@);
        assert forall|k: int| 0 <= k < ranked.len() implies #[trigger] ranked[k]
            == stored[order@[k] as int] by {
            assert(ranking@[k]@ == entries@[order@[k] as int]@);
        }
        assert forall|a: int, b: int| 0 <= a < b < order@.len() implies (#[trigger] order@[a]) != (
        #[trigger] order@[b]) by {
            assert(comes_before(entries@, order@[a], order@[b]));
        }
        lemma_reordered(stored, order@, ranked);
        assert forall|a: int, b: int| 0 <= a <= b < ranked.len() implies (
        #[trigger] ranked[a]).1 <= (#[trigger] ranked[b]).1 by {
            if a < b {
                assert(comes_before(entries@, order@[a], order@[b]));
                assert(ranked[a].1 == score_at(entries@, order@[a]));
                assert(ranked[b].1 == score_at(entries@, order@[b]));
            }
        }
        assert forall|a: int, b: int|
            0 <= a < b < ranked.len() && (#[trigger] ranked[a]).1 == (
            #[trigger] ranked[b]).1 implies place_of(stored, ranked[a].0) < place_of(
            stored,
            ranked[b].0,
        ) by {
            assert(comes_before(entries@, order@[a], order@[b]));
            assert(ranked[a].1 == score_at(entries@, order@[a]));
            assert(ranked[b].1 == score_at(entries@, order@[b]));
        }
    }
    ranking
}

} // verus!
