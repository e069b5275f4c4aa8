//! Ranking: the phrases in the order of their scores. In the ascending
//! view phrases of equal score keep the order of their discovery; the
//! descending view is the ascending one read backwards. So each view is
//! fixed by the scores and the order of discovery alone.

use vstd::prelude::*;
use vstd::relations::{sorted_by, total_ordering};
use vstd::seq_lib::{
    group_to_multiset_ensures, lemma_multiset_commutative, lemma_sorted_unique, to_multiset_build,
};
use crate::phrase_scores::PhraseScores;
use crate::score::Score;

verus! {

/// Whether the entry at place `a` comes no later than the entry at place
/// `b` in the ascending view: the lower score first and, of two equal
/// scores, the one discovered first.
pub open spec fn precedes(scores: Seq<Score>, a: int, b: int) -> bool {
    scores[a]@ < scores[b]@ || (scores[a]@ == scores[b]@ && a <= b)
}

/// [`precedes`] as a relation on places.
pub open spec fn rank_order(scores: Seq<Score>) -> spec_fn(int, int) -> bool {
    |a: int, b: int| precedes(scores, a, b)
}

/// The places `0, 1, ..` below `n`, in order.
pub open spec fn places(n: nat) -> Seq<int> {
    Seq::new(n, |i: int| i)
}

/// The places of the entries in ascending order of score.
pub open spec fn ascending_order(scores: Seq<Score>) -> Seq<int> {
    places(scores.len()).sort_by(rank_order(scores))
}

/// The entry at each of the places `order`.
pub open spec fn entries_at(phrases: Seq<Seq<char>>, scores: Seq<Score>, order: Seq<int>) -> Seq<
    (Seq<char>, Score),
> {
    Seq::new(order.len(), |k: int| (phrases[order[k]], scores[order[k]]))
}

/// The phrases with their scores, lowest score first; phrases of equal
/// score in the order of their discovery.
pub open spec fn ascending(phrases: Seq<Seq<char>>, scores: Seq<Score>) -> Seq<
    (Seq<char>, Score),
> {
    entries_at(phrases, scores, ascending_order(scores))
}

/// The phrases with their scores, highest score first: the ascending view
/// read backwards.
pub open spec fn descending(phrases: Seq<Seq<char>>, scores: Seq<Score>) -> Seq<
    (Seq<char>, Score),
> {
    ascending(phrases, scores).reverse()
}

/// What a ranked list holds: each entry's phrase as text.
pub open spec fn ranked_view(ranked: Seq<(String, Score)>) -> Seq<(Seq<char>, Score)> {
    Seq::new(ranked.len(), |k: int| (ranked[k].0@, ranked[k].1))
}

/// The places as integers.
pub open spec fn ints(order: Seq<usize>) -> Seq<int> {
    Seq::new(order.len(), |k: int| order[k] as int)
}

/// Whether every place of `order` is below `n`.
pub open spec fn all_below(order: Seq<usize>, n: nat) -> bool {
    forall|k: int| 0 <= k < order.len() ==> #[trigger] order[k] < n
}

/// Tests whether the entry at place `a` comes no later than the one at
/// place `b` in the ascending view.
fn comes_first(list: &PhraseScores, a: usize, b: usize) -> (r: bool)
    requires
        list.wf(),
        a < list.scores().len(),
        b < list.scores().len(),
    ensures
        r == precedes(list.scores(), a as int, b as int),
{
    let left = list.score_at(a);
    let right = list.score_at(b);
    left.less_than(&right) || (!right.less_than(&left) && a <= b)
}

/// Merges two runs of places in rank order into one.
fn merge(left: &Vec<usize>, right: &Vec<usize>, list: &PhraseScores) -> (merged: Vec<usize>)
    requires
        list.wf(),
        all_below(left@, list.scores().len()),
        all_below(right@, list.scores().len()),
        sorted_by(ints(left@), rank_order(list.scores())),
        sorted_by(ints(right@), rank_order(list.scores())),
    ensures
        all_below(merged@, list.scores().len()),
        sorted_by(ints(merged@), rank_order(list.scores())),
        ints(merged@).to_multiset() == ints(left@).to_multiset().add(ints(right@).to_multiset()),
{
    broadcast use group_to_multiset_ensures;

    let ghost leq = rank_order(list.scores());
    let mut merged: Vec<usize> = Vec::new();
    let mut i: usize = 0;
    let mut j: usize = 0;
    proof {
        lemma_rank_order_total(list.scores());
        assert(ints(left@.take(0)) == Seq::<int>::empty());
        assert(ints(right@.take(0)) == Seq::<int>::empty());
        assert(ints(merged@) == Seq::<int>::empty());
        assert(ints(merged@).to_multiset() =~= ints(left@.take(0)).to_multiset().add(
            ints(right@.take(0)).to_multiset(),
        ));
    }
    while i < left.len() || j < right.len()
        invariant
            i <= left.len(),
            j <= right.len(),
            list.wf(),
            leq == rank_order(list.scores()),
            total_ordering(leq),
            all_below(left@, list.scores().len()),
            all_below(right@, list.scores().len()),
            all_below(merged@, list.scores().len()),
            sorted_by(ints(left@), leq),
            sorted_by(ints(right@), leq),
            sorted_by(ints(merged@), leq),
            ints(merged@).to_multiset() == ints(left@.take(i as int)).to_multiset().add(
                ints(right@.take(j as int)).to_multiset(),
            ),
            forall|k: int|
                0 <= k < merged.len() && i < left.len() ==> leq(
                    #[trigger] ints(merged@)[k],
                    left[i as int] as int,
                ),
            forall|k: int|
                0 <= k < merged.len() && j < right.len() ==> leq(
                    #[trigger] ints(merged@)[k],
                    right[j as int] as int,
                ),
        decreases left.len() - i + right.len() - j,
    {
        let ghost before = ints(merged@);
        let take_left = if j >= right.len() {
            true
        } else if i >= left.len() {
            false
        } else {
            comes_first(list, left[i], right[j])
        };
        if take_left {
            let x = left[i];
            merged.push(x);
            proof {
                assert(ints(merged@) == before.push(x as int));
                assert(ints(left@.take(i + 1)) == ints(left@.take(i as int)).push(x as int));
                to_multiset_build(before, x as int);
                to_multiset_build(ints(left@.take(i as int)), x as int);
                assert(ints(merged@).to_multiset() =~= ints(left@.take(i + 1)).to_multiset().add(
                    ints(right@.take(j as int)).to_multiset(),
                ));
                assert forall|k: int| 0 <= k < merged.len() && i + 1 < left.len() implies leq(
                    #[trigger] ints(merged@)[k],
                    left[i + 1] as int,
                ) by {
                    assert(leq(ints(left@)[i as int], ints(left@)[i + 1]));
                    if k < before.len() {
                        assert(leq(before[k], x as int));
                    }
                }
                assert forall|k: int| 0 <= k < merged.len() && j < right.len() implies leq(
                    #[trigger] ints(merged@)[k],
                    right[j as int] as int,
                ) by {
                    if k < before.len() {
                        assert(leq(before[k], right[j as int] as int));
                    }
                }
            }
            i += 1;
        } else {
            let x = right[j];
            merged.push(x);
            proof {
                assert(ints(merged@) == before.push(x as int));
                assert(ints(right@.take(j + 1)) == ints(right@.take(j as int)).push(x as int));
                to_multiset_build(before, x as int);
                to_multiset_build(ints(right@.take(j as int)), x as int);
                assert(ints(merged@).to_multiset() =~= ints(left@.take(i as int)).to_multiset().add(
                    ints(right@.take(j + 1)).to_multiset(),
                ));
                assert forall|k: int| 0 <= k < merged.len() && j + 1 < right.len() implies leq(
                    #[trigger] ints(merged@)[k],
                    right[j + 1] as int,
                ) by {
                    assert(leq(ints(right@)[j as int], ints(right@)[j + 1]));
                    if k < before.len() {
                        assert(leq(before[k], x as int));
                    }
                }
                assert forall|k: int| 0 <= k < merged.len() && i < left.len() implies leq(
                    #[trigger] ints(merged@)[k],
                    left[i as int] as int,
                ) by {
                    assert(leq(x as int, left[i as int] as int) || leq(
                        left[i as int] as int,
                        x as int,
                    ));
                    if k < before.len() {
                        assert(leq(before[k], left[i as int] as int));
                    }
                }
            }
            j += 1;
        }
    }
    proof {
        assert(left@.take(left.len() as int) == left@);
        assert(right@.take(right.len() as int) == right@);
    }
    merged
}

/// Sorts places into rank order.
fn sort_places(order: Vec<usize>, list: &PhraseScores) -> (sorted: Vec<usize>)
    requires
        list.wf(),
        all_below(order@, list.scores().len()),
    ensures
        all_below(sorted@, list.scores().len()),
        sorted_by(ints(sorted@), rank_order(list.scores())),
        ints(sorted@).to_multiset() == ints(order@).to_multiset(),
    decreases order.len(),
{
    if order.len() <= 1 {
        return order;
    }
    let ghost whole = order@;
    let middle = order.len() / 2;
    let mut left = order;
    let right = left.split_off(middle);
    proof {
        assert(ints(whole) == ints(left@) + ints(right@));
        lemma_multiset_commutative(ints(left@), ints(right@));
    }
    let left = sort_places(left, list);
    let right = sort_places(right, list);
    merge(&left, &right, list)
}

/// The places of the entries of `list` in ascending order of score.
pub fn rank_places(list: &PhraseScores) -> (order: Vec<usize>)
    requires
        list.wf(),
    ensures
        ints(order@) == ascending_order(list.scores()),
        order.len() == list.scores().len(),
        all_below(order@, list.scores().len()),
        forall|i: int| 0 <= i < list.scores().len() ==> ints(order@).contains(i),
        forall|j: int, k: int|
            0 <= j < k < order.len() ==> precedes(
                list.scores(),
                #[trigger] order[j] as int,
                #[trigger] order[k] as int,
            ),
{
    let n = list.len();
    let mut start: Vec<usize> = Vec::new();
    let mut i: usize = 0;
    while i < n
        invariant
            i <= n,
            n == list.scores().len(),
            ints(start@) == places(i as nat),
            all_below(start@, n as nat),
        decreases n - i,
    {
        let ghost before = ints(start@);
        start.push(i);
        assert(ints(start@) == before.push(i as int));
        i += 1;
    }
    let order = sort_places(start, list);
    proof {
        let leq = rank_order(list.scores());
        lemma_rank_order_total(list.scores());
        places(n as nat).lemma_sort_by_ensures(leq);
        lemma_sorted_unique(ints(order@), ascending_order(list.scores()), leq);
        lemma_ascending_order(list.scores());
        assert forall|j: int, k: int| 0 <= j < k < order.len() implies precedes(
            list.scores(),
            #[trigger] order[j] as int,
            #[trigger] order[k] as int,
        ) by {
            assert(ints(order@)[j] == order[j] as int);
            assert(ints(order@)[k] == order[k] as int);
        }
    }
    order
}

/// The phrases of `list` with their scores, lowest score first; phrases
/// of equal score in the order of their discovery.
pub fn rank_ascending(list: &PhraseScores) -> (ranked: Vec<(String, Score)>)
    requires
        list.wf(),
    ensures
        ranked_view(ranked@) == ascending(list.phrases(), list.scores()),
        ranked.len() == list.phrases().len(),
{
    let order = rank_places(list);
    proof {
        list.lemma_wf();
    }
    let mut ranked: Vec<(String, Score)> = Vec::new();
    let mut k: usize = 0;
    while k < order.len()
        invariant
            k <= order.len(),
            list.wf(),
            all_below(order@, list.scores().len()),
            ranked_view(ranked@) == entries_at(
                list.phrases(),
                list.scores(),
                ints(order@).take(k as int),
            ),
        decreases order.len() - k,
    {
        let place = order[k];
        let ghost before = ranked_view(ranked@);
        proof {
            list.lemma_wf();
        }
        ranked.push((list.phrase(place).clone(), list.score_at(place)));
        proof {
            let entry = (list.phrases()[place as int], list.scores()[place as int]);
            assert(ranked_view(ranked@) == before.push(entry));
            assert(ints(order@).take(k + 1) == ints(order@).take(k as int).push(place as int));
        }
        k += 1;
    }
    assert(ints(order@).take(order.len() as int) == ints(order@));
    ranked
}

/// The phrases of `list` with their scores, highest score first: the
/// ascending view read backwards.
pub fn rank_descending(list: &PhraseScores) -> (ranked: Vec<(String, Score)>)
    requires
        list.wf(),
    ensures
        ranked_view(ranked@) == descending(list.phrases(), list.scores()),
        ranked.len() == list.phrases().len(),
{
    let order = rank_places(list);
    proof {
        list.lemma_wf();
    }
    let ghost rising = ascending(list.phrases(), list.scores());
    let mut ranked: Vec<(String, Score)> = Vec::new();
    let mut k: usize = order.len();
    while k > 0
        invariant
            k <= order.len(),
            list.wf(),
            all_below(order@, list.scores().len()),
            rising == entries_at(list.phrases(), list.scores(), ints(order@)),
            ranked.len() == order.len() - k,
            forall|m: int|
                0 <= m < ranked.len() ==> #[trigger] ranked_view(ranked@)[m] == rising[order.len()
                    - 1 - m],
        decreases k,
    {
        k -= 1;
        let place = order[k];
        let ghost before = ranked_view(ranked@);
        proof {
            list.lemma_wf();
        }
        ranked.push((list.phrase(place).clone(), list.score_at(place)));
        proof {
            let entry = (list.phrases()[place as int], list.scores()[place as int]);
            assert(ranked_view(ranked@) == before.push(entry));
            assert(rising[k as int] == entry);
        }
    }
    assert(ranked_view(ranked@) == rising.reverse());
    ranked
}

/// The rank order is a total order on places.
pub proof fn lemma_rank_order_total(scores: Seq<Score>)
    ensures
        total_ordering(rank_order(scores)),
{
    let leq = rank_order(scores);
    assert forall|x: int, y: int| #[trigger] leq(x, y) && #[trigger] leq(y, x) implies x == y by {}
    assert forall|x: int, y: int, z: int| #[trigger] leq(x, y) && #[trigger] leq(y, z) implies leq(
        x,
        z,
    ) by {}
    assert forall|x: int, y: int| #[trigger] leq(x, y) || #[trigger] leq(y, x) by {}
    assert forall|x: int| #[trigger] leq(x, x) by {}
}

/// The ascending order lists every place exactly once, by rising score,
/// and places of equal score in rising order.
pub proof fn lemma_ascending_order(scores: Seq<Score>)
    ensures
        ascending_order(scores).len() == scores.len(),
        ascending_order(scores).no_duplicates(),
        forall|i: int| 0 <= i < scores.len() <==> ascending_order(scores).contains(i),
        forall|j: int, k: int|
            0 <= j < k < scores.len() ==> precedes(
                scores,
                #[trigger] ascending_order(scores)[j],
                #[trigger] ascending_order(scores)[k],
            ),
{
    broadcast use group_to_multiset_ensures;

    let leq = rank_order(scores);
    let start = places(scores.len());
    let order = ascending_order(scores);
    lemma_rank_order_total(scores);
    start.lemma_sort_by_ensures(leq);
    assert(start.no_duplicates());
    start.lemma_multiset_has_no_duplicates();
    order.lemma_multiset_has_no_duplicates_conv();
    assert(order.len() == order.to_multiset().len());
    assert(start.len() == start.to_multiset().len());
    assert forall|i: int| 0 <= i < scores.len() <==> order.contains(i) by {
        if 0 <= i < scores.len() {
            assert(start[i] == i);
            assert(start.contains(i));
            assert(start.to_multiset().count(i) > 0);
        }
        if order.contains(i) {
            assert(order.to_multiset().count(i) > 0);
            assert(start.contains(i));
        }
    }
    assert forall|j: int, k: int| 0 <= j < k < scores.len() implies precedes(
        scores,
        #[trigger] order[j],
        #[trigger] order[k],
    ) by {
        assert(leq(order[j], order[k]));
    }
}

/// The two ranked views are each other's reverse. Both list every phrase
/// with its score, each phrase once; the ascending view by rising score
/// and, among equal scores, in the order of discovery.
pub proof fn lemma_ranked_views(phrases: Seq<Seq<char>>, scores: Seq<Score>)
    requires
        phrases.len() == scores.len(),
        phrases.no_duplicates(),
    ensures
        descending(phrases, scores) == ascending(phrases, scores).reverse(),
        ascending(phrases, scores) == descending(phrases, scores).reverse(),
        ascending(phrases, scores).len() == phrases.len(),
        descending(phrases, scores).len() == phrases.len(),
        forall|entry: (Seq<char>, Score)|
            ascending(phrases, scores).contains(entry) <==> descending(phrases, scores).contains(
                entry,
            ),
        forall|i: int|
            0 <= i < phrases.len() ==> #[trigger] ascending(phrases, scores).contains(
                (phrases[i], scores[i]),
            ),
        forall|j: int, k: int|
            0 <= j < k < phrases.len() ==> (#[trigger] ascending(phrases, scores)[j]).0
                != (#[trigger] ascending(phrases, scores)[k]).0,
        forall|j: int, k: int|
            0 <= j < k < phrases.len() ==> (#[trigger] descending(phrases, scores)[j]).0
                != (#[trigger] descending(phrases, scores)[k]).0,
        forall|j: int, k: int|
            0 <= j < k < phrases.len() ==> (#[trigger] ascending(phrases, scores)[j]).1@
                <= (#[trigger] ascending(phrases, scores)[k]).1@,
        forall|j: int, k: int|
            0 <= j < k < phrases.len() ==> (#[trigger] descending(phrases, scores)[j]).1@
                >= (#[trigger] descending(phrases, scores)[k]).1@,
{
    let order = ascending_order(scores);
    let rising = ascending(phrases, scores);
    let falling = descending(phrases, scores);
    let n = phrases.len() as int;
    lemma_ascending_order(scores);
    assert(rising == falling.reverse());
    assert forall|k: int| 0 <= k < n implies 0 <= #[trigger] order[k] < n by {
        assert(order.contains(order[k]));
    }
    assert forall|entry: (Seq<char>, Score)|
        rising.contains(entry) <==> falling.contains(entry) by {
        if rising.contains(entry) {
            let k = choose|k: int| 0 <= k < rising.len() && rising[k] == entry;
            assert(falling[n - 1 - k] == entry);
        }
        if falling.contains(entry) {
            let k = choose|k: int| 0 <= k < falling.len() && falling[k] == entry;
            assert(rising[n - 1 - k] == entry);
        }
    }
    assert forall|i: int| 0 <= i < n implies #[trigger] rising.contains(
        (phrases[i], scores[i]),
    ) by {
        assert(order.contains(i));
        let k = choose|k: int| 0 <= k < order.len() && order[k] == i;
        assert(rising[k] == (phrases[i], scores[i]));
    }
    assert forall|j: int, k: int| 0 <= j < k < n implies (#[trigger] rising[j]).0 != (
    #[trigger] rising[k]).0 && rising[j].1@ <= rising[k].1@ by {
        assert(order[j] != order[k]);
        assert(precedes(scores, order[j], order[k]));
    }
    assert forall|j: int, k: int| 0 <= j < k < n implies (#[trigger] falling[j]).0 != (
    #[trigger] falling[k]).0 && falling[j].1@ >= falling[k].1@ by {
        assert(falling[j] == rising[n - 1 - j]);
        assert(falling[k] == rising[n - 1 - k]);
    }
}

} // verus!
