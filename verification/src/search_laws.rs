//! Which vectors a search and a selection return, by their positions in the batch.

use vstd::prelude::*;

use crate::batch::PredictionBatch;
use crate::batch_laws::lemma_original_order;
use crate::binary64::Binary64;
use crate::ranking::{all_ordered, is_ranking, lemma_ranking_complete, none_below, precedes};
use crate::vector::{distance, PredictionVector};

verus! {

/// Whether a prediction has at least the given confidence.
pub open spec fn has_confidence(v: PredictionVector, least: Binary64) -> bool {
    &&& !v.output.confidence.nan()
    &&& !least.nan()
    &&& v.output.confidence.value() >= least.value()
}

/// Whether `found` lists the vectors at the positions `at`, which increase and are exactly those
/// of the vectors with at least the given confidence.
pub open spec fn is_selection(
    vectors: Seq<PredictionVector>,
    least: Binary64,
    found: Seq<PredictionVector>,
    at: Seq<int>,
) -> bool {
    &&& at.len() == found.len()
    &&& forall|i: int|
        0 <= i < at.len() ==> {
            &&& 0 <= #[trigger] at[i] < vectors.len()
            &&& found[i] == vectors[at[i]]
            &&& has_confidence(vectors[at[i]], least)
        }
    &&& forall|i: int, j: int| 0 <= i < j < at.len() ==> #[trigger] at[i] < #[trigger] at[j]
    &&& forall|p: int|
        0 <= p < vectors.len() && has_confidence(#[trigger] vectors[p], least) ==> at.contains(p)
}

/// Selection by confidence returns the vectors with at least that confidence, each once and in
/// the order of the batch.
pub proof fn law_filter_positions(batch: PredictionBatch, least: Binary64)
    ensures
        exists|at: Seq<int>|
            is_selection(batch.vectors@, least, batch.with_confidence(least), at),
{
    let wanted = |v: PredictionVector| v.output.confidence.at_least(least);
    let at = lemma_selection(batch.vectors@, least, wanted);
    assert(is_selection(batch.vectors@, least, batch.with_confidence(least), at));
}

proof fn lemma_selection(
    s: Seq<PredictionVector>,
    least: Binary64,
    wanted: spec_fn(PredictionVector) -> bool,
) -> (at: Seq<int>)
    requires
        forall|v: PredictionVector| #[trigger] wanted(v) == has_confidence(v, least),
    ensures
        is_selection(s, least, s.filter(wanted), at),
    decreases s.len(),
{
    reveal(Seq::filter);
    if s.len() == 0 {
        Seq::empty()
    } else {
        let n = s.len() - 1;
        let t = s.drop_last();
        let before = lemma_selection(t, least, wanted);
        let found = s.filter(wanted);
        let at = if wanted(s.last()) {
            before.push(n)
        } else {
            before
        };
        assert forall|i: int| 0 <= i < at.len() implies {
            &&& 0 <= #[trigger] at[i] < s.len()
            &&& found[i] == s[at[i]]
            &&& has_confidence(s[at[i]], least)
        } by {
            if i < before.len() {
                assert(at[i] == before[i]);
                assert(t[before[i]] == s[before[i]]);
            }
        }
        assert forall|i: int, j: int| 0 <= i < j < at.len() implies #[trigger] at[i]
            < #[trigger] at[j] by {
            assert(at[i] == before[i]);
            if j < before.len() {
                assert(at[j] == before[j]);
            }
        }
        assert forall|p: int| 0 <= p < s.len() && has_confidence(#[trigger] s[p], least) implies
            at.contains(p) by {
            if p < n {
                assert(t[p] == s[p]);
                assert(before.contains(p));
                let i = choose|i: int| 0 <= i < before.len() && before[i] == p;
                assert(at[i] == p);
            } else {
                assert(at[before.len() as int] == p);
            }
        }
        at
    }
}

/// Selection by confidence returns each vector as often as it is in the batch, if it has the
/// confidence, and no other.
pub proof fn law_filter_multiplicity(batch: PredictionBatch, least: Binary64, v: PredictionVector)
    ensures
        batch.with_confidence(least).to_multiset().count(v) == (if has_confidence(v, least) {
            batch.vectors@.to_multiset().count(v)
        } else {
            0
        }),
{
    let wanted = |v: PredictionVector| v.output.confidence.at_least(least);
    lemma_filter_count(batch.vectors@, wanted, v);
}

proof fn lemma_filter_count<A>(s: Seq<A>, wanted: spec_fn(A) -> bool, v: A)
    ensures
        s.filter(wanted).to_multiset().count(v) == (if wanted(v) {
            s.to_multiset().count(v)
        } else {
            0
        }),
    decreases s.len(),
{
    broadcast use vstd::seq_lib::group_to_multiset_ensures;

    reveal(Seq::filter);
    if s.len() == 0 {
        assert(s.filter(wanted) =~= s);
        assert(!s.contains(v));
    } else {
        let t = s.drop_last();
        lemma_filter_count(t, wanted, v);
        assert(s =~= t.push(s.last()));
        assert(t.push(s.last()).to_multiset() =~= t.to_multiset().insert(s.last()));
        let f = t.filter(wanted);
        assert(f.push(s.last()).to_multiset() =~= f.to_multiset().insert(s.last()));
    }
}

/// The distance of the vector at a position.
pub open spec fn distance_at(batch: PredictionBatch, query: Seq<Binary64>, p: int) -> Binary64 {
    distance(batch.vectors@[p].vector@, query)
}

/// Whether the vector at `p` is nearer than the one at `q`, or as near and before it.
pub open spec fn is_nearer(batch: PredictionBatch, query: Seq<Binary64>, p: int, q: int) -> bool {
    let (x, y) = (distance_at(batch, query, p).value(), distance_at(batch, query, q).value());
    x < y || (x == y && p < q)
}

/// Whether `found` lists the vectors at the distinct positions `at`, as many as were asked for or
/// all.
pub open spec fn is_listing(
    batch: PredictionBatch,
    k: nat,
    found: Seq<&PredictionVector>,
    at: Seq<int>,
) -> bool {
    let n = batch.vectors@.len();
    &&& at.len() == found.len()
    &&& found.len() == if k < n {
        k
    } else {
        n
    }
    &&& forall|i: int|
        0 <= i < at.len() ==> 0 <= #[trigger] at[i] < n && *found[i] == batch.vectors@[at[i]]
    &&& forall|i: int, j: int| 0 <= i < j < at.len() ==> #[trigger] at[i] != #[trigger] at[j]
}

/// Whether every position in `at` comes before those that follow it there and before every
/// position that is not in `at`.
pub open spec fn is_nearest_first(
    batch: PredictionBatch,
    query: Seq<Binary64>,
    at: Seq<int>,
) -> bool {
    &&& forall|i: int, j: int|
        0 <= i < j < at.len() ==> is_nearer(batch, query, #[trigger] at[i], #[trigger] at[j])
    &&& forall|i: int, q: int|
        0 <= i < at.len() && 0 <= q < batch.vectors@.len() && !at.contains(q) ==> #[trigger]
            is_nearer(batch, query, at[i], q)
}

/// A search returns vectors at distinct positions, as many as were asked for or all of them. If
/// every distance is a number, they are the nearest, in order of distance and then of position.
/// If no distance is less than another, they are the first.
pub proof fn law_nearest_positions(
    batch: PredictionBatch,
    query: Seq<Binary64>,
    k: nat,
    found: Seq<&PredictionVector>,
)
    requires
        batch.lists_nearest(query, k, found),
    ensures
        exists|at: Seq<int>| #[trigger]
            is_listing(batch, k, found, at) && {
                &&& (forall|p: int|
                    0 <= p < batch.vectors@.len() ==> !(#[trigger] distance_at(
                        batch,
                        query,
                        p,
                    )).nan()) ==> is_nearest_first(batch, query, at)
                &&& (forall|p: int, q: int|
                    0 <= p < batch.vectors@.len() && 0 <= q < batch.vectors@.len()
                        ==> !(#[trigger] distance_at(batch, query, p)).below(
                        #[trigger] distance_at(batch, query, q),
                    )) ==> forall|i: int| 0 <= i < at.len() ==> #[trigger] at[i] == i
            },
{
    let d = batch.distances(query);
    let n = batch.vectors@.len();
    let order = choose|order: Seq<usize>|
        is_ranking(d, order) && batch.lists_first(order, k, found);
    let at = Seq::new(found.len(), |i: int| order[i] as int);
    assert forall|i: int| 0 <= i < at.len() implies 0 <= #[trigger] at[i] < n && *found[i]
        == batch.vectors@[at[i]] by {
        assert(at[i] == order[i]);
    }
    assert forall|i: int, j: int| 0 <= i < j < at.len() implies #[trigger] at[i]
        != #[trigger] at[j] by {
        assert(order[i] != order[j]);
    }
    assert(is_listing(batch, k, found, at));
    assert forall|p: int| 0 <= p < n implies #[trigger] d[p] == distance_at(batch, query, p) by {}
    if forall|p: int| 0 <= p < n ==> !(#[trigger] distance_at(batch, query, p)).nan() {
        assert forall|p: int| 0 <= p < d.len() implies !(#[trigger] d[p]).nan() by {
            assert(!distance_at(batch, query, p).nan());
        }
        assert(all_ordered(d));
        assert forall|i: int, j: int| 0 <= i < j < at.len() implies is_nearer(
            batch,
            query,
            #[trigger] at[i],
            #[trigger] at[j],
        ) by {
            assert(precedes(d, order[i] as int, order[j] as int));
        }
        assert forall|i: int, q: int| 0 <= i < at.len() && 0 <= q < n && !at.contains(
            q,
        ) implies #[trigger] is_nearer(batch, query, at[i], q) by {
            lemma_ranking_complete(d, order, q);
            let a = choose|a: int| 0 <= a < order.len() && #[trigger] order[a] == q;
            if a < at.len() {
                assert(at[a] == q);
            }
            assert(precedes(d, order[i] as int, order[a] as int));
        }
    }
    if forall|p: int, q: int|
        0 <= p < n && 0 <= q < n ==> !(#[trigger] distance_at(batch, query, p)).below(
            #[trigger] distance_at(batch, query, q),
        ) {
        assert forall|p: int, q: int| 0 <= p < d.len() && 0 <= q < d.len() implies !(
        #[trigger] d[p]).below(#[trigger] d[q]) by {
            assert(!distance_at(batch, query, p).below(distance_at(batch, query, q)));
        }
        assert(none_below(d));
        assert forall|i: int| 0 <= i < at.len() implies #[trigger] at[i] == i by {
            lemma_original_order(order, i);
        }
    }
}

/// A ranking lists every position once. If no key is a NaN, smaller keys come first and equal
/// keys in the order of their positions; if no key is less than another, the positions are
/// counted off.
pub proof fn law_ranking(keys: Seq<Binary64>, order: Seq<usize>)
    requires
        is_ranking(keys, order),
    ensures
        order.len() == keys.len(),
        forall|i: int| 0 <= i < order.len() ==> #[trigger] order[i] < keys.len(),
        forall|i: int, j: int|
            0 <= i < j < order.len() ==> #[trigger] order[i] != #[trigger] order[j],
        (forall|p: int| 0 <= p < keys.len() ==> !(#[trigger] keys[p]).nan()) ==> forall|
            i: int,
            j: int,
        |
            0 <= i < j < order.len() ==> {
                let (p, q) = (#[trigger] order[i] as int, #[trigger] order[j] as int);
                keys[p].value() < keys[q].value() || (keys[p].value() == keys[q].value() && p < q)
            },
        (forall|p: int, q: int|
            0 <= p < keys.len() && 0 <= q < keys.len() ==> !(#[trigger] keys[p]).below(
                #[trigger] keys[q],
            )) ==> forall|i: int| 0 <= i < order.len() ==> #[trigger] order[i] == i,
{
    if all_ordered(keys) {
        assert forall|i: int, j: int| 0 <= i < j < order.len() implies {
            let (p, q) = (#[trigger] order[i] as int, #[trigger] order[j] as int);
            keys[p].value() < keys[q].value() || (keys[p].value() == keys[q].value() && p < q)
        } by {
            assert(precedes(keys, order[i] as int, order[j] as int));
        }
    }
    if none_below(keys) {
        assert forall|i: int| 0 <= i < order.len() implies #[trigger] order[i] == i by {
            lemma_original_order(order, i);
        }
    }
}

} // verus!
