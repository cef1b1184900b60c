//! Laws of search, selection and statistics.

use vstd::arithmetic::power2::{lemma_pow2_adds, pow2};
use vstd::prelude::*;

use crate::accuracy::{
    all_within, apart, lemma_mean_between, lemma_mean_error, lemma_means_close,
    lemma_total_permuted, total, MOST_TERMS,
};
use crate::arithmetic::one_in_units;
use crate::arithmetic_laws::lemma_value_zero;
use crate::batch::PredictionBatch;
use crate::binary64::{Binary64, EXPONENT_UNIT};
use crate::ranking::{
    all_ordered, in_original_order, is_ranking, lemma_ranking_complete, lemma_ranking_unique,
    lists_positions, none_below, precedes,
};
use crate::rounding::lemma_pow2_weakly_increases;
use crate::sequence_laws::{
    all_finite, all_in_unit_range, law_extremes_ignore_order, law_greatest, law_greatest_attained,
    law_least, law_least_attained, law_mean_in_unit_range, law_mean_of_one,
};
use crate::sequences::mean;
use crate::similarity_laws::{law_distance_nonnegative, law_distance_to_self};
use crate::vector::{distance, PredictionVector, PredictionVectorView};

verus! {

/// Whether every vector of the batch is finite.
pub open spec fn vectors_finite(batch: PredictionBatch) -> bool {
    forall|i: int|
        0 <= i < batch.vectors@.len() ==> all_finite((#[trigger] batch.vectors@[i]).vector@)
}

/// In a batch of finite vectors every distance from a finite query is a number, so that the
/// nearest vectors are determined.
pub proof fn law_finite_distances_ordered(batch: PredictionBatch, query: Seq<Binary64>)
    requires
        vectors_finite(batch),
        all_finite(query),
    ensures
        all_ordered(batch.distances(query)),
{
    let d = batch.distances(query);
    assert forall|i: int| 0 <= i < d.len() implies !(#[trigger] d[i]).nan() by {
        law_distance_nonnegative(batch.vectors@[i].vector@, query);
    }
}

/// As many vectors are found as were asked for, or all of them if there are fewer.
pub proof fn law_nearest_count(
    batch: PredictionBatch,
    query: Seq<Binary64>,
    k: nat,
    found: Seq<&PredictionVector>,
)
    requires
        batch.lists_nearest(query, k, found),
    ensures
        found.len() == if k <= batch.vectors@.len() {
            k
        } else {
            batch.vectors@.len()
        },
{
}

/// The nearest vectors come in order of distance.
pub proof fn law_nearest_sorted(
    batch: PredictionBatch,
    query: Seq<Binary64>,
    k: nat,
    found: Seq<&PredictionVector>,
    i: int,
    j: int,
)
    requires
        all_ordered(batch.distances(query)),
        batch.lists_nearest(query, k, found),
        0 <= i < j < found.len(),
    ensures
        distance(found[j].vector@, query).at_least(distance(found[i].vector@, query)),
{
    let d = batch.distances(query);
    let order = choose|order: Seq<usize>|
        is_ranking(d, order) && batch.lists_first(order, k, found);
    assert(precedes(d, order[i] as int, order[j] as int));
    assert(!d[order[i] as int].nan() && !d[order[j] as int].nan());
    assert(*found[i] == batch.vectors@[order[i] as int]);
    assert(*found[j] == batch.vectors@[order[j] as int]);
}

/// A vector that is not found is at least as far away as each that is.
pub proof fn law_nearest_leaves_out_farther(
    batch: PredictionBatch,
    query: Seq<Binary64>,
    k: nat,
    found: Seq<&PredictionVector>,
    p: int,
    i: int,
)
    requires
        all_ordered(batch.distances(query)),
        batch.lists_nearest(query, k, found),
        0 <= p < batch.vectors@.len(),
        forall|j: int| 0 <= j < found.len() ==> *#[trigger] found[j] != batch.vectors@[p],
        0 <= i < found.len(),
    ensures
        distance(batch.vectors@[p].vector@, query).at_least(distance(found[i].vector@, query)),
{
    let d = batch.distances(query);
    let order = choose|order: Seq<usize>|
        is_ranking(d, order) && batch.lists_first(order, k, found);
    lemma_ranking_complete(d, order, p);
    let a = choose|a: int| 0 <= a < order.len() && #[trigger] order[a] == p;
    if a < found.len() {
        assert(*found[a] == batch.vectors@[order[a] as int]);
    }
    assert(i < a);
    assert(precedes(d, order[i] as int, order[a] as int));
    assert(!d[order[i] as int].nan() && !d[p].nan());
    assert(*found[i] == batch.vectors@[order[i] as int]);
}

/// Asking for fewer vectors gives the first of those that asking for more gives. In particular
/// two searches with the same query and count find the same.
pub proof fn law_nearest_fewer_is_prefix(
    batch: PredictionBatch,
    query: Seq<Binary64>,
    few: nat,
    many: nat,
    found_few: Seq<&PredictionVector>,
    found_many: Seq<&PredictionVector>,
)
    requires
        all_ordered(batch.distances(query)),
        few <= many,
        batch.lists_nearest(query, few, found_few),
        batch.lists_nearest(query, many, found_many),
    ensures
        found_few.len() <= found_many.len(),
        found_few == found_many.take(found_few.len() as int),
{
    let d = batch.distances(query);
    let p = choose|order: Seq<usize>|
        is_ranking(d, order) && batch.lists_first(order, few, found_few);
    let q = choose|order: Seq<usize>|
        is_ranking(d, order) && batch.lists_first(order, many, found_many);
    lemma_ranking_unique(d, p, q);
    assert forall|i: int| 0 <= i < found_few.len() implies found_few[i] == found_many.take(
        found_few.len() as int,
    )[i] by {
        assert(*found_few[i] == batch.vectors@[p[i] as int]);
        assert(*found_many[i] == batch.vectors@[q[i] as int]);
    }
    assert(found_few =~= found_many.take(found_few.len() as int));
}

/// A batch that holds the query itself finds a vector at distance zero first.
pub proof fn law_nearest_exact_match_first(
    batch: PredictionBatch,
    query: Seq<Binary64>,
    k: nat,
    found: Seq<&PredictionVector>,
    p: int,
)
    requires
        vectors_finite(batch),
        0 <= p < batch.vectors@.len(),
        batch.vectors@[p].vector@ == query,
        k > 0,
        batch.lists_nearest(query, k, found),
    ensures
        distance(found[0].vector@, query).zero(),
{
    let d = batch.distances(query);
    law_finite_distances_ordered(batch, query);
    law_distance_to_self(query);
    let order = choose|order: Seq<usize>|
        is_ranking(d, order) && batch.lists_first(order, k, found);
    lemma_ranking_complete(d, order, p);
    let a = choose|a: int| 0 <= a < order.len() && #[trigger] order[a] == p;
    assert(*found[0] == batch.vectors@[order[0] as int]);
    if a > 0 {
        assert(precedes(d, order[0] as int, order[a] as int));
        law_distance_nonnegative(found[0].vector@, query);
        lemma_value_zero(d[p]);
        lemma_value_zero(d[order[0] as int]);
    }
}

/// The vectors found by confidence are those of the batch that have it.
pub proof fn law_filter_exact(batch: PredictionBatch, min_confidence: Binary64, v: PredictionVector)
    ensures
        batch.with_confidence(min_confidence).contains(v) <==> batch.vectors@.contains(v)
            && v.output.confidence.at_least(min_confidence),
{
    let wanted = |v: PredictionVector| v.output.confidence.at_least(min_confidence);
    lemma_filter_contains(batch.vectors@, wanted, v);
}

proof fn lemma_filter_contains<A>(s: Seq<A>, wanted: spec_fn(A) -> bool, v: A)
    ensures
        s.filter(wanted).contains(v) <==> s.contains(v) && wanted(v),
    decreases s.len(),
{
    reveal(Seq::filter);
    if s.len() > 0 {
        let t = s.drop_last();
        lemma_filter_contains(t, wanted, v);
        let f = t.filter(wanted);
        assert(s =~= t.push(s.last()));
        if t.contains(v) {
            let i = choose|i: int| 0 <= i < t.len() && t[i] == v;
            assert(s[i] == v);
        }
        if s.contains(v) && v != s.last() {
            let i = choose|i: int| 0 <= i < s.len() && s[i] == v;
            assert(t[i] == v);
        }
        if v == s.last() {
            assert(s[s.len() - 1] == v);
        }
        if f.contains(v) {
            let i = choose|i: int| 0 <= i < f.len() && f[i] == v;
            assert(f.push(s.last())[i] == v);
        }
        if f.push(s.last()).contains(v) && v != s.last() {
            let i = choose|i: int| 0 <= i < f.len() + 1 && f.push(s.last())[i] == v;
            assert(f[i] == v);
        }
        if v == s.last() {
            assert(f.push(s.last())[f.len() as int] == v);
        }
    }
}

/// A higher minimum selects from what a lower one selects.
pub proof fn law_filter_higher_selects_less(
    batch: PredictionBatch,
    low: Binary64,
    high: Binary64,
)
    requires
        high.at_least(low),
    ensures
        batch.with_confidence(high) == batch.with_confidence(low).filter(
            |v: PredictionVector| v.output.confidence.at_least(high),
        ),
{
    let lower = |v: PredictionVector| v.output.confidence.at_least(low);
    let higher = |v: PredictionVector| v.output.confidence.at_least(high);
    lemma_filter_twice(batch.vectors@, lower, higher);
}

proof fn lemma_filter_twice<A>(s: Seq<A>, lower: spec_fn(A) -> bool, higher: spec_fn(A) -> bool)
    requires
        forall|v: A| #[trigger] higher(v) ==> lower(v),
    ensures
        s.filter(higher) == s.filter(lower).filter(higher),
    decreases s.len(),
{
    reveal(Seq::filter);
    if s.len() > 0 {
        lemma_filter_twice(s.drop_last(), lower, higher);
        let f = s.drop_last().filter(lower);
        assert(f.push(s.last()).drop_last() =~= f);
    }
}

/// No confidence is at least a NaN.
pub proof fn law_filter_by_nan(batch: PredictionBatch, min_confidence: Binary64)
    requires
        min_confidence.nan(),
    ensures
        batch.with_confidence(min_confidence).len() == 0,
{
    let found = batch.with_confidence(min_confidence);
    if found.len() > 0 {
        law_filter_exact(batch, min_confidence, found[0]);
        assert(found.contains(found[0]));
    }
}

/// Every confidence that is a number lies between the smallest and the largest in the
/// statistics, and each of these two is a confidence of the batch.
pub proof fn law_stats_bounds(batch: PredictionBatch, i: int)
    requires
        0 <= i < batch.vectors@.len(),
        !batch.vectors@[i].output.confidence.nan(),
    ensures
        ({
            let stats = batch.statistics();
            let confidence = batch.vectors@[i].output.confidence;
            &&& stats.max_confidence.at_least(confidence)
            &&& confidence.at_least(stats.min_confidence)
            &&& batch.confidences().contains(stats.max_confidence)
            &&& batch.confidences().contains(stats.min_confidence)
        }),
{
    let c = batch.confidences();
    assert(c[i] == batch.vectors@[i].output.confidence);
    law_greatest(c, i);
    law_least(c, i);
    law_greatest_attained(c, i);
    law_least_attained(c, i);
}

/// The statistics of a batch with one prediction are the prediction's own numbers.
pub proof fn law_stats_of_one(batch: PredictionBatch)
    requires
        batch.vectors@.len() == 1,
        !batch.vectors@[0].output.confidence.nan(),
        !batch.vectors@[0].output.value.nan(),
        !batch.vectors@[0].output.latency_ms.nan(),
    ensures
        ({
            let stats = batch.statistics();
            let output = batch.vectors@[0].output;
            &&& stats.count == 1
            &&& stats.mean_confidence == output.confidence
            &&& stats.min_confidence == output.confidence
            &&& stats.max_confidence == output.confidence
            &&& stats.mean_value == output.value
            &&& stats.mean_latency_ms == output.latency_ms
        }),
{
    let output = batch.vectors@[0].output;
    assert(batch.confidences() =~= seq![output.confidence]);
    assert(batch.values() =~= seq![output.value]);
    assert(batch.latencies() =~= seq![output.latency_ms]);
    law_mean_of_one(output.confidence);
    law_mean_of_one(output.value);
    law_mean_of_one(output.latency_ms);
    law_greatest_attained(batch.confidences(), 0);
    law_least_attained(batch.confidences(), 0);
}

/// The statistics depend on the predictions alone, not on how they were encoded.
pub proof fn law_stats_ignore_encoding(a: PredictionBatch, b: PredictionBatch)
    requires
        a.vectors@.len() == b.vectors@.len(),
        forall|i: int|
            0 <= i < a.vectors@.len() ==> (#[trigger] a.vectors@[i])@.output
                == b.vectors@[i]@.output,
    ensures
        a.statistics() == b.statistics(),
{
    assert forall|i: int| 0 <= i < a.vectors@.len() implies #[trigger] a.confidences()[i]
        == b.confidences()[i] by {
        assert(a.vectors@[i]@.output == b.vectors@[i]@.output);
    }
    assert(a.confidences() =~= b.confidences());
    assert forall|i: int| 0 <= i < a.vectors@.len() implies #[trigger] a.values()[i]
        == b.values()[i] by {
        assert(a.vectors@[i]@.output == b.vectors@[i]@.output);
    }
    assert(a.values() =~= b.values());
    assert forall|i: int| 0 <= i < a.vectors@.len() implies #[trigger] a.latencies()[i]
        == b.latencies()[i] by {
        assert(a.vectors@[i]@.output == b.vectors@[i]@.output);
    }
    assert(a.latencies() =~= b.latencies());
}

/// The mean of confidences between zero and one lies between zero and one.
pub proof fn law_mean_confidence_in_range(batch: PredictionBatch)
    requires
        all_in_unit_range(batch.confidences()),
        batch.vectors@.len() < 2 * EXPONENT_UNIT,
    ensures
        !batch.statistics().mean_confidence.nan(),
        0 <= batch.statistics().mean_confidence.value() <= one_in_units(),
{
    if batch.vectors@.len() > 0 {
        law_mean_in_unit_range(batch.confidences());
    }
}

/// Whether two batches hold the same vectors, in whatever order.
pub open spec fn same_vectors(a: PredictionBatch, b: PredictionBatch) -> bool {
    a.contents().to_multiset() == b.contents().to_multiset()
}

/// Whether every confidence, value and latency is finite and at most `bound` units away from
/// zero.
pub open spec fn outputs_within(batch: PredictionBatch, bound: int) -> bool {
    &&& all_within(batch.confidences(), bound)
    &&& all_within(batch.values(), bound)
    &&& all_within(batch.latencies(), bound)
}

/// A column of the batch, taken from what the vectors hold.
proof fn lemma_columns(batch: PredictionBatch)
    ensures
        batch.confidences() == batch.contents().map_values(
            |v: PredictionVectorView| v.output.confidence,
        ),
        batch.values() == batch.contents().map_values(|v: PredictionVectorView| v.output.value),
        batch.latencies() == batch.contents().map_values(
            |v: PredictionVectorView| v.output.latency_ms,
        ),
{
    assert(batch.confidences() =~= batch.contents().map_values(
        |v: PredictionVectorView| v.output.confidence,
    ));
    assert(batch.values() =~= batch.contents().map_values(
        |v: PredictionVectorView| v.output.value,
    ));
    assert(batch.latencies() =~= batch.contents().map_values(
        |v: PredictionVectorView| v.output.latency_ms,
    ));
}

/// Columns of the same vectors have the same elements.
proof fn lemma_column_members<A>(s: Seq<A>, t: Seq<A>, f: spec_fn(A) -> Binary64, x: Binary64)
    requires
        s.to_multiset() == t.to_multiset(),
        s.map_values(f).contains(x),
    ensures
        t.map_values(f).contains(x),
{
    broadcast use vstd::seq_lib::group_to_multiset_ensures;

    let i = choose|i: int| 0 <= i < s.len() && s.map_values(f)[i] == x;
    assert(s.contains(s[i]));
    assert(t.to_multiset().count(s[i]) > 0);
    let j = choose|j: int| 0 <= j < t.len() && t[j] == s[i];
    assert(t.map_values(f)[j] == x);
}

/// Bounds on a column hold in every order.
proof fn lemma_column_within<A>(s: Seq<A>, t: Seq<A>, f: spec_fn(A) -> Binary64, bound: int)
    requires
        s.to_multiset() == t.to_multiset(),
        all_within(s.map_values(f), bound),
    ensures
        all_within(t.map_values(f), bound),
{
    let (c, d) = (s.map_values(f), t.map_values(f));
    assert forall|j: int| 0 <= j < d.len() implies (#[trigger] d[j]).finite() && apart(
        d[j].value(),
        0,
    ) <= bound by {
        assert(d.contains(d[j]));
        lemma_column_members(t, s, f, d[j]);
        let i = choose|i: int| 0 <= i < c.len() && c[i] == d[j];
        assert(c[i].finite());
    }
}

/// Count, smallest and largest confidence do not depend on the order of the vectors.
pub proof fn law_stats_extremes_ignore_order(a: PredictionBatch, b: PredictionBatch)
    requires
        same_vectors(a, b),
    ensures
        a.statistics().count == b.statistics().count,
        a.statistics().min_confidence == b.statistics().min_confidence,
        a.statistics().max_confidence == b.statistics().max_confidence,
{
    broadcast use vstd::seq_lib::group_to_multiset_ensures;

    let (s, t) = (a.contents(), b.contents());
    assert(s.to_multiset().len() == t.to_multiset().len());
    assert(a.vectors@.len() == b.vectors@.len());
    lemma_columns(a);
    lemma_columns(b);
    let f = |v: PredictionVectorView| v.output.confidence;
    assert forall|x: Binary64| #[trigger] a.confidences().contains(x) implies b.confidences()
        .contains(x) by {
        lemma_column_members(s, t, f, x);
    }
    assert forall|x: Binary64| #[trigger] b.confidences().contains(x) implies a.confidences()
        .contains(x) by {
        lemma_column_members(t, s, f, x);
    }
    law_extremes_ignore_order(a.confidences(), b.confidences());
}

/// Whether two numbers are finite and differ by no more than `n` additions of numbers up to
/// `bound` units and a division may round: `2n + 4` parts in 2^52 of the bound, and two units.
pub open spec fn differ_by_rounding(x: Binary64, y: Binary64, n: nat, bound: int) -> bool {
    &&& x.finite()
    &&& y.finite()
    &&& apart(x.value(), y.value()) * EXPONENT_UNIT <= (2 * n + 4) * bound + 2 * EXPONENT_UNIT
}

/// The means of the same vectors in another order differ by rounding alone.
pub proof fn law_stats_means_in_any_order(a: PredictionBatch, b: PredictionBatch, bound: int)
    requires
        same_vectors(a, b),
        0 < a.vectors@.len() <= MOST_TERMS,
        outputs_within(a, bound),
        0 <= bound,
        (a.vectors@.len() + 1) * bound <= pow2(2097),
    ensures
        ({
            let (s, t) = (a.statistics(), b.statistics());
            let n = a.vectors@.len();
            &&& differ_by_rounding(s.mean_confidence, t.mean_confidence, n, bound)
            &&& differ_by_rounding(s.mean_value, t.mean_value, n, bound)
            &&& differ_by_rounding(s.mean_latency_ms, t.mean_latency_ms, n, bound)
        }),
{
    broadcast use vstd::seq_lib::group_to_multiset_ensures;

    let (s, t) = (a.contents(), b.contents());
    assert(s.to_multiset().len() == t.to_multiset().len());
    assert(a.vectors@.len() == b.vectors@.len());
    lemma_columns(a);
    lemma_columns(b);
    let confidence = |v: PredictionVectorView| v.output.confidence;
    let value = |v: PredictionVectorView| v.output.value;
    let latency = |v: PredictionVectorView| v.output.latency_ms;
    lemma_column_within(s, t, confidence, bound);
    lemma_column_within(s, t, value, bound);
    lemma_column_within(s, t, latency, bound);
    lemma_total_permuted(s, t, confidence);
    lemma_total_permuted(s, t, value);
    lemma_total_permuted(s, t, latency);
    lemma_means_close(a.confidences(), b.confidences(), bound);
    lemma_means_close(a.values(), b.values(), bound);
    lemma_means_close(a.latencies(), b.latencies(), bound);
}

/// Whether two numbers are finite and at most one part in 10^6 of one apart.
pub open spec fn within_a_millionth(x: Binary64, y: Binary64) -> bool {
    x.finite() && y.finite() && 1_000_000 * apart(x.value(), y.value()) <= one_in_units()
}

/// A sum of up to a thousand numbers up to a million does not overflow.
proof fn lemma_million_bounds(n: nat)
    requires
        n <= 1000,
    ensures
        (n + 1) * (1_000_000int * one_in_units()) <= pow2(2097),
        one_in_units() >= EXPONENT_UNIT,
{
    let one = one_in_units() as int;
    let bound = 1_000_000 * one;
    vstd::arithmetic::power2::lemma2_to64();
    vstd::arithmetic::power2::lemma2_to64_rest();
    lemma_pow2_adds(30, 1074);
    lemma_pow2_weakly_increases(1104, 2097);
    lemma_pow2_weakly_increases(52, 1074);
    assert((n + 1) * bound <= 0x4000_0000 * one) by (nonlinear_arith)
        requires
            n <= 1000,
            bound == 1_000_000 * one,
            one >= 0,
    ;
}

/// A batch of up to a thousand predictions, with no number beyond a million, has the same
/// statistics in every order of its vectors: count and extremes to the bit, means to within
/// 10^-6.
pub proof fn law_stats_ignore_order(a: PredictionBatch, b: PredictionBatch)
    requires
        same_vectors(a, b),
        a.vectors@.len() <= 1000,
        outputs_within(a, 1_000_000int * one_in_units()),
    ensures
        ({
            let (s, t) = (a.statistics(), b.statistics());
            &&& s.count == t.count
            &&& s.min_confidence == t.min_confidence
            &&& s.max_confidence == t.max_confidence
            &&& within_a_millionth(s.mean_confidence, t.mean_confidence)
            &&& within_a_millionth(s.mean_value, t.mean_value)
            &&& within_a_millionth(s.mean_latency_ms, t.mean_latency_ms)
        }),
{
    law_stats_extremes_ignore_order(a, b);
    let n = a.vectors@.len();
    if n > 0 {
        let one = one_in_units() as int;
        let bound = 1_000_000 * one;
        lemma_million_bounds(n);
        law_stats_means_in_any_order(a, b, bound);
        assert((2 * n + 4) * bound <= 2_004_000_000 * one) by (nonlinear_arith)
            requires
                n <= 1000,
                bound == 1_000_000 * one,
                one >= 0,
        ;
    } else {
        broadcast use vstd::seq_lib::group_to_multiset_ensures;

        assert(a.contents().to_multiset().len() == b.contents().to_multiset().len());
        assert(b.vectors@.len() == 0);
    }
}

/// The mean confidence lies between the smallest and the largest, to within 10^-6, for up to a
/// thousand predictions with no confidence beyond a million. Ten confidences of 0.1 have a mean
/// just below 0.1.
pub proof fn law_mean_confidence_between(batch: PredictionBatch)
    requires
        batch.vectors@.len() <= 1000,
        all_within(batch.confidences(), 1_000_000int * one_in_units()),
    ensures
        ({
            let stats = batch.statistics();
            let mean = stats.mean_confidence.value();
            &&& stats.mean_confidence.finite()
            &&& 1_000_000 * (mean - stats.max_confidence.value()) <= one_in_units()
            &&& 1_000_000 * (stats.min_confidence.value() - mean) <= one_in_units()
        }),
{
    let n = batch.vectors@.len();
    if n > 0 {
        let one = one_in_units() as int;
        let bound = 1_000_000 * one;
        lemma_million_bounds(n);
        lemma_mean_between(batch.confidences(), bound);
        assert((n + 2) * bound <= 1_002_000_000 * one) by (nonlinear_arith)
            requires
                n <= 1000,
                bound == 1_000_000 * one,
                one >= 0,
        ;
    }
}

/// Whether the mean of the numbers is finite and at most 10^-6 away from the exact mean, their
/// exact sum over their number.
pub open spec fn has_accurate_mean(s: Seq<Binary64>) -> bool {
    &&& mean(s).finite()
    &&& 1_000_000 * apart(mean(s).value() * s.len(), total(s)) <= s.len() * one_in_units()
}

/// The three means are accurate to 10^-6, for up to a thousand predictions with no number beyond
/// a million.
pub proof fn law_means_accurate(batch: PredictionBatch)
    requires
        0 < batch.vectors@.len() <= 1000,
        outputs_within(batch, 1_000_000int * one_in_units()),
    ensures
        has_accurate_mean(batch.confidences()),
        has_accurate_mean(batch.values()),
        has_accurate_mean(batch.latencies()),
{
    lemma_mean_of_million(batch.confidences());
    lemma_mean_of_million(batch.values());
    lemma_mean_of_million(batch.latencies());
}

/// The mean of up to a thousand numbers up to a million.
pub proof fn lemma_mean_of_million(s: Seq<Binary64>)
    requires
        0 < s.len() <= 1000,
        all_within(s, 1_000_000int * one_in_units()),
    ensures
        has_accurate_mean(s),
{
    let n = s.len() as int;
    let e = EXPONENT_UNIT as int;
    let one = one_in_units() as int;
    let bound = 1_000_000 * one;
    lemma_million_bounds(s.len());
    lemma_mean_error(s, bound);
    let off = apart(mean(s).value() * n, total(s));
    assert(1_000_000 * off <= n * one) by (nonlinear_arith)
        requires
            off * e <= n * e + (n * n + n + 1) * bound,
            bound == 1_000_000 * one,
            1 <= n <= 1000,
            e == 0x10_0000_0000_0000,
            one >= e,
    ;
}

/// Where no distance is less than another, the first vectors of the batch are found, in their
/// order.
pub proof fn law_nearest_of_none_nearer(
    batch: PredictionBatch,
    query: Seq<Binary64>,
    k: nat,
    found: Seq<&PredictionVector>,
    i: int,
)
    requires
        none_below(batch.distances(query)),
        batch.lists_nearest(query, k, found),
        0 <= i < found.len(),
    ensures
        *found[i] == batch.vectors@[i],
{
    let d = batch.distances(query);
    let order = choose|order: Seq<usize>|
        is_ranking(d, order) && batch.lists_first(order, k, found);
    lemma_original_order(order, i);
    assert(*found[i] == batch.vectors@[order[i] as int]);
}

/// Positions in their original order, none left out, are where they were.
pub proof fn lemma_original_order(order: Seq<usize>, i: int)
    requires
        in_original_order(order),
        lists_positions(order, 0, order.len() as int),
        0 <= i < order.len(),
    ensures
        order[i] == i,
{
    lemma_at_least_index(order, i);
    lemma_at_most_index(order, i);
}

proof fn lemma_at_least_index(order: Seq<usize>, i: int)
    requires
        in_original_order(order),
        0 <= i < order.len(),
    ensures
        order[i] >= i,
    decreases i,
{
    if i > 0 {
        lemma_at_least_index(order, i - 1);
        assert(order[i - 1] < order[i]);
    }
}

proof fn lemma_at_most_index(order: Seq<usize>, i: int)
    requires
        in_original_order(order),
        lists_positions(order, 0, order.len() as int),
        0 <= i < order.len(),
    ensures
        order[i] <= i,
    decreases order.len() - i,
{
    if i < order.len() - 1 {
        lemma_at_most_index(order, i + 1);
        assert(order[i] < order[i + 1]);
    }
}

} // verus!
