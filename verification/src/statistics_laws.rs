//! What each field of the statistics of a batch is.

use vstd::arithmetic::power2::pow2;
use vstd::prelude::*;

use crate::accuracy::{all_within, apart, lemma_mean_error, total, MOST_TERMS};
use crate::arithmetic::{integer, one_in_units};
use crate::batch::PredictionBatch;
use crate::batch_laws::lemma_mean_of_million;
use crate::binary64::{Binary64, EXPONENT_UNIT};
use crate::sequence_laws::{is_maximum, is_minimum, is_running_sum, law_extremes, law_running_sum};

verus! {

/// Whether `s` lists the confidences of the predictions in the batch.
pub open spec fn are_confidences(s: Seq<Binary64>, batch: PredictionBatch) -> bool {
    &&& s.len() == batch.vectors@.len()
    &&& forall|i: int| 0 <= i < s.len() ==> #[trigger] s[i] == batch.vectors@[i].output.confidence
}

/// Whether `s` lists the values of the predictions in the batch.
pub open spec fn are_values(s: Seq<Binary64>, batch: PredictionBatch) -> bool {
    &&& s.len() == batch.vectors@.len()
    &&& forall|i: int| 0 <= i < s.len() ==> #[trigger] s[i] == batch.vectors@[i].output.value
}

/// Whether `s` lists the latencies of the predictions in the batch.
pub open spec fn are_latencies(s: Seq<Binary64>, batch: PredictionBatch) -> bool {
    &&& s.len() == batch.vectors@.len()
    &&& forall|i: int| 0 <= i < s.len() ==> #[trigger] s[i] == batch.vectors@[i].output.latency_ms
}

/// The count is the number of vectors, and an empty batch has zeros for the rest.
pub proof fn law_statistics_count(batch: PredictionBatch)
    requires
        batch.vectors@.len() <= usize::MAX,
    ensures
        batch.statistics().count == batch.vectors@.len(),
        batch.vectors@.len() == 0 ==> {
            let stats = batch.statistics();
            &&& stats.mean_confidence.bits == 0
            &&& stats.min_confidence.bits == 0
            &&& stats.max_confidence.bits == 0
            &&& stats.mean_value.bits == 0
            &&& stats.mean_latency_ms.bits == 0
        },
{
}

/// The smallest and the largest confidence are confidences of the batch that none is beyond.
pub proof fn law_statistics_extremes(batch: PredictionBatch, confidences: Seq<Binary64>)
    requires
        batch.vectors@.len() > 0,
        are_confidences(confidences, batch),
    ensures
        is_maximum(batch.statistics().max_confidence, confidences),
        is_minimum(batch.statistics().min_confidence, confidences),
{
    assert(confidences =~= batch.confidences());
    law_extremes(confidences);
}

/// The mean confidence is the running sum of the confidences over their number.
pub proof fn law_statistics_mean_confidence(
    batch: PredictionBatch,
    confidences: Seq<Binary64>,
    sums: Seq<Binary64>,
)
    requires
        batch.vectors@.len() > 0,
        are_confidences(confidences, batch),
        is_running_sum(sums, confidences),
    ensures
        ({
            let n = batch.vectors@.len();
            batch.statistics().mean_confidence == sums[n as int].over(integer(n))
        }),
{
    assert(confidences =~= batch.confidences());
    law_running_sum(sums, confidences);
}

/// The mean value is the running sum of the values over their number.
pub proof fn law_statistics_mean_value(
    batch: PredictionBatch,
    values: Seq<Binary64>,
    sums: Seq<Binary64>,
)
    requires
        batch.vectors@.len() > 0,
        are_values(values, batch),
        is_running_sum(sums, values),
    ensures
        ({
            let n = batch.vectors@.len();
            batch.statistics().mean_value == sums[n as int].over(integer(n))
        }),
{
    assert(values =~= batch.values());
    law_running_sum(sums, values);
}

/// The mean latency is the running sum of the latencies over their number.
pub proof fn law_statistics_mean_latency(
    batch: PredictionBatch,
    latencies: Seq<Binary64>,
    sums: Seq<Binary64>,
)
    requires
        batch.vectors@.len() > 0,
        are_latencies(latencies, batch),
        is_running_sum(sums, latencies),
    ensures
        ({
            let n = batch.vectors@.len();
            batch.statistics().mean_latency_ms == sums[n as int].over(integer(n))
        }),
{
    assert(latencies =~= batch.latencies());
    law_running_sum(sums, latencies);
}

/// Whether `m` times the number of elements is within rounding of their exact sum, where no
/// element is more than `bound` units away from zero.
pub open spec fn is_mean_within_rounding(m: Binary64, s: Seq<Binary64>, bound: int) -> bool {
    let n = s.len() as int;
    let e = EXPONENT_UNIT as int;
    &&& m.finite()
    &&& apart(m.value() * n, total(s)) * e <= n * e + (n * n + n + 1) * bound
}

/// Each mean in the statistics, times the count, is within rounding of the exact sum of what it
/// is the mean of: the confidences, the values and the latencies.
pub proof fn law_statistics_within_rounding(
    batch: PredictionBatch,
    confidences: Seq<Binary64>,
    values: Seq<Binary64>,
    latencies: Seq<Binary64>,
    bound: int,
)
    requires
        0 < batch.vectors@.len() <= MOST_TERMS,
        are_confidences(confidences, batch),
        are_values(values, batch),
        are_latencies(latencies, batch),
        all_within(confidences, bound),
        all_within(values, bound),
        all_within(latencies, bound),
        0 <= bound,
        (batch.vectors@.len() + 1) * bound <= pow2(2097),
    ensures
        is_mean_within_rounding(batch.statistics().mean_confidence, confidences, bound),
        is_mean_within_rounding(batch.statistics().mean_value, values, bound),
        is_mean_within_rounding(batch.statistics().mean_latency_ms, latencies, bound),
{
    assert(confidences =~= batch.confidences());
    assert(values =~= batch.values());
    assert(latencies =~= batch.latencies());
    lemma_mean_error(confidences, bound);
    lemma_mean_error(values, bound);
    lemma_mean_error(latencies, bound);
}

/// Whether `m` is finite and at most 10^-6 away from the exact mean of the elements.
pub open spec fn is_mean_to_a_millionth(m: Binary64, s: Seq<Binary64>) -> bool {
    &&& m.finite()
    &&& 1_000_000 * apart(m.value() * s.len(), total(s)) <= s.len() * one_in_units()
}

/// The three means in the statistics are accurate to 10^-6, for up to a thousand predictions with
/// no number beyond a million.
pub proof fn law_statistics_accurate(
    batch: PredictionBatch,
    confidences: Seq<Binary64>,
    values: Seq<Binary64>,
    latencies: Seq<Binary64>,
)
    requires
        0 < batch.vectors@.len() <= 1000,
        are_confidences(confidences, batch),
        are_values(values, batch),
        are_latencies(latencies, batch),
        all_within(confidences, 1_000_000int * one_in_units()),
        all_within(values, 1_000_000int * one_in_units()),
        all_within(latencies, 1_000_000int * one_in_units()),
    ensures
        is_mean_to_a_millionth(batch.statistics().mean_confidence, confidences),
        is_mean_to_a_millionth(batch.statistics().mean_value, values),
        is_mean_to_a_millionth(batch.statistics().mean_latency_ms, latencies),
{
    assert(confidences =~= batch.confidences());
    assert(values =~= batch.values());
    assert(latencies =~= batch.latencies());
    lemma_mean_of_million(confidences);
    lemma_mean_of_million(values);
    lemma_mean_of_million(latencies);
}

} // verus!
