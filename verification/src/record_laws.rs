//! What the views of the records hold, when predictions are equal, how a prediction is written as
//! numbers, and what identifiers are.

use vstd::prelude::*;
use vstd::std_specs::cmp::PartialEqSpec;

use crate::arithmetic::one_in_units;
use crate::arithmetic_laws::lemma_integer_exact;
use crate::batch::PredictionBatch;
use crate::binary64::Binary64;
use crate::output::{PredictionOutput, PredictionType, PredictionTypeView};
use crate::stamp::is_random_uuid;
use crate::vector::PredictionVector;

verus! {

/// The view of a kind of prediction is that kind, with its targets.
pub proof fn law_type_view(t: PredictionType)
    ensures
        match t {
            PredictionType::ValuePrediction => t@ == PredictionTypeView::ValuePrediction,
            PredictionType::Classification => t@ == PredictionTypeView::Classification,
            PredictionType::AnomalyScore => t@ == PredictionTypeView::AnomalyScore,
            PredictionType::Action => t@ == PredictionTypeView::Action,
            PredictionType::Trend => t@ == PredictionTypeView::Trend,
            PredictionType::MultiTarget(targets) => t@ == PredictionTypeView::MultiTarget(targets@),
        },
{
}

/// The view of a prediction leaves nothing out.
pub proof fn law_output_view(o: PredictionOutput)
    ensures
        o@.prediction_type == o.prediction_type@,
        o@.value == o.value,
        o@.confidence == o.confidence,
        o@.model_name == o.model_name@,
        o@.latency_ms == o.latency_ms,
{
}

/// The view of a vector leaves nothing out.
pub proof fn law_vector_view(v: PredictionVector)
    ensures
        v@.id == v.id,
        v@.vector == v.vector@,
        v@.output == v.output@,
        v@.room_id == v.room_id@,
        v@.timestamp == v.timestamp,
{
}

/// The contents of a batch are the views of its vectors, and its columns are their numbers, in
/// order.
pub proof fn law_batch_columns(batch: PredictionBatch, i: int)
    requires
        0 <= i < batch.vectors@.len(),
    ensures
        batch.contents().len() == batch.vectors@.len(),
        batch.confidences().len() == batch.vectors@.len(),
        batch.values().len() == batch.vectors@.len(),
        batch.latencies().len() == batch.vectors@.len(),
        batch.contents()[i] == batch.vectors@[i]@,
        batch.confidences()[i] == batch.vectors@[i].output.confidence,
        batch.values()[i] == batch.vectors@[i].output.value,
        batch.latencies()[i] == batch.vectors@[i].output.latency_ms,
{
}

/// Whether two sequences have the same length and the same numbers, none of them a NaN.
pub open spec fn same_numbers(s: Seq<Binary64>, t: Seq<Binary64>) -> bool {
    &&& s.len() == t.len()
    &&& forall|i: int|
        0 <= i < s.len() ==> !(#[trigger] s[i]).nan() && !t[i].nan() && s[i].value()
            == t[i].value()
}

/// Kinds of prediction are equal where they are the same, with targets that are the same numbers.
pub proof fn law_type_equal(a: PredictionType, b: PredictionType)
    ensures
        a.eq_spec(&b) <==> match (a, b) {
            (PredictionType::ValuePrediction, PredictionType::ValuePrediction) => true,
            (PredictionType::Classification, PredictionType::Classification) => true,
            (PredictionType::AnomalyScore, PredictionType::AnomalyScore) => true,
            (PredictionType::Action, PredictionType::Action) => true,
            (PredictionType::Trend, PredictionType::Trend) => true,
            (PredictionType::MultiTarget(s), PredictionType::MultiTarget(t)) => same_numbers(
                s@,
                t@,
            ),
            _ => false,
        },
{
    match (a, b) {
        (PredictionType::MultiTarget(s), PredictionType::MultiTarget(t)) => {
            let (s, t) = (s@, t@);
            if a.eq_spec(&b) {
                assert forall|i: int| 0 <= i < s.len() implies !(#[trigger] s[i]).nan()
                    && !t[i].nan() && s[i].value() == t[i].value() by {
                    assert(s[i].equals(t[i]));
                }
            }
            if same_numbers(s, t) {
                assert forall|i: int| 0 <= i < s.len() implies (#[trigger] s[i]).equals(t[i]) by {
                    assert(!s[i].nan());
                }
            }
        },
        _ => {},
    }
}

/// Numbers are equal where they have the same value; a NaN equals nothing.
pub proof fn law_number_equal(x: Binary64, y: Binary64)
    ensures
        x.eq_spec(&y) <==> !x.nan() && !y.nan() && x.value() == y.value(),
{
}

/// The number of a kind of prediction: the kinds are counted from one.
pub open spec fn ordinal(t: PredictionType) -> nat {
    match t {
        PredictionType::ValuePrediction => 1,
        PredictionType::Classification => 2,
        PredictionType::AnomalyScore => 3,
        PredictionType::Action => 4,
        PredictionType::Trend => 5,
        PredictionType::MultiTarget(_) => 6,
    }
}

/// The targets of a kind of prediction.
pub open spec fn targets_of(t: PredictionType) -> Seq<Binary64> {
    match t {
        PredictionType::MultiTarget(targets) => targets@,
        _ => Seq::empty(),
    }
}

/// A prediction is written as its value, its confidence, the number of its kind and its targets,
/// in this order.
pub proof fn law_to_vector(o: PredictionOutput, i: int)
    requires
        0 <= i < targets_of(o.prediction_type).len(),
    ensures
        o@.to_vector()[i + 3] == targets_of(o.prediction_type)[i],
{
}

/// The first three numbers of a prediction, and how many there are.
pub proof fn law_to_vector_head(o: PredictionOutput)
    ensures
        ({
            let v = o@.to_vector();
            &&& v.len() == 3 + targets_of(o.prediction_type).len()
            &&& v[0] == o.value
            &&& v[1] == o.confidence
            &&& v[2].finite()
            &&& v[2].value() == ordinal(o.prediction_type) * one_in_units()
        }),
{
    lemma_integer_exact(ordinal(o.prediction_type));
}

/// A random identifier is a UUID of version 4, which its bits 76 to 79 hold, and of the variant
/// whose bits 62 and 63 are 0 and 1.
pub proof fn law_random_uuid(bits: u128)
    ensures
        is_random_uuid(bits) <==> (bits >> 76u128) & 0xf == 4 && (bits >> 62u128) & 1 == 0 && (bits
            >> 63u128) & 1 == 1,
{
    assert((bits / 0x1000_0000_0000_0000_0000) % 16 == 4 && (bits / 0x4000_0000_0000_0000) % 4 == 2
        <==> (bits >> 76u128) & 0xf == 4 && (bits >> 62u128) & 1 == 0 && (bits >> 63u128) & 1 == 1)
        by (bit_vector);
}

} // verus!
