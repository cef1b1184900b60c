//! Predictions as a model produces them.

use vstd::prelude::*;

use crate::arithmetic::integer;
use crate::binary64::Binary64;

verus! {

/// Kinds of predictions the model can produce.
#[derive(Debug)]
pub enum PredictionType {
    ValuePrediction,
    Classification,
    AnomalyScore,
    Action,
    Trend,
    MultiTarget(Vec<Binary64>),
}

/// What a [`PredictionType`] holds.
pub enum PredictionTypeView {
    ValuePrediction,
    Classification,
    AnomalyScore,
    Action,
    Trend,
    MultiTarget(Seq<Binary64>),
}

impl View for PredictionType {
    type V = PredictionTypeView;

    open spec fn view(&self) -> PredictionTypeView {
        match self {
            PredictionType::ValuePrediction => PredictionTypeView::ValuePrediction,
            PredictionType::Classification => PredictionTypeView::Classification,
            PredictionType::AnomalyScore => PredictionTypeView::AnomalyScore,
            PredictionType::Action => PredictionTypeView::Action,
            PredictionType::Trend => PredictionTypeView::Trend,
            PredictionType::MultiTarget(targets) => PredictionTypeView::MultiTarget(targets@),
        }
    }
}

impl PredictionTypeView {
    /// The number by which a vector names the kind of its prediction.
    pub open spec fn code(self) -> nat {
        match self {
            PredictionTypeView::ValuePrediction => 1,
            PredictionTypeView::Classification => 2,
            PredictionTypeView::AnomalyScore => 3,
            PredictionTypeView::Action => 4,
            PredictionTypeView::Trend => 5,
            PredictionTypeView::MultiTarget(_) => 6,
        }
    }

    /// The targets that a vector lists after the kind.
    pub open spec fn targets(self) -> Seq<Binary64> {
        match self {
            PredictionTypeView::MultiTarget(targets) => targets,
            _ => Seq::empty(),
        }
    }
}

impl Clone for PredictionType {
    fn clone(&self) -> (r: Self)
        ensures
            r@ == self@,
    {
        match self {
            PredictionType::ValuePrediction => PredictionType::ValuePrediction,
            PredictionType::Classification => PredictionType::Classification,
            PredictionType::AnomalyScore => PredictionType::AnomalyScore,
            PredictionType::Action => PredictionType::Action,
            PredictionType::Trend => PredictionType::Trend,
            PredictionType::MultiTarget(targets) => {
                let copy: Vec<Binary64> = targets.clone();
                assert(copy@ =~= targets@);
                PredictionType::MultiTarget(copy)
            },
        }
    }
}

/// Whether two sequences hold equal numbers; a NaN equals nothing.
pub open spec fn all_equal(a: Seq<Binary64>, b: Seq<Binary64>) -> bool {
    a.len() == b.len() && forall|i: int| 0 <= i < a.len() ==> (#[trigger] a[i]).equals(b[i])
}

fn vectors_equal(a: &Vec<Binary64>, b: &Vec<Binary64>) -> (r: bool)
    ensures
        r == all_equal(a@, b@),
{
    if a.len() != b.len() {
        return false;
    }
    let mut i: usize = 0;
    while i < a.len()
        invariant
            i <= a@.len(),
            a@.len() == b@.len(),
            forall|j: int| 0 <= j < i ==> (#[trigger] a@[j]).equals(b@[j]),
        decreases a@.len() - i,
    {
        if a[i] != b[i] {
            assert(!a@[i as int].equals(b@[i as int]));
            return false;
        }
        i = i + 1;
    }
    true
}

impl PartialEq for PredictionType {
    fn eq(&self, other: &Self) -> (r: bool) {
        match (self, other) {
            (PredictionType::ValuePrediction, PredictionType::ValuePrediction) => true,
            (PredictionType::Classification, PredictionType::Classification) => true,
            (PredictionType::AnomalyScore, PredictionType::AnomalyScore) => true,
            (PredictionType::Action, PredictionType::Action) => true,
            (PredictionType::Trend, PredictionType::Trend) => true,
            (PredictionType::MultiTarget(a), PredictionType::MultiTarget(b)) => vectors_equal(a, b),
            _ => false,
        }
    }
}

impl vstd::std_specs::cmp::PartialEqSpecImpl for PredictionType {
    open spec fn obeys_eq_spec() -> bool {
        true
    }

    open spec fn eq_spec(&self, other: &Self) -> bool {
        self@.code() == other@.code() && all_equal(self@.targets(), other@.targets())
    }
}

/// A single prediction produced by a model.
#[derive(Debug)]
pub struct PredictionOutput {
    pub prediction_type: PredictionType,
    pub value: Binary64,
    pub confidence: Binary64,
    pub model_name: String,
    pub latency_ms: Binary64,
}

/// What a [`PredictionOutput`] holds.
pub struct PredictionOutputView {
    pub prediction_type: PredictionTypeView,
    pub value: Binary64,
    pub confidence: Binary64,
    pub model_name: Seq<char>,
    pub latency_ms: Binary64,
}

impl View for PredictionOutput {
    type V = PredictionOutputView;

    open spec fn view(&self) -> PredictionOutputView {
        PredictionOutputView {
            prediction_type: self.prediction_type@,
            value: self.value,
            confidence: self.confidence,
            model_name: self.model_name@,
            latency_ms: self.latency_ms,
        }
    }
}

impl PredictionOutputView {
    /// The prediction as numbers: the value, the confidence, the code of its kind, its targets.
    pub open spec fn to_vector(self) -> Seq<Binary64> {
        seq![self.value, self.confidence, integer(self.prediction_type.code())]
            + self.prediction_type.targets()
    }
}

impl Clone for PredictionOutput {
    fn clone(&self) -> (r: Self)
        ensures
            r@ == self@,
    {
        PredictionOutput {
            prediction_type: self.prediction_type.clone(),
            value: self.value,
            confidence: self.confidence,
            model_name: self.model_name.clone(),
            latency_ms: self.latency_ms,
        }
    }
}

impl PredictionOutput {
    /// A prediction by an unnamed model, with no latency recorded.
    pub fn new(pred_type: PredictionType, value: Binary64, confidence: Binary64) -> (r: Self)
        ensures
            r@ == (PredictionOutputView {
                prediction_type: pred_type@,
                value,
                confidence,
                model_name: Seq::empty(),
                latency_ms: Binary64 { bits: 0 },
            }),
    {
        Self {
            prediction_type: pred_type,
            value,
            confidence,
            model_name: String::new(),
            latency_ms: Binary64 { bits: 0 },
        }
    }

    /// Encode this prediction as a vector.
    pub fn to_vector(&self) -> (v: Vec<Binary64>)
        ensures
            v@ == self@.to_vector(),
    {
        let mut v: Vec<Binary64> = vec![self.value, self.confidence];
        match &self.prediction_type {
            PredictionType::ValuePrediction => v.push(Binary64::from_usize(1)),
            PredictionType::Classification => v.push(Binary64::from_usize(2)),
            PredictionType::AnomalyScore => v.push(Binary64::from_usize(3)),
            PredictionType::Action => v.push(Binary64::from_usize(4)),
            PredictionType::Trend => v.push(Binary64::from_usize(5)),
            PredictionType::MultiTarget(targets) => {
                v.push(Binary64::from_usize(6));
                v.extend_from_slice(targets.as_slice());
            },
        }
        assert(v@ =~= self@.to_vector());
        v
    }
}

} // verus!
