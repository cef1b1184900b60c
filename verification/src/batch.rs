//! Batches of encoded predictions: search, selection and statistics.

use vstd::prelude::*;

use crate::binary64::Binary64;
use crate::encoder::PredEncodingMethod;
use crate::ranking::{is_ranking, rank};
use crate::sequences::{greatest, least, max_of, mean, mean_of, min_of};
use crate::vector::{distance, PredictionVector, PredictionVectorView};

verus! {

/// A batch of encoded prediction vectors.
#[derive(Debug)]
pub struct PredictionBatch {
    pub vectors: Vec<PredictionVector>,
    pub encoding_method: PredEncodingMethod,
}

/// Aggregate statistics for a prediction batch.
#[derive(Clone, Copy, Debug)]
pub struct PredBatchStats {
    pub count: usize,
    pub mean_confidence: Binary64,
    pub min_confidence: Binary64,
    pub max_confidence: Binary64,
    pub mean_value: Binary64,
    pub mean_latency_ms: Binary64,
}

impl Clone for PredictionBatch {
    fn clone(&self) -> (r: Self)
        ensures
            r.contents() == self.contents(),
            r.encoding_method == self.encoding_method,
    {
        let mut vectors: Vec<PredictionVector> = Vec::with_capacity(self.vectors.len());
        let mut i: usize = 0;
        while i < self.vectors.len()
            invariant
                i <= self.vectors@.len(),
                vectors@.len() == i,
                forall|j: int| 0 <= j < i ==> (#[trigger] vectors@[j])@ == self.vectors@[j]@,
            decreases self.vectors@.len() - i,
        {
            vectors.push(self.vectors[i].clone());
            i = i + 1;
        }
        let r = PredictionBatch { vectors, encoding_method: self.encoding_method.clone() };
        assert(r.contents() =~= self.contents());
        r
    }
}

impl PredictionBatch {
    /// What the vectors hold.
    pub open spec fn contents(self) -> Seq<PredictionVectorView> {
        self.vectors@.map_values(|v: PredictionVector| v@)
    }

    pub open spec fn confidences(self) -> Seq<Binary64> {
        self.vectors@.map_values(|v: PredictionVector| v.output.confidence)
    }

    pub open spec fn values(self) -> Seq<Binary64> {
        self.vectors@.map_values(|v: PredictionVector| v.output.value)
    }

    pub open spec fn latencies(self) -> Seq<Binary64> {
        self.vectors@.map_values(|v: PredictionVector| v.output.latency_ms)
    }

    /// How far each vector is from `query`.
    pub open spec fn distances(self, query: Seq<Binary64>) -> Seq<Binary64> {
        self.vectors@.map_values(|v: PredictionVector| distance(v.vector@, query))
    }

    /// Whether `found` lists the vectors at the first `k` positions of `order`.
    pub open spec fn lists_first(
        self,
        order: Seq<usize>,
        k: nat,
        found: Seq<&PredictionVector>,
    ) -> bool {
        &&& found.len() == if k <= order.len() {
            k
        } else {
            order.len()
        }
        &&& forall|i: int|
            0 <= i < found.len() ==> *#[trigger] found[i] == self.vectors@[order[i] as int]
    }

    /// Whether `found` lists the `k` vectors nearest to `query`: the first of a ranking by
    /// distance.
    pub open spec fn lists_nearest(
        self,
        query: Seq<Binary64>,
        k: nat,
        found: Seq<&PredictionVector>,
    ) -> bool {
        exists|order: Seq<usize>|
            #![trigger is_ranking(self.distances(query), order)]
            is_ranking(self.distances(query), order) && self.lists_first(order, k, found)
    }

    /// The vectors with at least the given confidence, in order.
    pub open spec fn with_confidence(self, min_confidence: Binary64) -> Seq<PredictionVector> {
        self.vectors@.filter(
            |v: PredictionVector| v.output.confidence.at_least(min_confidence),
        )
    }

    /// The statistics of the batch; those of an empty batch are all zero.
    pub open spec fn statistics(self) -> PredBatchStats {
        let zero = Binary64 { bits: 0 };
        if self.vectors@.len() == 0 {
            PredBatchStats {
                count: 0,
                mean_confidence: zero,
                min_confidence: zero,
                max_confidence: zero,
                mean_value: zero,
                mean_latency_ms: zero,
            }
        } else {
            PredBatchStats {
                count: self.vectors@.len() as usize,
                mean_confidence: mean(self.confidences()),
                min_confidence: least(self.confidences()),
                max_confidence: greatest(self.confidences()),
                mean_value: mean(self.values()),
                mean_latency_ms: mean(self.latencies()),
            }
        }
    }
}

impl PredictionBatch {
    /// Return the k nearest vectors to `query` by Euclidean distance, nearest first. Vectors at
    /// equal distance keep their order in the batch, and so do all vectors where no distance is
    /// less than another. Where some distances are NaN and others differ, which k vectors are
    /// returned and in which order is left open.
    pub fn nearest(&self, query: &PredictionVector, k: usize) -> (found: Vec<&PredictionVector>)
        ensures
            self.lists_nearest(query.vector@, k as nat, found@),
    {
        let mut distances: Vec<Binary64> = Vec::with_capacity(self.vectors.len());
        let mut i: usize = 0;
        while i < self.vectors.len()
            invariant
                i <= self.vectors@.len(),
                distances@.len() == i,
                forall|j: int|
                    0 <= j < i ==> #[trigger] distances@[j] == distance(
                        self.vectors@[j].vector@,
                        query.vector@,
                    ),
            decreases self.vectors@.len() - i,
        {
            distances.push(PredictionVector::euclidean(&self.vectors[i], query));
            i = i + 1;
        }
        assert(distances@ =~= self.distances(query.vector@));
        let order: Vec<usize> = rank(&distances);
        let mut found: Vec<&PredictionVector> = Vec::new();
        let mut n: usize = 0;
        while n < order.len() && n < k
            invariant
                n <= order@.len(),
                n <= k,
                found@.len() == n,
                is_ranking(distances@, order@),
                distances@.len() == self.vectors@.len(),
                forall|j: int|
                    0 <= j < n ==> *#[trigger] found@[j] == self.vectors@[order@[j] as int],
            decreases order@.len() - n,
        {
            found.push(&self.vectors[order[n]]);
            n = n + 1;
        }
        assert(is_ranking(self.distances(query.vector@), order@));
        assert(self.lists_first(order@, k as nat, found@));
        found
    }

    /// Filter vectors by minimum confidence. The vectors keep their order.
    pub fn filter_by_confidence(&self, min_confidence: Binary64) -> (found: Vec<&PredictionVector>)
        ensures
            found@.map_values(|v: &PredictionVector| *v) == self.with_confidence(min_confidence),
    {
        let ghost wanted = |v: PredictionVector| v.output.confidence.at_least(min_confidence);
        let mut found: Vec<&PredictionVector> = Vec::new();
        let mut i: usize = 0;
        proof {
            reveal(Seq::filter);
            assert(self.vectors@.take(0) =~= Seq::<PredictionVector>::empty());
            assert(found@.map_values(|v: &PredictionVector| *v) =~= self.vectors@.take(0).filter(
                wanted,
            ));
        }
        while i < self.vectors.len()
            invariant
                i <= self.vectors@.len(),
                wanted == (|v: PredictionVector| v.output.confidence.at_least(min_confidence)),
                found@.map_values(|v: &PredictionVector| *v) == self.vectors@.take(
                    i as int,
                ).filter(wanted),
            decreases self.vectors@.len() - i,
        {
            let ghost before = found@;
            proof {
                reveal(Seq::filter);
                assert(self.vectors@.take(i + 1).drop_last() =~= self.vectors@.take(i as int));
            }
            if self.vectors[i].output.confidence.greater_or_equal(min_confidence) {
                found.push(&self.vectors[i]);
                assert(found@.map_values(|v: &PredictionVector| *v) =~= before.map_values(
                    |v: &PredictionVector| *v,
                ).push(self.vectors@[i as int]));
            }
            i = i + 1;
        }
        assert(self.vectors@.take(i as int) =~= self.vectors@);
        found
    }

    /// Compute aggregate statistics for the batch. Those of an empty batch are all zero.
    pub fn stats(&self) -> (r: PredBatchStats)
        ensures
            r == self.statistics(),
    {
        let count: usize = self.vectors.len();
        if count == 0 {
            let zero: Binary64 = Binary64 { bits: 0 };
            return PredBatchStats {
                count: 0,
                mean_confidence: zero,
                min_confidence: zero,
                max_confidence: zero,
                mean_value: zero,
                mean_latency_ms: zero,
            };
        }
        let mut confidences: Vec<Binary64> = Vec::with_capacity(count);
        let mut values: Vec<Binary64> = Vec::with_capacity(count);
        let mut latencies: Vec<Binary64> = Vec::with_capacity(count);
        let mut i: usize = 0;
        while i < count
            invariant
                i <= count,
                count == self.vectors@.len(),
                confidences@ == self.confidences().take(i as int),
                values@ == self.values().take(i as int),
                latencies@ == self.latencies().take(i as int),
            decreases count - i,
        {
            confidences.push(self.vectors[i].output.confidence);
            values.push(self.vectors[i].output.value);
            latencies.push(self.vectors[i].output.latency_ms);
            i = i + 1;
            assert(confidences@ =~= self.confidences().take(i as int));
            assert(values@ =~= self.values().take(i as int));
            assert(latencies@ =~= self.latencies().take(i as int));
        }
        assert(confidences@ =~= self.confidences());
        assert(values@ =~= self.values());
        assert(latencies@ =~= self.latencies());
        PredBatchStats {
            count,
            mean_confidence: mean_of(confidences.as_slice()),
            min_confidence: min_of(confidences.as_slice()),
            max_confidence: max_of(confidences.as_slice()),
            mean_value: mean_of(values.as_slice()),
            mean_latency_ms: mean_of(latencies.as_slice()),
        }
    }
}

} // verus!
