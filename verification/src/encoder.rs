//! The encoder.

use vstd::prelude::*;

use crate::batch::PredictionBatch;
use crate::binary64::Binary64;
use crate::output::{PredictionOutput, PredictionOutputView};
use crate::sequences::{greatest, least, max_of, mean, mean_of, min_of};
use crate::stamp::{is_random_uuid, now, VectorId};
use crate::vector::{PredictionVector, PredictionVectorView};

verus! {

/// Encoding method for turning prediction outputs into vectors.
#[derive(Debug, PartialEq, Eq, Structural)]
pub enum PredEncodingMethod {
    Raw,
    Confidence,
    Hierarchical,
    MultiHead { heads: usize },
}

impl Clone for PredEncodingMethod {
    fn clone(&self) -> (r: Self)
        ensures
            r == *self,
    {
        match self {
            PredEncodingMethod::Raw => PredEncodingMethod::Raw,
            PredEncodingMethod::Confidence => PredEncodingMethod::Confidence,
            PredEncodingMethod::Hierarchical => PredEncodingMethod::Hierarchical,
            PredEncodingMethod::MultiHead { heads } => PredEncodingMethod::MultiHead {
                heads: *heads,
            },
        }
    }
}

/// Encoder that transforms `PredictionOutput`s into `PredictionVector`s.
#[derive(Debug)]
pub struct PredictionEncoder {
    pub input_dim: usize,
    pub output_dim: usize,
    pub method: PredEncodingMethod,
}

impl Clone for PredictionEncoder {
    fn clone(&self) -> (r: Self)
        ensures
            r == *self,
    {
        PredictionEncoder {
            input_dim: self.input_dim,
            output_dim: self.output_dim,
            method: self.method.clone(),
        }
    }
}

/// The sequence `s`, `heads` times in a row.
pub open spec fn repeated(s: Seq<Binary64>, heads: nat) -> Seq<Binary64> {
    Seq::new(s.len() * heads, |i: int| s[i % (s.len() as int)])
}

/// The components that a method computes from a prediction.
pub open spec fn features(method: PredEncodingMethod, output: PredictionOutputView) -> Seq<
    Binary64,
> {
    let raw = output.to_vector();
    match method {
        PredEncodingMethod::Raw => raw,
        PredEncodingMethod::Confidence => raw.map_values(
            |x: Binary64| x.times(output.confidence),
        ),
        PredEncodingMethod::Hierarchical => raw + seq![mean(raw), greatest(raw), least(raw)],
        PredEncodingMethod::MultiHead { heads } => repeated(raw, heads as nat),
    }
}

/// The first `n` components of `s`, padded with zeros.
pub open spec fn fitted(s: Seq<Binary64>, n: nat) -> Seq<Binary64> {
    Seq::new(
        n,
        |i: int|
            if i < s.len() {
                s[i]
            } else {
                Binary64 { bits: 0 }
            },
    )
}

impl PredictionEncoder {
    /// The components of the encoded vector.
    pub open spec fn components(self, output: PredictionOutputView) -> Seq<Binary64> {
        fitted(features(self.method, output), self.output_dim as nat)
    }

    /// The vector that a prediction is encoded to, given its identifier and time.
    pub open spec fn encoding(
        self,
        output: PredictionOutputView,
        id: VectorId,
        timestamp: u64,
    ) -> PredictionVectorView {
        PredictionVectorView {
            id,
            vector: self.components(output),
            output,
            room_id: Seq::empty(),
            timestamp,
        }
    }

    /// Whether the vectors that encoding makes are within the size that a `Vec` can have:
    /// `isize::MAX` bytes, at eight bytes a component.
    pub open spec fn can_encode(self, output: PredictionOutputView) -> bool {
        &&& self.output_dim * 8 <= isize::MAX
        &&& self.method matches PredEncodingMethod::MultiHead { heads } ==> output.to_vector().len()
            * heads * 8 <= isize::MAX
    }
}

/// Repeats a vector.
fn repeat(raw: &Vec<Binary64>, heads: usize) -> (v: Vec<Binary64>)
    requires
        raw@.len() > 0,
        raw@.len() * heads <= usize::MAX,
    ensures
        v@ == repeated(raw@, heads as nat),
{
    let mut v: Vec<Binary64> = Vec::with_capacity(raw.len() * heads);
    let mut head: usize = 0;
    while head < heads
        invariant
            head <= heads,
            raw@.len() > 0,
            v@ == repeated(raw@, head as nat),
        decreases heads - head,
    {
        v.extend_from_slice(raw.as_slice());
        proof {
            lemma_repeated_once_more(raw@, head as nat);
            assert(v@ =~= repeated(raw@, head as nat) + raw@);
        }
        head = head + 1;
    }
    v
}

proof fn lemma_repeated_once_more(s: Seq<Binary64>, heads: nat)
    requires
        s.len() > 0,
    ensures
        repeated(s, heads + 1) == repeated(s, heads) + s,
{
    let n = s.len();
    let all = repeated(s, heads + 1);
    let sum = repeated(s, heads) + s;
    assert(n * (heads + 1) == n * heads + n) by (nonlinear_arith);
    assert forall|i: int| 0 <= i < all.len() implies all[i] == sum[i] by {
        if i >= n * heads {
            let j = i - n * heads;
            assert(i == heads * n + j) by (nonlinear_arith)
                requires
                    j == i - n * heads,
            ;
            vstd::arithmetic::div_mod::lemma_fundamental_div_mod_converse(
                i,
                n as int,
                heads as int,
                j,
            );
        }
    }
    assert(all =~= sum);
}

/// Multiplies every component.
fn scale(raw: &Vec<Binary64>, factor: Binary64) -> (v: Vec<Binary64>)
    ensures
        v@ == raw@.map_values(|x: Binary64| x.times(factor)),
{
    let mut v: Vec<Binary64> = Vec::with_capacity(raw.len());
    let mut i: usize = 0;
    while i < raw.len()
        invariant
            i <= raw@.len(),
            v@.len() == i,
            forall|j: int| 0 <= j < i ==> #[trigger] v@[j] == raw@[j].times(factor),
        decreases raw@.len() - i,
    {
        v.push(raw[i].mul(factor));
        i = i + 1;
    }
    assert(v@ =~= raw@.map_values(|x: Binary64| x.times(factor)));
    v
}

impl PredictionEncoder {
    pub fn new(input_dim: usize, output_dim: usize, method: PredEncodingMethod) -> (r: Self)
        ensures
            r.input_dim == input_dim,
            r.output_dim == output_dim,
            r.method == method,
    {
        Self { input_dim, output_dim, method }
    }

    /// Encode a single prediction output under the given identifier and time.
    pub fn encode_stamped(
        &self,
        output: &PredictionOutput,
        id: VectorId,
        timestamp: u64,
    ) -> (pv: PredictionVector)
        requires
            self.can_encode(output@),
        ensures
            pv@ == self.encoding(output@, id, timestamp),
    {
        let raw: Vec<Binary64> = output.to_vector();
        let mut vector: Vec<Binary64> = match &self.method {
            PredEncodingMethod::Raw => raw,
            // Weight every element by confidence.
            PredEncodingMethod::Confidence => scale(&raw, output.confidence),
            PredEncodingMethod::Hierarchical => {
                // Append hierarchical summary features.
                let mean: Binary64 = mean_of(raw.as_slice());
                let max: Binary64 = max_of(raw.as_slice());
                let min: Binary64 = min_of(raw.as_slice());
                let mut v: Vec<Binary64> = raw;
                v.push(mean);
                v.push(max);
                v.push(min);
                v
            },
            PredEncodingMethod::MultiHead { heads } => repeat(&raw, *heads),
        };
        assert(vector@ =~= features(self.method, output@));
        // Pad or truncate to output_dim.
        vector.resize(self.output_dim, Binary64 { bits: 0 });
        assert(vector@ =~= self.components(output@));
        PredictionVector {
            id,
            vector,
            output: output.clone(),
            room_id: String::new(),
            timestamp,
        }
    }

    /// Encode a single prediction output into a prediction vector, stamped with a new random
    /// identifier and the current time.
    pub fn encode(&self, output: &PredictionOutput) -> (pv: PredictionVector)
        requires
            self.can_encode(output@),
        ensures
            pv@ == self.encoding(output@, pv.id, pv.timestamp),
            is_random_uuid(pv.id.bits),
    {
        self.encode_stamped(output, VectorId::new_v4(), now())
    }

    /// Encode a slice of prediction outputs into a batch, in order.
    pub fn encode_batch(&self, outputs: &[PredictionOutput]) -> (batch: PredictionBatch)
        requires
            forall|i: int| 0 <= i < outputs@.len() ==> self.can_encode(#[trigger] outputs@[i]@),
        ensures
            batch.encoding_method == self.method,
            batch.vectors@.len() == outputs@.len(),
            forall|i: int|
                0 <= i < outputs@.len() ==> {
                    let pv = #[trigger] batch.vectors@[i];
                    &&& pv@ == self.encoding(outputs@[i]@, pv.id, pv.timestamp)
                    &&& is_random_uuid(pv.id.bits)
                },
    {
        let mut vectors: Vec<PredictionVector> = Vec::with_capacity(outputs.len());
        let mut i: usize = 0;
        while i < outputs.len()
            invariant
                i <= outputs@.len(),
                vectors@.len() == i,
                forall|j: int|
                    0 <= j < outputs@.len() ==> self.can_encode(#[trigger] outputs@[j]@),
                forall|j: int|
                    0 <= j < i ==> {
                        let pv = #[trigger] vectors@[j];
                        &&& pv@ == self.encoding(outputs@[j]@, pv.id, pv.timestamp)
                        &&& is_random_uuid(pv.id.bits)
                    },
            decreases outputs@.len() - i,
        {
            vectors.push(self.encode(&outputs[i]));
            i = i + 1;
        }
        PredictionBatch { vectors, encoding_method: self.method.clone() }
    }
}

} // verus!
