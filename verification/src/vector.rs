//! Encoded predictions, and how alike two of them are.

use vstd::prelude::*;

use crate::binary64::Binary64;
use crate::output::{PredictionOutput, PredictionOutputView};
use crate::sequences::{sum, NEG_ZERO_BITS};
use crate::stamp::VectorId;

verus! {

/// A prediction encoded as a vector, ready for storage in the prediction DB.
#[derive(Debug)]
pub struct PredictionVector {
    pub id: VectorId,
    pub vector: Vec<Binary64>,
    pub output: PredictionOutput,
    pub room_id: String,
    pub timestamp: u64,
}

/// What a [`PredictionVector`] holds.
pub struct PredictionVectorView {
    pub id: VectorId,
    pub vector: Seq<Binary64>,
    pub output: PredictionOutputView,
    pub room_id: Seq<char>,
    pub timestamp: u64,
}

impl View for PredictionVector {
    type V = PredictionVectorView;

    open spec fn view(&self) -> PredictionVectorView {
        PredictionVectorView {
            id: self.id,
            vector: self.vector@,
            output: self.output@,
            room_id: self.room_id@,
            timestamp: self.timestamp,
        }
    }
}

impl Clone for PredictionVector {
    fn clone(&self) -> (r: Self)
        ensures
            r@ == self@,
    {
        let vector: Vec<Binary64> = self.vector.clone();
        assert(vector@ =~= self.vector@);
        PredictionVector {
            id: self.id,
            vector,
            output: self.output.clone(),
            room_id: self.room_id.clone(),
            timestamp: self.timestamp,
        }
    }
}

/// The length of the shorter of two vectors. Vectors are compared over this many components.
pub open spec fn common_len(a: Seq<Binary64>, b: Seq<Binary64>) -> nat {
    if a.len() <= b.len() {
        a.len()
    } else {
        b.len()
    }
}

/// The products of the first `n` components of two vectors.
pub open spec fn products(a: Seq<Binary64>, b: Seq<Binary64>, n: nat) -> Seq<Binary64> {
    Seq::new(n, |i: int| a[i].times(b[i]))
}

/// The length of the vector made of the first `n` components.
pub open spec fn norm(a: Seq<Binary64>, n: nat) -> Binary64 {
    sum(products(a, a, n)).root()
}

/// The cosine of the angle between two vectors; zero where a vector has no direction.
pub open spec fn cosine(a: Seq<Binary64>, b: Seq<Binary64>) -> Binary64 {
    let n = common_len(a, b);
    if n == 0 || norm(a, n).zero() || norm(b, n).zero() {
        Binary64 { bits: 0 }
    } else {
        sum(products(a, b, n)).over(norm(a, n).times(norm(b, n)))
    }
}

/// The squared differences of the first `n` components of two vectors.
pub open spec fn squared_differences(a: Seq<Binary64>, b: Seq<Binary64>, n: nat) -> Seq<
    Binary64,
> {
    Seq::new(n, |i: int| a[i].minus(b[i]).times(a[i].minus(b[i])))
}

/// The Euclidean distance of two vectors.
pub open spec fn distance(a: Seq<Binary64>, b: Seq<Binary64>) -> Binary64 {
    sum(squared_differences(a, b, common_len(a, b))).root()
}

/// The sum of the products of the first `n` components.
fn dot(a: &Vec<Binary64>, b: &Vec<Binary64>, n: usize) -> (r: Binary64)
    requires
        n <= a@.len(),
        n <= b@.len(),
    ensures
        r == sum(products(a@, b@, n as nat)),
{
    let mut total: Binary64 = Binary64 { bits: NEG_ZERO_BITS };
    let mut i: usize = 0;
    while i < n
        invariant
            i <= n,
            n <= a@.len(),
            n <= b@.len(),
            total == sum(products(a@, b@, i as nat)),
        decreases n - i,
    {
        assert(products(a@, b@, (i + 1) as nat).drop_last() =~= products(a@, b@, i as nat));
        total = total.add(a[i].mul(b[i]));
        i = i + 1;
    }
    total
}

fn shorter_len(a: &Vec<Binary64>, b: &Vec<Binary64>) -> (n: usize)
    ensures
        n == common_len(a@, b@),
{
    if a.len() <= b.len() {
        a.len()
    } else {
        b.len()
    }
}

impl PredictionVector {
    /// The cosine similarity of two vectors.
    pub fn cosine_similarity(a: &Self, b: &Self) -> (r: Binary64)
        ensures
            r == cosine(a.vector@, b.vector@),
    {
        let min_len: usize = shorter_len(&a.vector, &b.vector);
        let zero: Binary64 = Binary64 { bits: 0 };
        if min_len == 0 {
            return zero;
        }
        let product: Binary64 = dot(&a.vector, &b.vector, min_len);
        let mag_a: Binary64 = dot(&a.vector, &a.vector, min_len).sqrt();
        let mag_b: Binary64 = dot(&b.vector, &b.vector, min_len).sqrt();
        if mag_a.is_zero() || mag_b.is_zero() {
            return zero;
        }
        product.div(mag_a.mul(mag_b))
    }

    /// The Euclidean distance of two vectors.
    pub fn euclidean(a: &Self, b: &Self) -> (r: Binary64)
        ensures
            r == distance(a.vector@, b.vector@),
    {
        let min_len: usize = shorter_len(&a.vector, &b.vector);
        let mut total: Binary64 = Binary64 { bits: NEG_ZERO_BITS };
        let mut i: usize = 0;
        while i < min_len
            invariant
                i <= min_len,
                min_len == common_len(a.vector@, b.vector@),
                total == sum(squared_differences(a.vector@, b.vector@, i as nat)),
            decreases min_len - i,
        {
            assert(squared_differences(a.vector@, b.vector@, (i + 1) as nat).drop_last()
                =~= squared_differences(a.vector@, b.vector@, i as nat));
            let difference: Binary64 = a.vector[i].sub(b.vector[i]);
            total = total.add(difference.mul(difference));
            i = i + 1;
        }
        total.sqrt()
    }
}

} // verus!
