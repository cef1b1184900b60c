//! Laws of the encoding.

use vstd::prelude::*;
use vstd::std_specs::cmp::PartialEqSpec;

use crate::accuracy::{all_within, apart, total};
use crate::arithmetic::{integer, one_in_units};
use crate::arithmetic_laws::{
    law_integers_distinct, law_times_one, law_times_shrinks, law_times_zero, lemma_integer_exact,
};
use crate::batch_laws::lemma_mean_of_million;
use crate::binary64::{lemma_units_order, Binary64};
use crate::encoder::{features, repeated, PredEncodingMethod, PredictionEncoder};
use crate::output::{all_equal, PredictionOutput, PredictionOutputView};
use crate::ranking::all_ordered;
use crate::sequence_laws::{
    all_finite, is_running_sum, law_extremes, law_greatest, law_least, law_running_sum,
};
use crate::sequences::mean;
use crate::stamp::VectorId;
use crate::vector::PredictionVectorView;

verus! {

/// The vector of a prediction tells its kind, its targets, its value and its confidence, to the
/// bit.
pub proof fn law_to_vector_injective(a: PredictionOutputView, b: PredictionOutputView)
    requires
        a.to_vector() == b.to_vector(),
    ensures
        a.prediction_type == b.prediction_type,
        a.value == b.value,
        a.confidence == b.confidence,
{
    let u = a.to_vector();
    let v = b.to_vector();
    assert(u[0] == a.value && v[0] == b.value);
    assert(u[1] == a.confidence && v[1] == b.confidence);
    assert(u[2] == integer(a.prediction_type.code()) && v[2] == integer(b.prediction_type.code()));
    law_integers_distinct(a.prediction_type.code(), b.prediction_type.code());
    assert(u.skip(3) =~= a.prediction_type.targets());
    assert(v.skip(3) =~= b.prediction_type.targets());
}

/// The vectors of two predictions hold equal numbers exactly where the predictions have equal
/// value and confidence and are of equal kind, with equal targets. As NaN equals nothing, a
/// prediction that holds one differs even from itself, and so does its vector.
pub proof fn law_to_vector_equal(a: PredictionOutput, b: PredictionOutput)
    ensures
        all_equal(a@.to_vector(), b@.to_vector()) <==> a.value.equals(b.value)
            && a.confidence.equals(b.confidence) && a.prediction_type.eq_spec(&b.prediction_type),
{
    let (u, v) = (a@.to_vector(), b@.to_vector());
    let (p, q) = (a@.prediction_type, b@.prediction_type);
    let (s, t) = (p.targets(), q.targets());
    assert(u[0] == a.value && v[0] == b.value);
    assert(u[1] == a.confidence && v[1] == b.confidence);
    assert(u[2] == integer(p.code()) && v[2] == integer(q.code()));
    lemma_integer_exact(p.code());
    lemma_integer_exact(q.code());
    if u[2].equals(v[2]) {
        lemma_units_order(u[2].magnitude(), v[2].magnitude());
        law_integers_distinct(p.code(), q.code());
    }
    if all_equal(u, v) {
        assert(u[0].equals(v[0]) && u[1].equals(v[1]) && u[2].equals(v[2]));
        assert forall|i: int| 0 <= i < s.len() implies (#[trigger] s[i]).equals(t[i]) by {
            assert(u[i + 3] == s[i] && v[i + 3] == t[i]);
            assert(u[i + 3].equals(v[i + 3]));
        }
    }
    if u[0].equals(v[0]) && u[1].equals(v[1]) && p.code() == q.code() && all_equal(s, t) {
        assert forall|i: int| 0 <= i < u.len() implies (#[trigger] u[i]).equals(v[i]) by {
            if i >= 3 {
                assert(u[i] == s[i - 3] && v[i] == t[i - 3]);
            }
        }
    }
}

/// An encoded vector has the encoder's output dimension.
pub proof fn law_encoding_length(encoder: PredictionEncoder, output: PredictionOutputView)
    ensures
        encoder.components(output).len() == encoder.output_dim,
{
}

/// Encoding a prediction twice gives the same components, whatever the stamps; the input
/// dimension has no part in them.
pub proof fn law_encoding_deterministic(
    a: PredictionEncoder,
    b: PredictionEncoder,
    output: PredictionOutputView,
    first: PredictionVectorView,
    second: PredictionVectorView,
)
    requires
        a.method == b.method,
        a.output_dim == b.output_dim,
        first == a.encoding(output, first.id, first.timestamp),
        second == b.encoding(output, second.id, second.timestamp),
    ensures
        first.vector == second.vector,
        first.output == second.output,
{
}

/// Beyond the components that the method computes, a vector is zero.
pub proof fn law_padding_is_zero(
    encoder: PredictionEncoder,
    output: PredictionOutputView,
    i: int,
)
    requires
        features(encoder.method, output).len() <= i < encoder.output_dim,
    ensures
        encoder.components(output)[i] == (Binary64 { bits: 0 }),
{
}

/// An encoder with a smaller output dimension gives a prefix of the vector.
pub proof fn law_truncation_is_prefix(
    narrow: PredictionEncoder,
    wide: PredictionEncoder,
    output: PredictionOutputView,
)
    requires
        narrow.method == wide.method,
        narrow.output_dim <= wide.output_dim,
    ensures
        narrow.components(output) == wide.components(output).take(narrow.output_dim as int),
{
    assert(narrow.components(output) =~= wide.components(output).take(narrow.output_dim as int));
}

/// Weighting by zero confidence gives a vector of zeros, where the prediction is finite.
pub proof fn law_zero_confidence(
    encoder: PredictionEncoder,
    output: PredictionOutputView,
    i: int,
)
    requires
        encoder.method == PredEncodingMethod::Confidence,
        output.confidence.zero(),
        all_finite(output.to_vector()),
        0 <= i < encoder.output_dim,
    ensures
        encoder.components(output)[i].zero(),
{
    let raw = output.to_vector();
    if i < raw.len() {
        law_times_zero(raw[i], output.confidence);
    }
}

/// Weighting by a confidence of one leaves the raw encoding, where no number is a NaN.
pub proof fn law_full_confidence(
    weighted: PredictionEncoder,
    plain: PredictionEncoder,
    output: PredictionOutputView,
)
    requires
        weighted.method == PredEncodingMethod::Confidence,
        plain.method == PredEncodingMethod::Raw,
        weighted.output_dim == plain.output_dim,
        output.confidence == integer(1),
        all_ordered(output.to_vector()),
    ensures
        weighted.components(output) == plain.components(output),
{
    let raw = output.to_vector();
    assert forall|i: int| 0 <= i < raw.len() implies #[trigger] raw[i].times(output.confidence)
        == raw[i] by {
        law_times_one(raw[i]);
    }
    assert(features(weighted.method, output) =~= raw);
    assert(weighted.components(output) =~= plain.components(output));
}

/// Weighting by a confidence between zero and one enlarges no component.
pub proof fn law_weighting_shrinks(
    encoder: PredictionEncoder,
    output: PredictionOutputView,
    i: int,
)
    requires
        encoder.method == PredEncodingMethod::Confidence,
        output.confidence.finite(),
        0 <= output.confidence.value() <= one_in_units(),
        0 <= i < output.to_vector().len(),
        i < encoder.output_dim,
        !output.to_vector()[i].nan(),
        !(output.to_vector()[i].infinite() && output.confidence.zero()),
    ensures
        !encoder.components(output)[i].nan(),
        encoder.components(output)[i].magnitude() <= output.to_vector()[i].magnitude(),
{
    law_times_shrinks(output.to_vector()[i], output.confidence);
}

/// The heads repeat: a component is the same one head further on.
pub proof fn law_heads_repeat(
    encoder: PredictionEncoder,
    output: PredictionOutputView,
    heads: usize,
    i: int,
)
    requires
        encoder.method == (PredEncodingMethod::MultiHead { heads }),
        0 <= i,
        i + output.to_vector().len() < output.to_vector().len() * heads,
        i + output.to_vector().len() < encoder.output_dim,
    ensures
        encoder.components(output)[i] == encoder.components(output)[i
            + output.to_vector().len()],
{
    let n = output.to_vector().len() as int;
    vstd::arithmetic::div_mod::lemma_mod_add_multiples_vanish(i, n);
}

/// One head gives the raw encoding.
pub proof fn law_single_head(
    single: PredictionEncoder,
    plain: PredictionEncoder,
    output: PredictionOutputView,
)
    requires
        single.method == (PredEncodingMethod::MultiHead { heads: 1 }),
        plain.method == PredEncodingMethod::Raw,
        single.output_dim == plain.output_dim,
    ensures
        single.components(output) == plain.components(output),
{
    let raw = output.to_vector();
    assert forall|i: int| 0 <= i < raw.len() implies repeated(raw, 1)[i] == raw[i] by {
        vstd::arithmetic::div_mod::lemma_small_mod(i as nat, raw.len());
    }
    assert(raw.len() * 1 == raw.len());
    assert(features(single.method, output) =~= raw);
    assert(single.components(output) =~= plain.components(output));
}

/// The hierarchical encoding starts with the raw components, then gives their mean, the largest
/// and the smallest; every raw component that is not a NaN lies between the last two.
pub proof fn law_hierarchical(encoder: PredictionEncoder, output: PredictionOutputView, i: int)
    requires
        encoder.method == PredEncodingMethod::Hierarchical,
        encoder.output_dim >= output.to_vector().len() + 3,
        0 <= i < output.to_vector().len(),
    ensures
        ({
            let raw = output.to_vector();
            let n = raw.len() as int;
            let v = encoder.components(output);
            &&& v[i] == raw[i]
            &&& v[n] == mean(raw)
            &&& !raw[i].nan() ==> v[n + 1].at_least(raw[i]) && raw[i].at_least(v[n + 2])
        }),
{
    let raw = output.to_vector();
    law_greatest(raw, i);
    law_least(raw, i);
}

/// A prediction is encoded under the given identifier and time, with the prediction itself, no
/// room, and as many components as the encoder's output dimension.
pub proof fn law_encoding_fields(
    encoder: PredictionEncoder,
    output: PredictionOutputView,
    id: VectorId,
    timestamp: u64,
)
    ensures
        ({
            let encoded = encoder.encoding(output, id, timestamp);
            &&& encoded.id == id
            &&& encoded.timestamp == timestamp
            &&& encoded.output == output
            &&& encoded.room_id.len() == 0
            &&& encoded.vector.len() == encoder.output_dim
            &&& encoded.vector == encoder.components(output)
        }),
{
}

/// Whether a number is positive zero.
pub open spec fn is_padding(x: Binary64) -> bool {
    x.bits == 0
}

/// The raw encoding: the numbers of the prediction, then zeros.
pub proof fn law_raw_encoding(
    encoder: PredictionEncoder,
    output: PredictionOutputView,
    id: VectorId,
    timestamp: u64,
    i: int,
)
    requires
        encoder.method == PredEncodingMethod::Raw,
        0 <= i < encoder.output_dim,
    ensures
        ({
            let raw = output.to_vector();
            let v = encoder.encoding(output, id, timestamp).vector;
            &&& i < raw.len() ==> v[i] == raw[i]
            &&& i >= raw.len() ==> is_padding(v[i])
        }),
{
}

/// The encoding by confidence: each number of the prediction times the confidence, then zeros.
pub proof fn law_weighted_encoding(
    encoder: PredictionEncoder,
    output: PredictionOutputView,
    id: VectorId,
    timestamp: u64,
    i: int,
)
    requires
        encoder.method == PredEncodingMethod::Confidence,
        0 <= i < encoder.output_dim,
    ensures
        ({
            let raw = output.to_vector();
            let v = encoder.encoding(output, id, timestamp).vector;
            &&& i < raw.len() ==> v[i] == raw[i].times(output.confidence)
            &&& i >= raw.len() ==> is_padding(v[i])
        }),
{
}

/// The hierarchical encoding: the numbers of the prediction; their running sum over their number;
/// the largest and the smallest of them, each of which is one of them; then zeros.
pub proof fn law_hierarchical_encoding(
    encoder: PredictionEncoder,
    output: PredictionOutputView,
    id: VectorId,
    timestamp: u64,
    sums: Seq<Binary64>,
    i: int,
)
    requires
        encoder.method == PredEncodingMethod::Hierarchical,
        is_running_sum(sums, output.to_vector()),
        0 <= i < encoder.output_dim,
    ensures
        ({
            let raw = output.to_vector();
            let n = raw.len() as int;
            let v = encoder.encoding(output, id, timestamp).vector;
            &&& i < n ==> v[i] == raw[i]
            &&& i == n ==> v[i] == sums[n].over(integer(raw.len()))
            &&& i == n + 1 ==> {
                &&& exists|j: int| 0 <= j < n && #[trigger] raw[j] == v[i]
                &&& forall|j: int|
                    0 <= j < n && !(#[trigger] raw[j]).nan() ==> raw[j].value() <= v[i].value()
                &&& !v[i].nan()
            }
            &&& i == n + 2 ==> {
                &&& exists|j: int| 0 <= j < n && #[trigger] raw[j] == v[i]
                &&& forall|j: int|
                    0 <= j < n && !(#[trigger] raw[j]).nan() ==> raw[j].value() >= v[i].value()
                &&& !v[i].nan()
            }
            &&& i >= n + 3 ==> is_padding(v[i])
        }),
{
    let raw = output.to_vector();
    law_running_sum(sums, raw);
    law_extremes(raw);
    lemma_integer_exact(output.prediction_type.code());
    assert(!raw[2].nan());
}

/// The mean in the hierarchical encoding is accurate to 10^-6, for up to a thousand numbers, none
/// beyond a million.
pub proof fn law_hierarchical_mean_accurate(
    encoder: PredictionEncoder,
    output: PredictionOutputView,
    id: VectorId,
    timestamp: u64,
)
    requires
        encoder.method == PredEncodingMethod::Hierarchical,
        output.to_vector().len() <= 1000,
        output.to_vector().len() < encoder.output_dim,
        all_within(output.to_vector(), 1_000_000int * one_in_units()),
    ensures
        ({
            let raw = output.to_vector();
            let n = raw.len() as int;
            let m = encoder.encoding(output, id, timestamp).vector[n];
            &&& m.finite()
            &&& 1_000_000 * apart(m.value() * n, total(raw)) <= n * one_in_units()
        }),
{
    lemma_mean_of_million(output.to_vector());
}

/// The encoding with many heads: head after head the numbers of the prediction, then zeros.
pub proof fn law_heads_encoding(
    encoder: PredictionEncoder,
    output: PredictionOutputView,
    id: VectorId,
    timestamp: u64,
    heads: usize,
    head: int,
    j: int,
)
    requires
        encoder.method == (PredEncodingMethod::MultiHead { heads }),
        0 <= head,
        0 <= j < output.to_vector().len(),
        head * output.to_vector().len() + j < encoder.output_dim,
    ensures
        ({
            let raw = output.to_vector();
            let v = encoder.encoding(output, id, timestamp).vector;
            let i = head * raw.len() + j;
            &&& head < heads ==> v[i] == raw[j]
            &&& head >= heads ==> is_padding(v[i])
        }),
{
    let raw = output.to_vector();
    let n = raw.len() as int;
    let i = head * n + j;
    vstd::arithmetic::div_mod::lemma_fundamental_div_mod_converse(i, n, head, j);
    if head < heads {
        assert(i < n * heads) by (nonlinear_arith)
            requires
                i == head * n + j,
                j < n,
                head + 1 <= heads,
                n > 0,
        ;
        assert(i >= 0) by (nonlinear_arith)
            requires
                i == head * n + j,
                j >= 0,
                head >= 0,
                n > 0,
        ;
    } else {
        assert(i >= n * heads) by (nonlinear_arith)
            requires
                i == head * n + j,
                j >= 0,
                head >= heads,
                n > 0,
        ;
    }
}

/// Everything can be encoded that a `Vec` has room for.
pub proof fn law_can_encode(encoder: PredictionEncoder, output: PredictionOutputView)
    ensures
        encoder.can_encode(output) <==> encoder.output_dim * 8 <= isize::MAX && (
        encoder.method matches PredEncodingMethod::MultiHead { heads } ==> output.to_vector().len()
            * heads * 8 <= isize::MAX),
{
}

} // verus!
