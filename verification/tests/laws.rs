use prediction_vector::ranking::rank;
use prediction_vector::stamp::timestamp_from;
use prediction_vector::{
    Binary64, PredEncodingMethod, PredictionBatch, PredictionEncoder, PredictionOutput, PredictionType,
    PredictionVector, VectorId,
};

fn num(x: f64) -> Binary64 {
    Binary64::from_bits(x.to_bits())
}

fn nums(xs: &[f64]) -> Vec<Binary64> {
    xs.iter().map(|x| num(*x)).collect()
}

fn val(x: Binary64) -> f64 {
    f64::from_bits(x.to_bits())
}

fn vals(v: &[Binary64]) -> Vec<f64> {
    v.iter().map(|x| val(*x)).collect()
}

fn bits(v: &[Binary64]) -> Vec<u64> {
    v.iter().map(|x| x.to_bits()).collect()
}

fn output(pred_type: PredictionType, value: f64, confidence: f64) -> PredictionOutput {
    PredictionOutput::new(pred_type, num(value), num(confidence))
}

fn multi(targets: &[f64], value: f64, confidence: f64) -> PredictionOutput {
    output(PredictionType::MultiTarget(nums(targets)), value, confidence)
}

fn vector_of(components: &[f64]) -> PredictionVector {
    PredictionVector {
        id: VectorId { bits: 0 },
        vector: nums(components),
        output: output(PredictionType::Trend, 0.0, 0.0),
        room_id: String::new(),
        timestamp: 0,
    }
}

fn batch_of(rows: &[&[f64]]) -> PredictionBatch {
    PredictionBatch {
        vectors: rows
            .iter()
            .enumerate()
            .map(|(i, row)| {
                let mut v = vector_of(row);
                v.timestamp = i as u64;
                v
            })
            .collect(),
        encoding_method: PredEncodingMethod::Raw,
    }
}

fn batch_with_confidences(confidences: &[f64]) -> PredictionBatch {
    let mut batch = batch_of(&vec![&[0.0][..]; confidences.len()]);
    for (v, c) in batch.vectors.iter_mut().zip(confidences) {
        v.output.confidence = num(*c);
    }
    batch
}

fn positions(found: &[&PredictionVector]) -> Vec<u64> {
    found.iter().map(|v| v.timestamp).collect()
}

fn encoder(output_dim: usize, method: PredEncodingMethod) -> PredictionEncoder {
    PredictionEncoder::new(0, output_dim, method)
}

fn all_methods() -> Vec<PredEncodingMethod> {
    vec![
        PredEncodingMethod::Raw,
        PredEncodingMethod::Confidence,
        PredEncodingMethod::Hierarchical,
        PredEncodingMethod::MultiHead { heads: 0 },
        PredEncodingMethod::MultiHead { heads: 3 },
    ]
}

fn cosine(a: &[f64], b: &[f64]) -> f64 {
    val(PredictionVector::cosine_similarity(&vector_of(a), &vector_of(b)))
}

fn distance(a: &[f64], b: &[f64]) -> f64 {
    val(PredictionVector::euclidean(&vector_of(a), &vector_of(b)))
}

// --- Predictions ---

#[test]
fn different_predictions_have_different_vectors() {
    let predictions = vec![
        output(PredictionType::ValuePrediction, 1.0, 0.5),
        output(PredictionType::Classification, 1.0, 0.5),
        output(PredictionType::AnomalyScore, 1.0, 0.5),
        output(PredictionType::Action, 1.0, 0.5),
        output(PredictionType::Trend, 1.0, 0.5),
        output(PredictionType::Trend, 1.5, 0.5),
        output(PredictionType::Trend, 1.0, 0.25),
        multi(&[], 1.0, 0.5),
        multi(&[7.0], 1.0, 0.5),
        multi(&[7.0, 8.0], 1.0, 0.5),
    ];
    for (i, a) in predictions.iter().enumerate() {
        for (j, b) in predictions.iter().enumerate() {
            assert_eq!(i == j, bits(&a.to_vector()) == bits(&b.to_vector()));
        }
    }
}

#[test]
fn vectors_are_equal_where_predictions_are() {
    let all = vec![
        output(PredictionType::Trend, 0.0, 0.5),
        output(PredictionType::Trend, -0.0, 0.5),
        output(PredictionType::Trend, f64::NAN, 0.5),
        output(PredictionType::Trend, 0.0, f64::NAN),
        output(PredictionType::Action, 0.0, 0.5),
        multi(&[], 0.0, 0.5),
        multi(&[0.0, 1.0], 0.0, 0.5),
        multi(&[-0.0, 1.0], -0.0, 0.5),
        multi(&[0.0, f64::NAN], 0.0, 0.5),
        multi(&[0.0], 0.0, 0.5),
    ];
    for a in &all {
        for b in &all {
            let same = a.value == b.value
                && a.confidence == b.confidence
                && a.prediction_type == b.prediction_type;
            assert_eq!(a.to_vector() == b.to_vector(), same);
        }
    }
    assert_eq!(all[6].to_vector(), all[7].to_vector());
    assert_ne!(bits(&all[6].to_vector()), bits(&all[7].to_vector()));
    assert_ne!(all[8].to_vector(), all[8].to_vector());
}

#[test]
fn prediction_types_compare_by_kind_and_targets() {
    assert_eq!(PredictionType::Trend, PredictionType::Trend);
    assert_ne!(PredictionType::Trend, PredictionType::Action);
    let a = PredictionType::MultiTarget(nums(&[0.0, 1.0]));
    assert_eq!(a, PredictionType::MultiTarget(nums(&[-0.0, 1.0])));
    assert_ne!(a, PredictionType::MultiTarget(nums(&[0.0])));
    assert_ne!(a, PredictionType::MultiTarget(nums(&[0.0, 2.0])));
    assert_ne!(a, PredictionType::Trend);
    let nan = PredictionType::MultiTarget(nums(&[f64::NAN]));
    assert!(nan != nan.clone());
}

// --- Encoding ---

#[test]
fn encoded_length_is_output_dim() {
    let po = multi(&[1.0, 2.0], 3.0, 0.5);
    for method in all_methods() {
        for dim in [0, 1, 3, 5, 8, 20] {
            assert_eq!(encoder(dim, method.clone()).encode(&po).vector.len(), dim);
        }
    }
}

#[test]
fn encoding_keeps_the_prediction() {
    let mut po = multi(&[1.0, 2.0], 3.0, 0.5);
    po.model_name = String::from("lstm");
    po.latency_ms = num(1.25);
    let v = encoder(4, PredEncodingMethod::Confidence).encode(&po);
    assert_eq!(v.output.prediction_type, po.prediction_type);
    assert_eq!(v.output.value, po.value);
    assert_eq!(v.output.confidence, po.confidence);
    assert_eq!(v.output.model_name, "lstm");
    assert_eq!(v.output.latency_ms, num(1.25));
    assert!(v.room_id.is_empty());
}

#[test]
fn encoding_is_deterministic_for_every_method() {
    let po = multi(&[0.1, 0.2], 0.3, 0.7);
    for method in all_methods() {
        let a = PredictionEncoder::new(1, 9, method.clone()).encode(&po);
        let b = PredictionEncoder::new(2, 9, method).encode(&po);
        assert_eq!(bits(&a.vector), bits(&b.vector));
    }
}

#[test]
fn encoding_pads_with_zeros() {
    let po = output(PredictionType::Action, 2.0, 0.5);
    let v = encoder(6, PredEncodingMethod::Raw).encode(&po);
    assert_eq!(vals(&v.vector), vec![2.0, 0.5, 4.0, 0.0, 0.0, 0.0]);
    assert_eq!(v.vector[5].to_bits(), 0);
}

#[test]
fn smaller_dimension_truncates() {
    let po = multi(&[1.0, 2.0], 3.0, 0.5);
    for method in all_methods() {
        let wide = encoder(12, method.clone()).encode(&po).vector;
        for dim in 0..12 {
            let narrow = encoder(dim, method.clone()).encode(&po).vector;
            assert_eq!(bits(&narrow), bits(&wide[..dim]));
        }
    }
}

#[test]
fn zero_confidence_gives_zeros() {
    let po = multi(&[-1.0, 2.0], 3.0, 0.0);
    let v = encoder(7, PredEncodingMethod::Confidence).encode(&po);
    assert!(v.vector.iter().all(|x| x.is_zero()));
}

#[test]
fn full_confidence_gives_the_raw_encoding() {
    let po = multi(&[-1.0, 0.1], 3.7, 1.0);
    let weighted = encoder(7, PredEncodingMethod::Confidence).encode(&po);
    let plain = encoder(7, PredEncodingMethod::Raw).encode(&po);
    assert_eq!(bits(&weighted.vector), bits(&plain.vector));
}

#[test]
fn confidence_weights_each_component() {
    let po = multi(&[-1.0, 0.1], 3.7, 0.3);
    let v = encoder(5, PredEncodingMethod::Confidence).encode(&po);
    let expected: Vec<f64> = [3.7, 0.3, 6.0, -1.0, 0.1].iter().map(|x| x * 0.3).collect();
    assert_eq!(vals(&v.vector), expected);
    for (x, raw) in v.vector.iter().zip(po.to_vector()) {
        assert!(val(*x).abs() <= val(raw).abs());
    }
}

#[test]
fn heads_repeat_the_raw_vector() {
    let po = output(PredictionType::Trend, 2.0, 0.5);
    let v = encoder(10, PredEncodingMethod::MultiHead { heads: 3 }).encode(&po);
    assert_eq!(vals(&v.vector), vec![2.0, 0.5, 5.0, 2.0, 0.5, 5.0, 2.0, 0.5, 5.0, 0.0]);
}

#[test]
fn one_head_is_raw_and_none_is_zero() {
    let po = multi(&[1.0], 2.0, 0.5);
    let single = encoder(6, PredEncodingMethod::MultiHead { heads: 1 }).encode(&po);
    let plain = encoder(6, PredEncodingMethod::Raw).encode(&po);
    assert_eq!(bits(&single.vector), bits(&plain.vector));
    let none = encoder(3, PredEncodingMethod::MultiHead { heads: 0 }).encode(&po);
    assert_eq!(bits(&none.vector), vec![0, 0, 0]);
}

#[test]
fn hierarchical_appends_mean_max_and_min() {
    let po = multi(&[-4.0, 9.0], 2.0, 0.5);
    let v = encoder(9, PredEncodingMethod::Hierarchical).encode(&po);
    let mean = (2.0 + 0.5 + 6.0 + -4.0 + 9.0) / 5.0;
    assert_eq!(vals(&v.vector), vec![2.0, 0.5, 6.0, -4.0, 9.0, mean, 9.0, -4.0, 0.0]);
}

#[test]
fn identifiers_are_random_version_4_uuids() {
    let po = output(PredictionType::Trend, 2.0, 0.5);
    let enc = encoder(3, PredEncodingMethod::Raw);
    let a = uuid::Uuid::from_u128(enc.encode(&po).id.bits);
    let b = uuid::Uuid::from_u128(enc.encode(&po).id.bits);
    assert_ne!(a, b);
    assert_eq!(a.get_version_num(), 4);
    assert_eq!(a.get_variant(), uuid::Variant::RFC4122);
}

#[test]
fn timestamps_are_seconds_since_the_epoch() {
    let seconds = || {
        std::time::SystemTime::now()
            .duration_since(std::time::UNIX_EPOCH)
            .unwrap()
            .as_secs()
    };
    let before = seconds();
    let v = encoder(3, PredEncodingMethod::Raw).encode(&output(PredictionType::Trend, 2.0, 0.5));
    let after = seconds();
    assert!(before <= v.timestamp && v.timestamp <= after);
    assert_eq!(timestamp_from(Some(17)), 17);
    assert_eq!(timestamp_from(None), 0);
}

#[test]
fn stamped_encoding_uses_the_stamps() {
    let po = output(PredictionType::Trend, 2.0, 0.5);
    let v = encoder(3, PredEncodingMethod::Raw).encode_stamped(&po, VectorId { bits: 9 }, 11);
    assert_eq!(v.id, VectorId { bits: 9 });
    assert_eq!(v.timestamp, 11);
    assert_eq!(vals(&v.vector), vec![2.0, 0.5, 5.0]);
}

#[test]
fn batch_encodes_in_order() {
    let outputs: Vec<PredictionOutput> =
        (0..5).map(|i| output(PredictionType::Trend, i as f64, 0.5)).collect();
    for method in all_methods() {
        let enc = encoder(8, method.clone());
        let batch = enc.encode_batch(&outputs);
        assert_eq!(batch.encoding_method, method);
        assert_eq!(batch.vectors.len(), 5);
        for (v, o) in batch.vectors.iter().zip(&outputs) {
            assert_eq!(bits(&v.vector), bits(&enc.encode(o).vector));
            assert_eq!(v.output.value, o.value);
        }
    }
    assert!(encoder(8, PredEncodingMethod::Raw).encode_batch(&[]).vectors.is_empty());
}

#[test]
fn clones_are_equal() {
    let batch = encoder(4, PredEncodingMethod::MultiHead { heads: 2 })
        .encode_batch(&[multi(&[1.0], 2.0, 0.5)]);
    let copy = batch.clone();
    assert_eq!(copy.encoding_method, batch.encoding_method);
    assert_eq!(copy.vectors.len(), 1);
    assert_eq!(copy.vectors[0].id, batch.vectors[0].id);
    assert_eq!(bits(&copy.vectors[0].vector), bits(&batch.vectors[0].vector));
    assert_eq!(copy.vectors[0].output.prediction_type, batch.vectors[0].output.prediction_type);
    assert_eq!(copy.vectors[0].timestamp, batch.vectors[0].timestamp);
}

// --- Similarity and distance ---

#[test]
fn cosine_values() {
    assert_eq!(cosine(&[1.0, 0.0], &[1.0, 1.0]), 1.0 / 2.0f64.sqrt());
    assert_eq!(cosine(&[1.0, 2.0], &[-1.0, -2.0]).signum(), -1.0);
    let (a, b) = ([0.3, -1.2, 4.5], [2.5, 0.1, -0.7]);
    let dot = a[0] * b[0] + a[1] * b[1] + a[2] * b[2];
    let na: f64 = (a[0] * a[0] + a[1] * a[1] + a[2] * a[2] as f64).sqrt();
    let nb: f64 = (b[0] * b[0] + b[1] * b[1] + b[2] * b[2] as f64).sqrt();
    assert_eq!(cosine(&a, &b), dot / (na * nb));
}

#[test]
fn cosine_is_symmetric() {
    let (a, b) = ([0.3, -1.2, 4.5], [2.5, 0.1, -0.7, 9.0]);
    assert_eq!(cosine(&a, &b), cosine(&b, &a));
}

#[test]
fn cosine_of_equal_vectors_is_one() {
    for a in [
        vec![1.0, 0.5, 1.0],
        vec![1e-160, 3e-161],
        vec![3e-162],
        vec![1e153, 7e153],
        vec![0.1; 50],
        vec![-2.0, 3.0],
    ] {
        assert!((cosine(&a, &a) - 1.0).abs() <= 1e-10, "{:?}", a);
        let mut longer = a.clone();
        longer.push(77.0);
        assert!((cosine(&a, &longer) - 1.0).abs() <= 1e-10);
    }
    // A squared length that overflows, and one that vanishes.
    assert!(cosine(&[1e200], &[1e200]).is_nan());
    assert_eq!(cosine(&[1e-200], &[1e-200]), 0.0);
}

#[test]
fn cosine_of_disjoint_vectors_is_zero() {
    assert_eq!(cosine(&[1.0, 0.0, 2.0], &[0.0, 5.0, 0.0]), 0.0);
    assert_eq!(cosine(&[3e-162, 0.0], &[0.0, 3e-162]), 0.0);
    assert_eq!(cosine(&[1e300, 0.0], &[0.0, 1e300]), 0.0);
}

#[test]
fn cosine_without_direction_is_zero() {
    assert_eq!(cosine(&[], &[1.0]), 0.0);
    assert_eq!(cosine(&[0.0, -0.0], &[1.0, 2.0]), 0.0);
    assert_eq!(cosine(&[1.0, 2.0], &[0.0, 0.0]), 0.0);
}

#[test]
fn negated_vector_has_negated_cosine() {
    let b = [2.5, 0.1, -0.7, 1e-3];
    for a in [vec![0.3, -1.2, 4.5], vec![1e200, -3.0], vec![5e-324, 1.0], vec![0.0, -0.0]] {
        let negated: Vec<f64> = a.iter().map(|x| -x).collect();
        if cosine(&a, &b).is_nan() {
            assert!(cosine(&negated, &b).is_nan());
        } else {
            assert_eq!(cosine(&negated, &b), -cosine(&a, &b));
            assert_eq!(cosine(&b, &negated), -cosine(&b, &a));
        }
    }
    let not_finite = [f64::INFINITY, 1.0];
    assert!(cosine(&not_finite, &b).is_nan());
    assert!(cosine(&[f64::NEG_INFINITY, -1.0], &b).is_nan());
}

#[test]
fn doubled_vector_has_the_same_cosine() {
    let rows: [[f64; 4]; 7] = [
        [0.3, -1.2, 4.5, 0.0],
        [1e-100, 3e-100, -7e-100, 0.0],
        [1e100, -3e99, 0.0, 9.9e99],
        [1e-100, 1e100, 1.0, -1e-50],
        [0.1, 0.1, 0.1, 0.1],
        [1e-150, 3e-150, -7e-150, 0.0],
        [1e150, -3e149, 0.0, 1e-150],
    ];
    for a in &rows {
        for b in &rows {
            let doubled: Vec<f64> = a.iter().map(|x| x * 2.0).collect();
            assert_eq!(cosine(&doubled, b).to_bits(), cosine(a, b).to_bits());
            assert_eq!(cosine(b, &doubled).to_bits(), cosine(b, a).to_bits());
        }
    }
    assert_eq!(cosine(&[0.0, 0.0], &[1.0, 2.0]), 0.0);
    // Beyond the bounds the squared length vanishes or overflows.
    assert_eq!(cosine(&[1e-162], &[1.0]), 0.0);
    assert_ne!(cosine(&[2e-162], &[1.0]), 0.0);
    assert_ne!(cosine(&[1e154], &[1.0]), cosine(&[2e154], &[1.0]));
}

#[test]
fn cosine_lies_between_minus_one_and_one() {
    let rows: [[f64; 4]; 8] = [
        [0.3, -1.2, 4.5, 0.0],
        [0.6, -2.4, 9.0, 0.0],
        [-0.1, 0.4, -1.5, 0.0],
        [1e-100, 1e100, 1.0, -1e-50],
        [-1e-100, -1e100, -1.0, 1e-50],
        [1e-150, -3e-150, 1e-150, 7e-150],
        [1e150, -3e149, 1e150, 7e149],
        [0.0, 0.0, 0.0, 0.0],
    ];
    for a in &rows {
        for b in &rows {
            assert!(cosine(a, b).abs() <= 1.0 + 1e-12);
        }
    }
    assert!((cosine(&rows[0], &rows[2]) + 1.0).abs() <= 1e-12);
    let long = (vec![0.1; 1000], vec![-0.3; 1000]);
    assert!((cosine(&long.0, &long.1) + 1.0).abs() <= 1e-12);
    // The square of a small component loses its digits.
    assert!(cosine(&[2.6e-162], &[1.0]) > 1.1);
}

#[test]
fn cosines_are_accurate() {
    for scale in [1.0, 1e-150, 2.5e149, 3.3] {
        // 3 * 5 + 4 * 12 over 5 * 13.
        let c = cosine(&[3.0 * scale, 4.0 * scale], &[5.0 / scale, 12.0 / scale]);
        assert!((c - 63.0 / 65.0).abs() <= 1e-12);
        let c = cosine(&[3.0 * scale, -4.0 * scale, 0.0], &[5.0, 12.0, 0.0]);
        assert!((c + 33.0 / 65.0).abs() <= 1e-12);
    }
    // 300 of 1000 products are negative.
    let a: Vec<f64> = (0..1000).map(|i| if i % 10 < 3 { -0.1 } else { 0.1 }).collect();
    assert!((cosine(&a, &vec![7.7; 1000]) - 0.4).abs() <= 1e-12);
}

#[test]
fn appended_zeros_leave_the_cosine() {
    for (a, b) in [
        (vec![], vec![]),
        (vec![0.3, -1.2, 4.5], vec![2.5, 0.1, -0.7]),
        (vec![1.0, 0.0], vec![-0.0, 5.0]),
        (vec![0.0, 0.0], vec![1.0, 2.0]),
        (vec![1e300, 0.0], vec![0.0, 1e300]),
    ] {
        for (x, y) in [(0.0, 0.0), (0.0, -0.0), (-0.0, -0.0)] {
            let (mut c, mut d) = (a.clone(), b.clone());
            c.push(x);
            d.push(y);
            assert_eq!(cosine(&c, &d), cosine(&a, &b));
        }
    }
    assert!(cosine(&[1e200], &[1e200]).is_nan());
    assert!(cosine(&[1e200, 0.0], &[1e200, 0.0]).is_nan());
}

#[test]
fn extra_components_are_ignored() {
    assert_eq!(cosine(&[1.0, 2.0, 9.0], &[3.0, 4.0]), cosine(&[1.0, 2.0], &[3.0, 4.0]));
    assert_eq!(distance(&[1.0, 2.0, 9.0], &[3.0, 4.0]), distance(&[1.0, 2.0], &[3.0, 4.0]));
}

#[test]
fn distance_laws() {
    let (a, b) = ([0.3, -1.2, 4.5], [2.5, 0.1, -0.7]);
    assert_eq!(distance(&a, &b), distance(&b, &a));
    assert_eq!(distance(&a, &a), 0.0);
    assert!(distance(&a, &b) > 0.0);
    assert_eq!(distance(&[f64::MAX], &[f64::MIN]), f64::INFINITY);
    assert_eq!(distance(&[], &[1.0]), 0.0);
    assert!(distance(&[f64::INFINITY], &[f64::INFINITY]).is_nan());
    let exact: f64 = (0..3).map(|i| (a[i] - b[i]).powi(2)).sum::<f64>().sqrt();
    assert_eq!(distance(&a, &b), exact);
}

#[test]
fn distances_are_accurate() {
    for scale in [1.0, 1e-150, 2.5e149, 1e-7, 3.3] {
        let exact = 5.0 * scale;
        let d = distance(&[3.0 * scale, 7.0, 0.0], &[0.0, 7.0, -4.0 * scale]);
        assert!((d - exact).abs() <= 1e-12 * exact);
    }
    let (a, b) = (vec![0.375; 1000], vec![-0.125; 1000]);
    let exact = 0.5 * 1000f64.sqrt();
    assert!((distance(&a, &b) - exact).abs() <= 1e-12 * exact);
    // Equal components may be of any size.
    assert_eq!(distance(&[1e300, 5.0], &[1e300, 2.0]), 3.0);
}

#[test]
fn distance_is_zero_for_equal_components_only() {
    assert_eq!(distance(&[1.5, 0.0, 1e300], &[1.5, -0.0, 1e300]), 0.0);
    assert_ne!(distance(&[1.5, 1e-150], &[1.5, 0.0]), 0.0);
    assert_ne!(distance(&[1.0], &[1.0 + f64::EPSILON]), 0.0);
    // The square of a smaller difference vanishes.
    assert_eq!(distance(&[1e-170], &[0.0]), 0.0);
}

#[test]
fn appended_components_do_not_lower_the_distance() {
    let (a, b) = ([0.3, -1.2, 4.5], [2.5, 0.1, -0.7]);
    for (x, y) in [(0.0, 1e-9), (7.0, -7.0), (1e200, -1e200), (5e-324, 0.0), (1e17, 1e17 + 16.0)] {
        let (mut c, mut d) = (a.to_vec(), b.to_vec());
        c.push(x);
        d.push(y);
        assert!(distance(&c, &d) >= distance(&a, &b));
    }
    for (x, y) in [(3.5, 3.5), (0.0, -0.0), (f64::MAX, f64::MAX)] {
        let (mut c, mut d) = (a.to_vec(), b.to_vec());
        c.push(x);
        d.push(y);
        assert_eq!(distance(&c, &d), distance(&a, &b));
        assert_eq!(distance(&[x], &[y]), distance(&[], &[]));
    }
    assert_eq!(distance(&[f64::INFINITY, 1.0], &[0.0, 2.0]), f64::INFINITY);
    assert!(distance(&[f64::NAN, 1.0], &[0.0, 2.0]).is_nan());
}

#[test]
fn negated_vectors_are_as_far_apart() {
    let (a, b) = ([0.3, -1.2, 4.5], [2.5, 0.1, -0.7]);
    let negate = |v: &[f64]| v.iter().map(|x| -x).collect::<Vec<f64>>();
    assert_eq!(distance(&negate(&a), &negate(&b)), distance(&a, &b));
    assert!(distance(&[f64::NAN], &[1.0]).is_nan());
    assert!(distance(&[-f64::NAN], &[-1.0]).is_nan());
}

#[test]
fn way_round_is_not_shorter() {
    let rows: [[f64; 3]; 6] = [
        [0.3, -1.2, 4.5],
        [2.5, 0.1, -0.7],
        [1e6, -1e6, 1e6],
        [-1e6, 1e6, 999_999.75],
        [0.0, 0.0, 0.0],
        [1e-9, 0.1, -1e-9],
    ];
    for a in &rows {
        for b in &rows {
            for c in &rows {
                assert!(distance(a, c) <= distance(a, b) + distance(b, c) + 1e-3);
            }
        }
    }
    // On a line the way round is as long as the direct one, but for rounding.
    let (start, middle, end) = (vec![-1e6; 1000], vec![0.1; 1000], vec![1e6; 1000]);
    let round = distance(&start, &middle) + distance(&middle, &end);
    assert!((distance(&start, &end) - round).abs() <= 1e-3);
}

// --- Search ---

#[test]
fn ranking_is_stable() {
    let order = rank(&nums(&[3.0, 1.0, 2.0, 1.0, -0.0, 0.0, f64::INFINITY]));
    assert_eq!(order, vec![4, 5, 1, 3, 2, 0, 6]);
    assert!(rank(&nums(&[])).is_empty());
}

#[test]
fn ranking_agrees_with_a_stable_sort() {
    let keys: Vec<f64> = (0..200u64).map(|i| ((i * 7919 + 13) % 31) as f64).collect();
    let mut expected: Vec<usize> = (0..keys.len()).collect();
    expected.sort_by(|a, b| keys[*a].partial_cmp(&keys[*b]).unwrap());
    assert_eq!(rank(&nums(&keys)), expected);
}

#[test]
fn ranking_with_nan_lists_every_position() {
    let mut order = rank(&nums(&[2.0, f64::NAN, 1.0, f64::NAN, 0.0]));
    order.sort();
    assert_eq!(order, vec![0, 1, 2, 3, 4]);
}

#[test]
fn ranking_keeps_positions_where_no_key_is_less() {
    for keys in [
        vec![f64::NAN; 5],
        vec![1.0, f64::NAN, 1.0, f64::NAN, f64::NAN, 1.0],
        vec![-0.0, f64::NAN, 0.0],
        vec![7.5; 40],
    ] {
        assert_eq!(rank(&nums(&keys)), (0..keys.len()).collect::<Vec<usize>>());
    }
}

#[test]
fn nearest_keeps_the_batch_order_where_no_distance_is_less() {
    let batch = batch_of(&[&[5.0, 1.0], &[1.0, 2.0], &[3.0, 3.0], &[0.0, 0.0], &[9.0, 9.0]]);
    for query in [vector_of(&[f64::NAN, 0.0]), vector_of(&[])] {
        for k in 0..7u64 {
            let found = batch.nearest(&query, k as usize);
            assert_eq!(positions(&found), (0..k.min(5)).collect::<Vec<u64>>());
        }
    }
    // Distances of one, with NaNs between them.
    let mixed = batch_of(&[&[1.0], &[f64::NAN], &[-1.0], &[f64::NAN], &[1.0]]);
    assert_eq!(positions(&mixed.nearest(&vector_of(&[0.0]), 3)), vec![0, 1, 2]);
}

#[test]
fn nearest_come_in_order_of_distance() {
    let batch = batch_of(&[&[5.0], &[1.0], &[3.0], &[-1.0], &[0.5]]);
    let query = vector_of(&[0.0]);
    assert_eq!(positions(&batch.nearest(&query, 5)), vec![4, 1, 3, 2, 0]);
    for k in 0..8 {
        let found = batch.nearest(&query, k);
        assert_eq!(found.len(), k.min(5));
        assert_eq!(positions(&found), [4, 1, 3, 2, 0][..k.min(5)].to_vec());
    }
    assert!(batch_of(&[]).nearest(&query, 3).is_empty());
}

#[test]
fn nearest_finds_an_exact_match_first() {
    let batch = batch_of(&[&[5.0, 1.0], &[1.0, 2.0], &[3.0, 3.0]]);
    let found = batch.nearest(&vector_of(&[3.0, 3.0]), 1);
    assert_eq!(positions(&found), vec![2]);
}

#[test]
fn filter_keeps_order_and_includes_the_minimum() {
    let batch = batch_with_confidences(&[0.9, 0.3, 0.7, f64::NAN, 0.7, 0.1]);
    assert_eq!(positions(&batch.filter_by_confidence(num(0.7))), vec![0, 2, 4]);
    assert_eq!(positions(&batch.filter_by_confidence(num(0.8))), vec![0]);
    assert_eq!(positions(&batch.filter_by_confidence(num(-1.0))), vec![0, 1, 2, 4, 5]);
    assert!(batch.filter_by_confidence(num(2.0)).is_empty());
    assert!(batch.filter_by_confidence(num(f64::NAN)).is_empty());
    assert_eq!(batch.filter_by_confidence(num(f64::NEG_INFINITY)).len(), 5);
}

// --- Statistics ---

#[test]
fn stats_of_a_single_prediction() {
    let mut batch = batch_with_confidences(&[0.3]);
    batch.vectors[0].output.value = num(-7.1);
    batch.vectors[0].output.latency_ms = num(12.5);
    let stats = batch.stats();
    assert_eq!(stats.count, 1);
    assert_eq!(val(stats.mean_confidence), 0.3);
    assert_eq!(val(stats.min_confidence), 0.3);
    assert_eq!(val(stats.max_confidence), 0.3);
    assert_eq!(val(stats.mean_value), -7.1);
    assert_eq!(val(stats.mean_latency_ms), 12.5);
}

#[test]
fn stats_bound_the_confidences() {
    let confidences = [0.4, 0.9, f64::NAN, 0.1, 0.6];
    let stats = batch_with_confidences(&confidences).stats();
    assert_eq!(val(stats.min_confidence), 0.1);
    assert_eq!(val(stats.max_confidence), 0.9);
    assert!(stats.mean_confidence.is_nan());
}

#[test]
fn mean_confidence_stays_in_range() {
    for confidences in [vec![1.0; 7], vec![0.0; 3], vec![0.1; 10], vec![1.0, 0.9999999999999999]] {
        let mean = val(batch_with_confidences(&confidences).stats().mean_confidence);
        assert!((0.0..=1.0).contains(&mean));
    }
}

#[test]
fn mean_confidence_lies_between_the_extremes() {
    for confidences in [vec![0.1; 10], vec![-1e6, 1e6, 0.25], vec![0.7; 3], vec![1e6; 1000]] {
        let stats = batch_with_confidences(&confidences).stats();
        let mean = val(stats.mean_confidence);
        assert!(mean <= val(stats.max_confidence) + 1e-6);
        assert!(mean >= val(stats.min_confidence) - 1e-6);
    }
    let tenths = batch_with_confidences(&[0.1; 10]).stats();
    assert!(val(tenths.mean_confidence) < 0.1);
}

#[test]
fn means_are_accurate() {
    let mut batch = batch_with_confidences(&[0.25, 0.5, 0.75, 0.1]);
    for (i, v) in batch.vectors.iter_mut().enumerate() {
        v.output.value = num([1e6, 0.1, -1e6, 0.7][i]);
        v.output.latency_ms = num([3.5, 999_999.5, 1.0, 12.0][i]);
    }
    let stats = batch.stats();
    assert!((val(stats.mean_confidence) - 0.4).abs() <= 1e-6);
    assert!((val(stats.mean_value) - 0.2).abs() <= 1e-6);
    assert!((val(stats.mean_latency_ms) - 250_004.0).abs() <= 1e-6);
    let tenths = batch_with_confidences(&[0.1; 1000]).stats();
    assert!((val(tenths.mean_confidence) - 0.1).abs() <= 1e-6);
}

#[test]
fn stats_do_not_depend_on_the_encoding() {
    let mut outputs = vec![multi(&[1.0], 2.5, 0.5), output(PredictionType::Action, 0.1, 0.2)];
    outputs[1].latency_ms = num(3.0);
    let expected = encoder(3, PredEncodingMethod::Raw).encode_batch(&outputs).stats();
    for method in all_methods() {
        let stats = encoder(9, method).encode_batch(&outputs).stats();
        assert_eq!(stats.count, 2);
        assert_eq!(stats.mean_confidence, expected.mean_confidence);
        assert_eq!(stats.min_confidence, expected.min_confidence);
        assert_eq!(stats.max_confidence, expected.max_confidence);
        assert_eq!(stats.mean_value, expected.mean_value);
        assert_eq!(stats.mean_latency_ms, expected.mean_latency_ms);
    }
}

#[test]
fn stats_do_not_depend_on_the_order() {
    let mut batch = batch_with_confidences(&[0.1, 0.2, 0.3, -0.0, 0.0]);
    for (i, v) in batch.vectors.iter_mut().enumerate() {
        v.output.value = num([1e6, 0.1, -1e6, 0.7, 1e-3][i]);
        v.output.latency_ms = num([3.3, 999_999.9, 1e-7, 12.0, 5.5][i]);
    }
    let stats = batch.stats();
    assert_eq!(stats.min_confidence.to_bits(), (-0.0f64).to_bits());
    assert_eq!(stats.max_confidence.to_bits(), 0.3f64.to_bits());
    for order in [[4, 3, 2, 1, 0], [1, 0, 3, 2, 4], [2, 4, 1, 0, 3]] {
        let mut other = batch.clone();
        other.vectors = order.iter().map(|i: &usize| batch.vectors[*i].clone()).collect();
        let turned = other.stats();
        assert_eq!(turned.count, stats.count);
        assert_eq!(turned.min_confidence.to_bits(), stats.min_confidence.to_bits());
        assert_eq!(turned.max_confidence.to_bits(), stats.max_confidence.to_bits());
        for (x, y) in [
            (turned.mean_confidence, stats.mean_confidence),
            (turned.mean_value, stats.mean_value),
            (turned.mean_latency_ms, stats.mean_latency_ms),
        ] {
            assert!((val(x) - val(y)).abs() <= 1e-6);
        }
    }
    // Rounding does tell orders apart.
    let forth = batch_with_confidences(&[0.1, 0.2, 0.3]).stats().mean_confidence;
    let back = batch_with_confidences(&[0.3, 0.2, 0.1]).stats().mean_confidence;
    assert_ne!(forth, back);
    // The extremes pass over NaNs in any order.
    let nans = batch_with_confidences(&[f64::NAN, 0.5, f64::NAN, 0.25]).stats();
    let snan = batch_with_confidences(&[0.25, f64::NAN, f64::NAN, 0.5]).stats();
    assert_eq!(nans.max_confidence, snan.max_confidence);
    assert_eq!(nans.min_confidence, snan.min_confidence);
}

#[test]
fn empty_stats_are_zero() {
    let stats = batch_of(&[]).stats();
    assert_eq!(stats.count, 0);
    let all = [
        stats.mean_confidence,
        stats.min_confidence,
        stats.max_confidence,
        stats.mean_value,
        stats.mean_latency_ms,
    ];
    assert_eq!(bits(&all), vec![0; 5]);
}

// --- Arithmetic ---

#[test]
fn arithmetic_laws_on_values() {
    let xs = nums(&[0.1, -2.5, 1e300, 5e-324, 0.0, -0.0]);
    for a in &xs {
        for b in &xs {
            assert_eq!(a.add(*b).to_bits(), b.add(*a).to_bits());
            assert_eq!(a.mul(*b).to_bits(), b.mul(*a).to_bits());
            assert_eq!(a.sub(*b).magnitude_bits(), b.sub(*a).magnitude_bits());
        }
        assert_eq!(a.sub(*a).to_bits(), 0);
        assert_eq!(a.add(num(0.0)), *a);
        assert_eq!(a.add(num(-0.0)), *a);
        assert!(a.mul(num(0.0)).is_zero());
        assert!(!a.mul(*a).is_sign_negative());
    }
    let ordered = nums(&[0.0, 5e-324, 0.1, 0.25, 2.0, 1e300, f64::MAX, f64::INFINITY]);
    for (i, a) in ordered.iter().enumerate() {
        for b in &ordered[i..] {
            assert!(a.add(*b).greater_or_equal(*a));
            assert!(b.sqrt().greater_or_equal(a.sqrt()));
        }
    }
    assert_eq!(Binary64::from_usize(9007199254740991).to_bits(), 9007199254740991f64.to_bits());
}
