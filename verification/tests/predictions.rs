use prediction_vector::{
    Binary64, PredEncodingMethod, PredictionBatch, PredictionEncoder, PredictionOutput, PredictionType,
    PredictionVector, VectorId,
};

fn num(x: f64) -> Binary64 {
    Binary64::from_bits(x.to_bits())
}

fn val(x: Binary64) -> f64 {
    f64::from_bits(x.to_bits())
}

fn vals(v: &[Binary64]) -> Vec<f64> {
    v.iter().map(|x| val(*x)).collect()
}

fn output(pred_type: PredictionType, value: f64, confidence: f64) -> PredictionOutput {
    PredictionOutput::new(pred_type, num(value), num(confidence))
}

fn vector_of(components: &[f64], value: f64, confidence: f64) -> PredictionVector {
    PredictionVector {
        id: VectorId::new_v4(),
        vector: components.iter().map(|x| num(*x)).collect(),
        output: output(PredictionType::ValuePrediction, value, confidence),
        room_id: String::new(),
        timestamp: 0,
    }
}

// --- PredictionOutput ---

#[test]
fn test_prediction_output_new() {
    let po = output(PredictionType::ValuePrediction, 42.0, 0.9);
    assert_eq!(po.prediction_type, PredictionType::ValuePrediction);
    assert!((val(po.value) - 42.0).abs() < f64::EPSILON);
    assert!((val(po.confidence) - 0.9).abs() < f64::EPSILON);
    assert!(po.model_name.is_empty());
    assert!(val(po.latency_ms).abs() < f64::EPSILON);
}

#[test]
fn test_to_vector_value_prediction() {
    let po = output(PredictionType::ValuePrediction, 1.0, 0.5);
    let v = po.to_vector();
    assert_eq!(vals(&v), vec![1.0, 0.5, 1.0]);
}

#[test]
fn test_to_vector_classification() {
    let po = output(PredictionType::Classification, 3.0, 0.8);
    assert_eq!(vals(&po.to_vector()), vec![3.0, 0.8, 2.0]);
}

#[test]
fn test_to_vector_anomaly() {
    let po = output(PredictionType::AnomalyScore, 0.1, 0.95);
    assert_eq!(vals(&po.to_vector()), vec![0.1, 0.95, 3.0]);
}

#[test]
fn test_to_vector_action() {
    let po = output(PredictionType::Action, 5.0, 0.7);
    assert_eq!(vals(&po.to_vector()), vec![5.0, 0.7, 4.0]);
}

#[test]
fn test_to_vector_trend() {
    let po = output(PredictionType::Trend, -1.0, 0.6);
    assert_eq!(vals(&po.to_vector()), vec![-1.0, 0.6, 5.0]);
}

#[test]
fn test_to_vector_multi_target() {
    let targets = vec![num(1.0), num(2.0), num(3.0)];
    let po = output(PredictionType::MultiTarget(targets.clone()), 0.0, 1.0);
    let v = po.to_vector();
    assert_eq!(vals(&v), vec![0.0, 1.0, 6.0, 1.0, 2.0, 3.0]);
}

// --- Encoding methods ---

#[test]
fn test_encode_raw() {
    let enc = PredictionEncoder::new(4, 4, PredEncodingMethod::Raw);
    let po = output(PredictionType::ValuePrediction, 1.0, 0.5);
    let pv = enc.encode(&po);
    assert_eq!(pv.vector.len(), 4);
    assert_eq!(vals(&pv.vector[..3]), [1.0, 0.5, 1.0]);
    assert!(val(pv.vector[3]).abs() < f64::EPSILON); // padded
}

#[test]
fn test_encode_confidence() {
    let enc = PredictionEncoder::new(4, 4, PredEncodingMethod::Confidence);
    let po = output(PredictionType::ValuePrediction, 1.0, 0.5);
    let pv = enc.encode(&po);
    assert!((val(pv.vector[0]) - 0.5).abs() < 1e-10);
    assert!((val(pv.vector[1]) - 0.25).abs() < 1e-10);
    assert!((val(pv.vector[2]) - 0.5).abs() < 1e-10);
}

#[test]
fn test_encode_hierarchical() {
    let enc = PredictionEncoder::new(8, 8, PredEncodingMethod::Hierarchical);
    let po = output(PredictionType::ValuePrediction, 1.0, 0.5);
    let pv = enc.encode(&po);
    // Raw: [1.0, 0.5, 1.0] + 3 summary = 6 elements, padded to 8
    assert_eq!(pv.vector.len(), 8);
    // summary features should be non-zero
    assert!(val(pv.vector[3]).abs() > 0.0 || val(pv.vector[4]).abs() > 0.0);
}

#[test]
fn test_encode_multihead() {
    let enc = PredictionEncoder::new(6, 6, PredEncodingMethod::MultiHead { heads: 2 });
    let po = output(PredictionType::ValuePrediction, 1.0, 0.5);
    let pv = enc.encode(&po);
    // Raw: 3 elements * 2 heads = 6
    assert_eq!(pv.vector.len(), 6);
    assert!((val(pv.vector[0]) - val(pv.vector[3])).abs() < f64::EPSILON);
}

// --- Batch ---

#[test]
fn test_encode_batch() {
    let enc = PredictionEncoder::new(4, 4, PredEncodingMethod::Raw);
    let outputs = vec![
        output(PredictionType::ValuePrediction, 1.0, 0.9),
        output(PredictionType::Classification, 0.0, 0.5),
    ];
    let batch = enc.encode_batch(&outputs);
    assert_eq!(batch.vectors.len(), 2);
    assert_eq!(batch.encoding_method, PredEncodingMethod::Raw);
}

// --- Similarity / Distance ---

#[test]
fn test_cosine_similarity_identical() {
    let enc = PredictionEncoder::new(4, 4, PredEncodingMethod::Raw);
    let po = output(PredictionType::ValuePrediction, 1.0, 0.5);
    let a = enc.encode(&po);
    let b = enc.encode(&po);
    let sim = val(PredictionVector::cosine_similarity(&a, &b));
    assert!((sim - 1.0).abs() < 1e-10);
}

#[test]
fn test_cosine_similarity_orthogonal() {
    let a = vector_of(&[1.0, 0.0], 1.0, 0.5);
    let b = vector_of(&[0.0, 1.0], 1.0, 0.5);
    let sim = val(PredictionVector::cosine_similarity(&a, &b));
    assert!(sim.abs() < 1e-10);
}

#[test]
fn test_euclidean_distance() {
    let a = vector_of(&[0.0, 0.0], 0.0, 0.0);
    let b = vector_of(&[3.0, 4.0], 3.0, 4.0);
    let dist = val(PredictionVector::euclidean(&a, &b));
    assert!((dist - 5.0).abs() < 1e-10);
}

// --- Nearest / Filter ---

#[test]
fn test_nearest() {
    let enc = PredictionEncoder::new(4, 4, PredEncodingMethod::Raw);
    let outputs: Vec<PredictionOutput> = (0..5)
        .map(|i| output(PredictionType::ValuePrediction, i as f64, 0.5))
        .collect();
    let batch = enc.encode_batch(&outputs);
    let query = enc.encode(&output(PredictionType::ValuePrediction, 1.0, 0.5));
    let nearest = batch.nearest(&query, 2);
    assert_eq!(nearest.len(), 2);
}

#[test]
fn test_filter_by_confidence() {
    let enc = PredictionEncoder::new(4, 4, PredEncodingMethod::Raw);
    let outputs = vec![
        output(PredictionType::ValuePrediction, 1.0, 0.9),
        output(PredictionType::ValuePrediction, 2.0, 0.3),
        output(PredictionType::ValuePrediction, 3.0, 0.7),
    ];
    let batch = enc.encode_batch(&outputs);
    let filtered = batch.filter_by_confidence(num(0.7));
    assert_eq!(filtered.len(), 2);
}

// --- Stats ---

#[test]
fn test_batch_stats() {
    let enc = PredictionEncoder::new(4, 4, PredEncodingMethod::Raw);
    let mut outputs = vec![
        output(PredictionType::ValuePrediction, 1.0, 0.8),
        output(PredictionType::ValuePrediction, 2.0, 0.6),
    ];
    outputs[0].latency_ms = num(10.0);
    outputs[1].latency_ms = num(20.0);
    let batch = enc.encode_batch(&outputs);
    let stats = batch.stats();
    assert_eq!(stats.count, 2);
    assert!((val(stats.mean_confidence) - 0.7).abs() < 1e-10);
    assert!((val(stats.min_confidence) - 0.6).abs() < 1e-10);
    assert!((val(stats.max_confidence) - 0.8).abs() < 1e-10);
    assert!((val(stats.mean_value) - 1.5).abs() < 1e-10);
    assert!((val(stats.mean_latency_ms) - 15.0).abs() < 1e-10);
}

#[test]
fn test_empty_batch_stats() {
    let batch = PredictionBatch {
        vectors: vec![],
        encoding_method: PredEncodingMethod::Raw,
    };
    let stats = batch.stats();
    assert_eq!(stats.count, 0);
    assert!(val(stats.mean_confidence).abs() < f64::EPSILON);
}

// --- Edge cases ---

#[test]
fn test_zero_confidence() {
    let po = output(PredictionType::AnomalyScore, 0.5, 0.0);
    let enc = PredictionEncoder::new(4, 4, PredEncodingMethod::Confidence);
    let pv = enc.encode(&po);
    // All raw values multiplied by 0 are zero
    assert!(pv.vector.iter().all(|x| val(*x).abs() < 1e-10));
}

#[test]
fn test_perfect_confidence() {
    let po = output(PredictionType::Action, 10.0, 1.0);
    let enc = PredictionEncoder::new(4, 4, PredEncodingMethod::Confidence);
    let pv = enc.encode(&po);
    assert!((val(pv.vector[0]) - 10.0).abs() < 1e-10);
}

#[test]
fn test_encoding_determinism() {
    let enc = PredictionEncoder::new(4, 4, PredEncodingMethod::Raw);
    let po = output(PredictionType::ValuePrediction, 42.0, 0.77);
    let v1 = enc.encode(&po).vector;
    let v2 = enc.encode(&po).vector;
    assert_eq!(v1, v2);
}
