use ollama_classifier_rs::label_map::LabelMap;
use ollama_classifier_rs::scalar::Scalar;
use ollama_classifier_rs::types::{default_method, default_n_calls, Coverage, RawResponse};
use ollama_classifier_rs::ClassificationResult;

fn scalar(x: f64) -> Scalar {
    Scalar { bits: x.to_bits() }
}

fn probabilities(v: &[(&str, f64)]) -> LabelMap<Scalar> {
    let mut m = LabelMap::new();
    for (k, x) in v {
        m.insert(k.to_string(), scalar(*x));
    }
    m
}

#[test]
fn test_result_multi_call_serializes_with_python_fields() {
    let probs = probabilities(&[("positive", 0.7), ("negative", 0.3)]);
    let r = ClassificationResult::new_multi_call("positive".into(), scalar(0.7), probs, 2);
    assert_eq!(r.prediction, "positive");
    assert_eq!(r.method, "multi_call");
    assert_eq!(r.approximate, false);
    assert_eq!(r.n_calls, 2);
    assert!(r.coverage.is_empty());
    assert!(matches!(r.raw_response, RawResponse::Empty));
}

#[test]
fn test_result_adaptive_carries_coverage() {
    let probs = probabilities(&[("a", 0.6), ("b", 0.4)]);
    let mut cov = LabelMap::new();
    cov.insert("a".to_string(), Coverage { scored: 2, total: 2 });
    cov.insert("b".to_string(), Coverage { scored: 1, total: 2 });
    let r = ClassificationResult::new_adaptive("a".into(), scalar(0.6), probs, cov, 3, true);
    assert_eq!(r.method, "adaptive_generate");
    assert_eq!(r.approximate, true);
    assert_eq!(r.n_calls, 3);
    let b = r.coverage.get("b").unwrap();
    assert_eq!(b.scored as f64 / b.total as f64, 0.5);
}

#[test]
fn test_classification_result_serialization() {
    let result = ClassificationResult::new_multi_call(
        "pos".into(),
        scalar(0.9),
        probabilities(&[("pos", 0.9), ("neg", 0.1)]),
        2,
    );
    assert_eq!(result.prediction, "pos");
    assert_eq!(result.method, "multi_call");
    assert_eq!(result.n_calls, 2);
    assert_eq!(result.probabilities.get("pos"), Some(&scalar(0.9)));
    assert_eq!(result.confidence, scalar(0.9));
}

#[test]
fn defaults_of_missing_fields() {
    assert_eq!(default_method(), "multi_call");
    assert_eq!(default_n_calls(), 1);
}
