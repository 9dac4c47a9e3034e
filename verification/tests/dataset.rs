use ollama_classifier_rs::dataset::{
    categories, check_result, choices_with_none, csv_header, csv_path, csv_quote, csv_row, dataset,
    row_probabilities, timestamp, Expectation, ResultFaults,
};
use ollama_classifier_rs::dates::days_to_ymd;
use ollama_classifier_rs::label_map::LabelMap;
use ollama_classifier_rs::scalar::Scalar;
use ollama_classifier_rs::ClassificationResult;

fn scalar(x: f64) -> Scalar {
    Scalar { bits: x.to_bits() }
}

#[test]
fn dataset_has_its_entries() {
    let entries = dataset();
    assert_eq!(entries.len(), 40);
    for (i, e) in entries.iter().enumerate() {
        assert_eq!(e.id as usize, i + 1);
    }
    assert!(entries[0].text.starts_with("The new smartphone features"));
    assert_eq!(entries[0].ambiguity_level, "clear");
    assert_eq!(entries[0].primary_category.as_deref(), Some("technology"));
    assert_eq!(entries[0].secondary_category, None);
    assert_eq!(entries[35].primary_category.as_deref(), Some("sports_fitness"));
    assert_eq!(entries[35].secondary_category.as_deref(), Some("food_cooking"));
    assert_eq!(entries[29].ambiguity_level, "mildly_ambiguous");
    assert_eq!(entries[30].ambiguity_level, "highly_ambiguous");
    assert_eq!(entries[39].ambiguity_level, "out_of_scope");
    assert_eq!(entries[39].primary_category, None);
    let cats = categories();
    assert_eq!(
        cats,
        vec!["technology", "food_cooking", "sports_fitness", "finance_investing", "travel_tourism"]
    );
    for e in &entries {
        if let Some(c) = &e.primary_category {
            assert!(cats.contains(c));
        }
        assert_eq!(e.primary_category.is_none(), e.ambiguity_level == "out_of_scope");
    }
    assert_eq!(choices_with_none(&cats)[5], "none_of_the_above");
}

#[test]
fn quotes_are_doubled() {
    assert_eq!(csv_quote("plain"), "\"plain\"");
    assert_eq!(csv_quote("a \"b\", c"), "\"a \"\"b\"\", c\"");
    assert_eq!(csv_quote(""), "\"\"");
}

#[test]
fn table_lines_are_joined() {
    let cats = categories();
    assert_eq!(
        csv_header(&cats),
        "id,text,ambiguity_level,primary_category,secondary_category,backend,llm,api,prediction,confidence,prob_technology,prob_food_cooking,prob_sports_fitness,prob_finance_investing,prob_travel_tourism,prob_none"
    );
    let entries = dataset();
    let row = csv_row(
        &entries[38],
        "ollama",
        "m",
        "classify",
        "none_of_the_above",
        &["0.500000".to_string(), "0.250000".to_string()],
    );
    assert_eq!(
        row,
        "39,\"The chemical structure of DNA consists of two long chains of nucleotides twisted into a double helix.\",out_of_scope,,,ollama,m,classify,none_of_the_above,0.500000,0.250000"
    );
}

#[test]
fn missing_probabilities_are_zero() {
    let mut p = LabelMap::new();
    p.insert("b".to_string(), scalar(0.25));
    p.insert("none_of_the_above".to_string(), scalar(0.75));
    assert_eq!(
        row_probabilities(&p, &["a".to_string(), "b".to_string()]),
        vec![scalar(0.0), scalar(0.25), scalar(0.75)]
    );
}

#[test]
fn dates_are_gregorian() {
    assert_eq!(days_to_ymd(0), (1970, 1, 1));
    assert_eq!(days_to_ymd(-1), (1969, 12, 31));
    assert_eq!(days_to_ymd(59), (1970, 3, 1));
    assert_eq!(days_to_ymd(11016), (2000, 2, 29));
    assert_eq!(days_to_ymd(11017), (2000, 3, 1));
    assert_eq!(days_to_ymd(20646), (2026, 7, 12));
    assert_eq!(days_to_ymd(47540), (2100, 2, 28));
    assert_eq!(days_to_ymd(47541), (2100, 3, 1));
    assert_eq!(days_to_ymd(-719468), (0, 3, 1));
    assert_eq!(days_to_ymd(-719469), (0, 2, 29));
}

#[test]
fn timestamps_are_padded() {
    assert_eq!(timestamp(0), "19700101000000");
    assert_eq!(timestamp(20646 * 86400), "20260712000000");
    assert_eq!(timestamp(86399), "19700101235959");
    assert_eq!(timestamp(3661), "19700101010101");
    assert_eq!(csv_path("ollama", "20260712000000"), "ollama_20260712000000.csv");
}

fn result(p: &[(&str, f64)]) -> ClassificationResult {
    let mut m = LabelMap::new();
    for (k, x) in p {
        m.insert(k.to_string(), scalar(*x));
    }
    ClassificationResult::new_multi_call("a".into(), scalar(0.6), m, 2)
}

fn expectation(choices: &[&str]) -> Expectation {
    Expectation {
        choices: choices.iter().map(|s| s.to_string()).collect(),
        method: "multi_call".to_string(),
        accepted: vec![],
        calls: None,
        exact: true,
    }
}

const FAULTLESS: ResultFaults = ResultFaults {
    method: false,
    prediction: false,
    confidence: false,
    labels: false,
    answer: false,
    calls: false,
    approximate: false,
};

#[test]
fn results_are_checked_against_expectations() {
    let r = result(&[("a", 0.6), ("b", 0.4)]);
    assert_eq!(check_result(&r, &expectation(&["b", "a"])), FAULTLESS);
    let mut e = expectation(&["b"]);
    e.method = "adaptive_generate".to_string();
    e.calls = Some((3, 4));
    e.accepted = vec!["b".to_string()];
    let f = check_result(&r, &e);
    assert!(f.method && f.prediction && f.labels && f.calls && f.answer);
    assert!(!f.confidence && !f.approximate);
    assert!(check_result(&r, &expectation(&["a", "b", "c"])).labels);
    let mut e = expectation(&["a", "b"]);
    e.calls = Some((2, 2));
    e.accepted = vec!["a".to_string()];
    assert_eq!(check_result(&r, &e), FAULTLESS);
    let mut off = result(&[("a", 0.6), ("b", 0.4)]);
    off.confidence = scalar(1.5);
    off.approximate = true;
    let f = check_result(&off, &expectation(&["a", "b"]));
    assert!(f.confidence && f.approximate);
}
