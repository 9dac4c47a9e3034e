use ollama_classifier_rs::label_map::LabelMap;
use ollama_classifier_rs::scalar::Scalar;
use ollama_classifier_rs::scoring::{
    cluster_masses, divergence_point, get_covered_lengths, get_scored_lengths,
    identify_unresolved_clusters, mean_terms, reproportion, softmax_shift, uniform,
    winning_path_logprobs, LabelTrie, ScoringError,
};

fn scalar(x: f64) -> Scalar {
    Scalar { bits: x.to_bits() }
}

fn value(x: Scalar) -> f64 {
    f64::from_bits(x.bits)
}

fn strings(v: &[&str]) -> Vec<String> {
    v.iter().map(|s| s.to_string()).collect()
}

fn scores(v: &[(&str, f64)]) -> LabelMap<Scalar> {
    let mut m = LabelMap::new();
    for (k, x) in v {
        m.insert(k.to_string(), scalar(*x));
    }
    m
}

fn sequences(v: &[(&str, &[&str])]) -> LabelMap<Vec<String>> {
    let mut m = LabelMap::new();
    for (k, tokens) in v {
        m.insert(k.to_string(), strings(tokens));
    }
    m
}

fn geometric_mean_logprob(lps: &[f64]) -> Result<f64, ScoringError> {
    let lps: Vec<Scalar> = lps.iter().map(|x| scalar(*x)).collect();
    let terms = mean_terms(&lps)?;
    if terms.is_empty() {
        return Ok(f64::NEG_INFINITY);
    }
    Ok(terms.iter().map(|x| value(*x)).sum::<f64>() / terms.len() as f64)
}

fn stable_softmax(lps: &LabelMap<Scalar>) -> Result<Vec<(String, f64)>, ScoringError> {
    let Some(m) = softmax_shift(lps)? else {
        let even = uniform(lps);
        return Ok((0..even.len())
            .map(|i| (even.key_at(i).clone(), value(*even.value_at(i))))
            .collect());
    };
    let n = lps.len();
    let mut exps = Vec::new();
    let mut total = 0.0;
    for i in 0..n {
        let v = value(*lps.value_at(i));
        let e = if v > f64::NEG_INFINITY { (v - value(m)).exp() } else { 0.0 };
        total += e;
        exps.push((lps.key_at(i).clone(), e));
    }
    Ok(exps.into_iter().map(|(k, e)| (k, e / total)).collect())
}

#[test]
fn test_geometric_mean_logprob_basic() {
    let lps = vec![-1.0, -2.0, -3.0];
    let g = geometric_mean_logprob(&lps).unwrap();
    assert!((g - (-2.0)).abs() < 1e-9);
}

#[test]
fn test_geometric_mean_logprob_filters_neg_inf() {
    let lps = vec![f64::NEG_INFINITY, -2.0];
    let g = geometric_mean_logprob(&lps).unwrap();
    assert!((g - (-2.0)).abs() < 1e-9);
}

#[test]
fn test_geometric_mean_logprob_all_neg_inf() {
    let lps = vec![f64::NEG_INFINITY, f64::NEG_INFINITY];
    let g = geometric_mean_logprob(&lps).unwrap();
    assert!(g == f64::NEG_INFINITY);
}

#[test]
fn test_geometric_mean_logprob_empty_errors() {
    assert!(geometric_mean_logprob(&[]).is_err());
    assert_eq!(mean_terms(&[]), Err(ScoringError::EmptySequence));
}

#[test]
fn test_stable_softmax_basic() {
    let lp = scores(&[("a", -1.0), ("b", -2.0), ("c", -3.0)]);
    let p = stable_softmax(&lp).unwrap();
    assert!((p[0].1 - 0.66524096).abs() < 1e-6);
    assert!((p[1].1 - 0.24472847).abs() < 1e-6);
    assert!((p[2].1 - 0.09003057).abs() < 1e-6);
    let total: f64 = p.iter().map(|x| x.1).sum();
    assert!((total - 1.0).abs() < 1e-9);
}

#[test]
fn test_stable_softmax_all_neg_inf_is_uniform() {
    let lp = scores(&[
        ("a", f64::NEG_INFINITY),
        ("b", f64::NEG_INFINITY),
        ("c", f64::NEG_INFINITY),
    ]);
    assert_eq!(softmax_shift(&lp), Ok(None));
    assert_eq!(uniform(&lp).key_at(2), "c");
    assert_eq!(value(*uniform(&lp).get("b").unwrap()), 1.0 / 3.0);
    for (_, v) in stable_softmax(&lp).unwrap() {
        assert!((v - (1.0 / 3.0)).abs() < 1e-9);
    }
}

#[test]
fn test_stable_softmax_empty_errors() {
    let lp: LabelMap<Scalar> = LabelMap::new();
    assert!(stable_softmax(&lp).is_err());
    assert_eq!(softmax_shift(&lp), Err(ScoringError::EmptyMap));
}

#[test]
fn shift_is_greatest_valid_value() {
    let lp = scores(&[
        ("a", f64::NEG_INFINITY),
        ("b", -2.5),
        ("c", -0.5),
        ("d", f64::NAN),
        ("e", -0.75),
    ]);
    assert_eq!(softmax_shift(&lp), Ok(Some(scalar(-0.5))));
}

#[test]
fn mean_skips_what_is_no_number() {
    let lps = [scalar(f64::NAN), scalar(-1.0), scalar(f64::NEG_INFINITY)];
    assert_eq!(mean_terms(&lps), Ok(vec![scalar(-1.0)]));
}

#[test]
fn test_divergence_point_identical() {
    let a = vec!["x".to_string(), "y".to_string()];
    let b = vec!["x".to_string(), "y".to_string()];
    assert_eq!(divergence_point(&a, &b), 2);
}

#[test]
fn test_divergence_point_differs_midway() {
    let a = vec!["x".to_string(), "y".to_string()];
    let b = vec!["x".to_string(), "z".to_string()];
    assert_eq!(divergence_point(&a, &b), 1);
}

#[test]
fn test_divergence_point_different_length() {
    let a = vec!["x".to_string()];
    let b = vec!["x".to_string(), "y".to_string()];
    assert_eq!(divergence_point(&a, &b), 1);
}

#[test]
fn divergence_is_symmetric() {
    let a = strings(&["p", "q", "r"]);
    let b = strings(&["p", "q", "s", "t"]);
    assert_eq!(divergence_point(&a, &b), 2);
    assert_eq!(divergence_point(&b, &a), 2);
    assert_eq!(divergence_point(&a, &[]), 0);
}

#[test]
fn test_label_trie_branching_factor() {
    let mut trie = LabelTrie::new();
    trie.insert("cat", &["a".to_string(), "x".to_string()]);
    trie.insert("dog", &["b".to_string(), "y".to_string()]);
    assert_eq!(trie.max_branching_factor(), 2);
    assert_eq!(
        trie.get_token_sequence("cat"),
        vec!["a".to_string(), "x".to_string()]
    );
    assert_eq!(trie.all_labels().len(), 2);
}

#[test]
fn test_label_trie_branching_factor_shared_prefix() {
    let mut trie = LabelTrie::new();
    trie.insert("cat", &["a".to_string(), "x".to_string()]);
    trie.insert("car", &["a".to_string(), "y".to_string()]);
    assert_eq!(trie.max_branching_factor(), 2);
}

#[test]
fn trie_follows_inserted_paths() {
    let mut trie = LabelTrie::default();
    assert_eq!(trie.max_branching_factor(), 0);
    trie.insert("cat", &strings(&["a", "x"]));
    trie.insert("a", &strings(&["a"]));
    let root = trie.root();
    let a = root.get_child(&"a".to_string()).unwrap();
    assert!(a.is_terminal);
    assert_eq!(a.label.as_deref(), Some("a"));
    let x = a.get_child(&"x".to_string()).unwrap();
    assert_eq!(x.label.as_deref(), Some("cat"));
    assert!(root.get_child(&"b".to_string()).is_none());
    assert!(trie.get_token_sequence("dog").is_empty());
    trie.insert("cat", &strings(&["b"]));
    assert_eq!(trie.get_token_sequence("cat"), strings(&["b"]));
    assert_eq!(trie.all_labels(), strings(&["cat", "a"]));
}

#[test]
fn cloned_trie_is_independent() {
    let mut trie = LabelTrie::new();
    trie.insert("cat", &strings(&["a", "x"]));
    let copy = trie.clone();
    trie.insert("dog", &strings(&["b"]));
    assert_eq!(copy.all_labels(), strings(&["cat"]));
    assert_eq!(copy.get_token_sequence("cat"), strings(&["a", "x"]));
    let a = copy.root().get_child(&"a".to_string()).unwrap();
    assert_eq!(a.get_child(&"x".to_string()).unwrap().label.as_deref(), Some("cat"));
    assert!(copy.root().get_child(&"b".to_string()).is_none());
}

#[test]
fn test_score_labels_from_winning_path() {
    let seq = sequences(&[
        ("cat", &["a", "x"]),
        ("car", &["a", "y"]),
        ("dog", &["b", "z"]),
    ]);
    let steps = vec![
        scores(&[("a", -1.0), ("b", -3.0)]),
        scores(&[("x", -0.5), ("y", -2.0)]),
    ];
    let paths = winning_path_logprobs(&seq, "cat", &steps);
    let score = |label: &str| {
        let lps: Vec<f64> = paths.get(label).unwrap().iter().map(|x| value(*x)).collect();
        geometric_mean_logprob(&lps).unwrap_or(f64::NEG_INFINITY)
    };
    assert!((score("cat") - (-0.75)).abs() < 1e-9);
    assert!((score("car") - (-1.0)).abs() < 1e-9);
    assert!(score("dog") == f64::NEG_INFINITY);
}

#[test]
fn missing_candidate_is_negative_infinity() {
    let seq = sequences(&[("cat", &["a", "x"])]);
    let steps = vec![scores(&[("a", -1.0)])];
    let paths = winning_path_logprobs(&seq, "cat", &steps);
    assert_eq!(
        paths.get("cat").unwrap(),
        &vec![scalar(-1.0), scalar(f64::NEG_INFINITY)]
    );
}

#[test]
fn test_get_scored_lengths() {
    let seq = sequences(&[("cat", &["a", "x"]), ("car", &["a", "y"])]);
    let lens = get_scored_lengths(&seq, "cat");
    assert_eq!(lens.get("cat"), Some(&2));
    assert_eq!(lens.get("car"), Some(&1));
}

#[test]
fn covered_lengths_hold_the_divergence_position() {
    let seq = sequences(&[
        ("cat", &["c", "a", "t"]),
        ("car", &["c", "a", "r"]),
        ("dog", &["d", "o", "g"]),
        ("c", &["c"]),
        ("none", &[]),
    ]);
    let lens = get_covered_lengths(&seq, "cat");
    assert_eq!(lens.get("cat"), Some(&3));
    assert_eq!(lens.get("car"), Some(&3));
    assert_eq!(lens.get("dog"), Some(&1));
    assert_eq!(lens.get("c"), Some(&1));
    assert_eq!(lens.get("none"), Some(&0));
    let lens = get_covered_lengths(&seq, "unknown");
    assert_eq!(lens.get("cat"), Some(&1));
}

#[test]
fn test_identify_unresolved_clusters() {
    let seq = sequences(&[
        ("cat", &["a", "x"]),
        ("car", &["a", "y"]),
        ("dog", &["b", "z"]),
    ]);
    let mut scored = LabelMap::new();
    scored.insert("cat".to_string(), 1);
    scored.insert("car".to_string(), 1);
    scored.insert("dog".to_string(), 1);
    let clusters = identify_unresolved_clusters(&seq, &scored);
    assert_eq!(clusters.len(), 1);
    let mut members = clusters[0].labels.clone();
    members.sort();
    assert_eq!(members, vec!["car".to_string(), "cat".to_string()]);
    assert_eq!(clusters[0].resolved_length, 1);
}

#[test]
fn clusters_are_disjoint_and_leave_out_the_resolved() {
    let seq = sequences(&[
        ("a1", &["a", "1"]),
        ("b1", &["b", "1"]),
        ("a2", &["a", "2"]),
        ("b2", &["b", "2"]),
        ("a", &["a"]),
    ]);
    let mut scored = LabelMap::new();
    for l in ["a1", "b1", "a2", "b2", "a"] {
        scored.insert(l.to_string(), 1);
    }
    let clusters = identify_unresolved_clusters(&seq, &scored);
    assert_eq!(clusters.len(), 2);
    assert_eq!(clusters[0].labels, strings(&["a1", "a2"]));
    assert_eq!(clusters[1].labels, strings(&["b1", "b2"]));
    let none = identify_unresolved_clusters(&seq, &LabelMap::new());
    assert_eq!(none.len(), 1);
    assert_eq!(none[0].resolved_length, 0);
    assert_eq!(none[0].labels.len(), 5);
}

#[test]
fn reproportion_touches_cluster_members_only() {
    let mut p = scores(&[("A", 0.5), ("B", 0.3), ("C", 0.2)]);
    assert_eq!(
        cluster_masses(&p, &strings(&["B", "X", "C"])),
        vec![scalar(0.3), scalar(0.2)]
    );
    let shares = scores(&[("C", 0.4), ("B", 0.1), ("A", 0.9)]);
    reproportion(&mut p, &strings(&["B", "X", "C"]), &shares);
    assert_eq!(p.get("A"), Some(&scalar(0.5)));
    assert_eq!(p.get("B"), Some(&scalar(0.1)));
    assert_eq!(p.get("C"), Some(&scalar(0.4)));
    assert_eq!(p.all_keys(), strings(&["A", "B", "C"]));
}

#[test]
fn scalars_compare_as_doubles_do() {
    let values = [
        f64::NEG_INFINITY,
        -1.5,
        -0.0,
        0.0,
        5e-324,
        1.0,
        2.0,
        f64::INFINITY,
        f64::NAN,
    ];
    for a in values {
        assert_eq!(scalar(a).is_valid(), a > f64::NEG_INFINITY);
        assert_eq!(scalar(a).is_share(), (0.0..=1.0).contains(&a));
        for b in values {
            assert_eq!(scalar(a).exceeds(scalar(b)), a > b);
        }
    }
    assert_eq!(Scalar::neg_infinity(), scalar(f64::NEG_INFINITY));
}
