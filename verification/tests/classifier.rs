//! The `classify` and `generate` paths end to end, against a scripted backend.

use ollama_classifier_rs::adaptive::AdaptiveRun;
use ollama_classifier_rs::backends::base::{
    ChatMessage, ChatResponse, ScoringResponse, Token, TokenLogprob,
};
use ollama_classifier_rs::backends::VLLMBackend;
use ollama_classifier_rs::classifier::{
    argmax, collect_details, empty_adaptive, extract_step_logprobs, finalize_multi_call,
    label_sequence, label_sequences, score_details,
};
use ollama_classifier_rs::label_map::LabelMap;
use ollama_classifier_rs::prompts::{build_classification_prompt, get_choice_labels};
use ollama_classifier_rs::scalar::Scalar;
use ollama_classifier_rs::scoring::{
    cluster_masses, mean_terms, reproportion, softmax_shift, LabelTrie,
};
use ollama_classifier_rs::types::RawResponse;
use ollama_classifier_rs::{Choices, ClassificationResult, LLMClassifier};
use serde_json::Value;
use std::cell::Cell;
use std::collections::HashMap;

fn scalar(x: f64) -> Scalar {
    Scalar { bits: x.to_bits() }
}

fn value(x: Scalar) -> f64 {
    f64::from_bits(x.bits)
}

fn strings(v: &[&str]) -> Vec<String> {
    v.iter().map(|s| s.to_string()).collect()
}

fn mean(lps: &[Scalar]) -> Scalar {
    match mean_terms(lps) {
        Ok(t) if !t.is_empty() => {
            scalar(t.iter().map(|x| value(*x)).sum::<f64>() / t.len() as f64)
        }
        _ => Scalar::neg_infinity(),
    }
}

fn softmax(scores: &LabelMap<Scalar>) -> LabelMap<Scalar> {
    let mut r = LabelMap::new();
    let shift = match softmax_shift(scores) {
        Ok(s) => s,
        Err(_) => return r,
    };
    let mut exps = Vec::new();
    for i in 0..scores.len() {
        let x = *scores.value_at(i);
        exps.push(match shift {
            Some(m) if x.is_valid() => (value(x) - value(m)).exp(),
            Some(_) => 0.0,
            None => 1.0,
        });
    }
    let total: f64 = exps.iter().sum();
    for i in 0..scores.len() {
        r.insert(scores.key_at(i).clone(), scalar(exps[i] / total));
    }
    r
}

fn total(p: &LabelMap<Scalar>) -> f64 {
    (0..p.len()).map(|i| value(*p.value_at(i))).sum()
}

fn probability(r: &ClassificationResult, label: &str) -> f64 {
    value(*r.probabilities.get(label).unwrap())
}

fn coverage(r: &ClassificationResult, label: &str) -> f64 {
    let c = r.coverage.get(label).unwrap();
    if c.total == 0 {
        1.0
    } else {
        c.scored as f64 / c.total as f64
    }
}

type Steps = Vec<HashMap<String, f64>>;

fn step(v: &[(&str, f64)]) -> HashMap<String, f64> {
    v.iter().map(|(k, x)| (k.to_string(), *x)).collect()
}

/// A backend that returns scripted responses and counts calls.
struct MockBackend {
    score_logprobs: HashMap<String, Vec<f64>>,
    chat_label: String,
    chat_steps: Steps,
    chat_map: HashMap<String, Steps>,
    token_sequences: HashMap<String, Vec<String>>,
    score_calls: Cell<usize>,
    chat_calls: Cell<usize>,
}

impl MockBackend {
    fn new() -> Self {
        MockBackend {
            score_logprobs: HashMap::new(),
            chat_label: String::new(),
            chat_steps: Vec::new(),
            chat_map: HashMap::new(),
            token_sequences: HashMap::new(),
            score_calls: Cell::new(0),
            chat_calls: Cell::new(0),
        }
    }

    fn with_score(mut self, label: &str, lps: Vec<f64>) -> Self {
        self.score_logprobs.insert(label.to_string(), lps);
        self
    }

    fn with_tokens(mut self, label: &str, tokens: &[&str]) -> Self {
        self.token_sequences
            .insert(label.to_string(), strings(tokens));
        self
    }

    fn with_chat(mut self, label: &str, steps: Steps) -> Self {
        self.chat_label = label.to_string();
        self.chat_steps = steps;
        self
    }

    fn with_chat_map(mut self, map: HashMap<String, Steps>) -> Self {
        self.chat_map = map;
        self
    }

    fn chat(&self, constrain_labels: &[String]) -> ChatResponse {
        self.chat_calls.set(self.chat_calls.get() + 1);
        let (winner, steps) = if self.chat_map.is_empty() {
            (self.chat_label.clone(), self.chat_steps.clone())
        } else {
            let winner = constrain_labels[0].clone();
            let steps = self.chat_map.get(&winner).cloned().unwrap_or_default();
            (winner, steps)
        };
        let logprobs = steps
            .iter()
            .map(|s| {
                let (token, lp) = s
                    .iter()
                    .max_by(|(_, a), (_, b)| a.partial_cmp(b).unwrap())
                    .unwrap();
                let mut top = LabelMap::new();
                for (k, x) in s {
                    top.insert(k.clone(), scalar(*x));
                }
                TokenLogprob {
                    token: token.clone(),
                    token_id: -1,
                    logprob: scalar(*lp),
                    top_logprobs: top,
                }
            })
            .collect();
        ChatResponse {
            content: winner.clone(),
            label: winner,
            logprobs: Some(logprobs),
            raw: Value::Null,
        }
    }

    fn score(&self, completion: &str) -> ScoringResponse {
        self.score_calls.set(self.score_calls.get() + 1);
        let lps = self
            .score_logprobs
            .get(completion)
            .cloned()
            .unwrap_or_default();
        ScoringResponse {
            completion: completion.to_string(),
            logprobs: lps
                .iter()
                .map(|x| TokenLogprob::new("x", scalar(*x)))
                .collect(),
            raw: Value::Null,
        }
    }

    fn tokenize(&self, text: &str) -> Vec<Token> {
        let tokens = self
            .token_sequences
            .get(text)
            .cloned()
            .unwrap_or_else(|| vec![text.to_string()]);
        tokens
            .iter()
            .enumerate()
            .map(|(i, t)| Token {
                text: t.clone(),
                id: i as i64,
            })
            .collect()
    }
}

fn classify(classifier: &LLMClassifier<MockBackend>, text: &str, choices: Choices) -> ClassificationResult {
    let labels = get_choice_labels(&choices);
    let (system, user) = build_classification_prompt(text, &choices, None);
    let messages = LLMClassifier::<MockBackend>::to_messages(&system, &user);
    assert_eq!(messages.len(), 2);
    let outcomes: Vec<Option<ScoringResponse>> = labels
        .iter()
        .map(|l| Some(classifier.backend().score(l)))
        .collect();
    let details = collect_details(&labels, &outcomes);
    let mut raw_scores = LabelMap::new();
    for i in 0..details.len() {
        raw_scores.insert(details.key_at(i).clone(), mean(details.value_at(i)));
    }
    let probabilities = softmax(&raw_scores);
    finalize_multi_call(raw_scores, details, probabilities, labels.len())
}

fn generate(
    classifier: &LLMClassifier<MockBackend>,
    labels: &[&str],
    max_calls: Option<usize>,
) -> ClassificationResult {
    let labels = strings(labels);
    let backend = classifier.backend();
    let tokens: Vec<Vec<Token>> = labels.iter().map(|l| backend.tokenize(l)).collect();
    let sequences = label_sequences(&labels, &tokens);
    let mut run = AdaptiveRun::new(&labels, sequences, max_calls);
    let k = LLMClassifier::<MockBackend>::top_logprobs_budget(run.trie());
    assert!(k >= 5);
    run.absorb_first(&backend.chat(&labels));
    let scores = |run: &AdaptiveRun, labels: &[String]| {
        let mut m = LabelMap::new();
        for l in labels {
            m.insert(l.clone(), mean(run.label_logprobs(l).unwrap()));
        }
        m
    };
    let raw_scores = scores(&run, &labels);
    let mut probabilities = softmax(&raw_scores);
    while let Some(cluster) = run.next_cluster() {
        let response = backend.chat(&cluster.labels);
        let cluster = run.absorb_cluster(&response);
        let mass: f64 = cluster_masses(&probabilities, &cluster.labels)
            .iter()
            .map(|x| value(*x))
            .sum();
        let weights = softmax(&scores(&run, &cluster.labels));
        let mut shares = LabelMap::new();
        for i in 0..weights.len() {
            shares.insert(
                weights.key_at(i).clone(),
                scalar(mass * value(*weights.value_at(i))),
            );
        }
        reproportion(&mut probabilities, &cluster.labels, &shares);
    }
    assert_eq!(run.calls_made(), backend.chat_calls.get());
    run.finish(raw_scores, probabilities)
}

#[test]
fn test_argmax() {
    let mut m = LabelMap::new();
    m.insert("a".to_string(), scalar(0.1));
    m.insert("b".to_string(), scalar(0.7));
    m.insert("c".to_string(), scalar(0.2));
    assert_eq!(argmax(&m), Some("b".to_string()));
}

#[test]
fn first_of_equal_maxima_is_taken() {
    let mut m = LabelMap::new();
    assert_eq!(argmax(&m), None);
    m.insert("x".to_string(), scalar(0.25));
    m.insert("y".to_string(), scalar(0.375));
    m.insert("z".to_string(), scalar(0.375));
    assert_eq!(argmax(&m), Some("y".to_string()));
}

#[test]
fn test_to_messages() {
    let msgs = LLMClassifier::<VLLMBackend>::to_messages("sys", "usr");
    assert_eq!(msgs.len(), 2);
    assert_eq!(msgs[0].role, "system");
    assert_eq!(msgs[0].content, "sys");
    assert_eq!(msgs[1].role, "user");
    assert_eq!(msgs[1].content, "usr");
}

#[test]
fn test_classify_makes_one_call_per_label() {
    let backend = MockBackend::new()
        .with_score("positive", vec![-0.5])
        .with_score("negative", vec![-2.0])
        .with_score("neutral", vec![-3.0]);
    let classifier = LLMClassifier::new(backend);
    let result = classify(
        &classifier,
        "I love it!",
        Choices::from(vec!["positive", "negative", "neutral"]),
    );
    assert_eq!(result.method, "multi_call");
    assert_eq!(result.n_calls, 3);
    assert!(!result.approximate);
    assert_eq!(result.prediction, "positive");
    assert!(value(result.confidence) > 0.5);
    assert!(result.coverage.is_empty());
    assert!((total(&result.probabilities) - 1.0).abs() < 1e-9);
    assert_eq!(classifier.backend().score_calls.get(), 3);
    match &result.raw_response {
        RawResponse::MultiCall {
            logprobs,
            token_logprobs,
        } => {
            assert_eq!(logprobs.get("negative"), Some(&scalar(-2.0)));
            assert_eq!(token_logprobs.get("positive"), Some(&vec![scalar(-0.5)]));
        }
        _ => panic!("diagnostics are kept"),
    }
}

#[test]
fn test_classify_negative_inf_gives_uniform_when_all_invalid() {
    let backend = MockBackend::new()
        .with_score("a", vec![f64::NEG_INFINITY])
        .with_score("b", vec![f64::NEG_INFINITY]);
    let classifier = LLMClassifier::new(backend);
    let result = classify(&classifier, "x", Choices::from(vec!["a", "b"]));
    assert!((probability(&result, "a") - 0.5).abs() < 1e-9);
    assert!((probability(&result, "b") - 0.5).abs() < 1e-9);
}

#[test]
fn failed_scores_are_negative_infinity() {
    assert!(score_details(None).is_empty());
    assert_eq!(mean(&score_details(None)), Scalar::neg_infinity());
    let backend = MockBackend::new().with_score("a", vec![-0.5, -1.5]);
    let outcomes = [Some(backend.score("a")), None, None];
    let details = collect_details(&strings(&["a", "b", "a"]), &outcomes);
    assert_eq!(details.all_keys(), strings(&["a", "b"]));
    assert!(details.get("a").unwrap().is_empty());
    let details = collect_details(&strings(&["a", "b"]), &outcomes[..2]);
    assert_eq!(details.get("a"), Some(&vec![scalar(-0.5), scalar(-1.5)]));
}

#[test]
fn test_choices_from_hashmap() {
    let backend = MockBackend::new().with_score("a", vec![-0.1]);
    let classifier = LLMClassifier::new(backend);
    let mut map = LabelMap::new();
    map.insert("a".to_string(), "Option A".to_string());
    let result = classify(&classifier, "x", Choices::from(map));
    assert_eq!(result.prediction, "a");
}

#[test]
fn test_generate_single_call_picks_winning_label() {
    let backend = MockBackend::new()
        .with_tokens("cat", &["cat"])
        .with_tokens("dog", &["dog"])
        .with_chat("cat", vec![step(&[("cat", -0.5), ("dog", -2.0)])]);
    let classifier = LLMClassifier::new(backend);
    let result = generate(&classifier, &["cat", "dog"], Some(1));
    assert_eq!(result.method, "adaptive_generate");
    assert_eq!(result.prediction, "cat");
    assert_eq!(result.n_calls, 1);
    assert!(value(result.confidence) > 0.5);
    assert!(classifier.backend().chat_calls.get() >= 1);
}

#[test]
fn test_generate_exact_resolves_shared_prefix() {
    let backend = MockBackend::new()
        .with_tokens("cat", &["c", "a", "t"])
        .with_tokens("car", &["c", "a", "r"])
        .with_chat(
            "cat",
            vec![
                step(&[("c", -0.3)]),
                step(&[("a", -0.4)]),
                step(&[("t", -0.2), ("r", -1.5)]),
            ],
        );
    let classifier = LLMClassifier::new(backend);
    let result = generate(&classifier, &["cat", "car"], None);
    assert_eq!(result.method, "adaptive_generate");
    assert_eq!(result.prediction, "cat");
    assert!((coverage(&result, "cat") - 1.0).abs() < 1e-9);
    assert!((coverage(&result, "car") - 1.0).abs() < 1e-9);
    assert!(!result.approximate);
}

#[test]
fn test_generate_prediction_is_softmax_argmax() {
    let backend = MockBackend::new()
        .with_tokens("aa", &["a", "a"])
        .with_tokens("ab", &["a", "b"])
        .with_chat(
            "aa",
            vec![step(&[("a", -0.2)]), step(&[("a", -0.3), ("b", -1.0)])],
        );
    let classifier = LLMClassifier::new(backend);
    let result = generate(&classifier, &["aa", "ab"], Some(1));
    assert_eq!(result.method, "adaptive_generate");
    assert_eq!(result.n_calls, 1);
    assert!((coverage(&result, "aa") - 1.0).abs() < 1e-9);
    assert!((coverage(&result, "ab") - 1.0).abs() < 1e-9);
    assert!(result.prediction == "aa" || result.prediction == "ab");
    assert!((total(&result.probabilities) - 1.0).abs() < 1e-9);
}

fn monotonicity_backend() -> MockBackend {
    let map = HashMap::from([
        (
            "A".to_string(),
            vec![step(&[("s", -0.2)]), step(&[("a", -0.1), ("b1", -0.8)])],
        ),
        (
            "B".to_string(),
            vec![
                step(&[("s", -0.2)]),
                step(&[("b1", -0.8)]),
                step(&[("b2", -0.3)]),
                step(&[("b3", -0.3)]),
            ],
        ),
        (
            "C".to_string(),
            vec![
                step(&[("s", -0.2)]),
                step(&[("b1", -0.8)]),
                step(&[("c2", -2.0)]),
                step(&[("c3", -2.0)]),
            ],
        ),
    ]);
    MockBackend::new()
        .with_tokens("A", &["s", "a"])
        .with_tokens("B", &["s", "b1", "b2", "b3"])
        .with_tokens("C", &["s", "b1", "c2", "c3"])
        .with_chat_map(map)
}

#[test]
fn test_max_calls_does_not_flip_prediction() {
    for max_calls in [Some(1usize), Some(2), Some(3), None] {
        let classifier = LLMClassifier::new(monotonicity_backend());
        let result = generate(&classifier, &["A", "B", "C"], max_calls);
        assert_eq!(
            result.prediction, "A",
            "max_calls={:?}: expected 'A', got '{}'",
            max_calls, result.prediction
        );
        let sum = total(&result.probabilities);
        assert!(
            (sum - 1.0).abs() < 1e-10,
            "max_calls={:?}: probabilities must sum to 1.0 (got {})",
            max_calls,
            sum
        );
    }
}

#[test]
fn test_reproportion_preserves_group_mass() {
    let clf1 = LLMClassifier::new(monotonicity_backend());
    let r1 = generate(&clf1, &["A", "B", "C"], Some(1));
    let clf2 = LLMClassifier::new(monotonicity_backend());
    let r2 = generate(&clf2, &["A", "B", "C"], None);
    assert!((total(&r1.probabilities) - 1.0).abs() < 1e-10);
    assert!((total(&r2.probabilities) - 1.0).abs() < 1e-10);
    assert!(
        probability(&r2, "A") >= probability(&r1, "A") - 1e-10,
        "A's probability decreased: mc=1={}, mc=None={}",
        probability(&r1, "A"),
        probability(&r2, "A")
    );
    let group1 = probability(&r1, "B") + probability(&r1, "C");
    let group2 = probability(&r2, "B") + probability(&r2, "C");
    assert!(
        (group2 - group1).abs() < 1e-9,
        "P(B)+P(C) changed: mc=1={}, mc=None={}",
        group1,
        group2
    );
    assert_eq!(r1.n_calls, 1);
    assert_eq!(r2.n_calls, 2);
    assert!(probability(&r2, "B") != probability(&r1, "B"));
}

#[test]
fn winner_of_the_first_call_keeps_its_probability() {
    let limited = generate(&LLMClassifier::new(monotonicity_backend()), &["A", "B", "C"], Some(1));
    let whole = generate(&LLMClassifier::new(monotonicity_backend()), &["A", "B", "C"], None);
    assert_eq!(limited.prediction, "A");
    assert_eq!(probability(&whole, "A"), probability(&limited, "A"));
    assert_eq!(whole.n_calls, 2);
}

#[test]
fn test_single_token_labels_need_no_resolution_calls() {
    for max_calls in [Some(1usize), Some(5), None] {
        let backend = MockBackend::new()
            .with_tokens("positive", &["positive"])
            .with_tokens("negative", &["negative"])
            .with_tokens("neutral", &["neutral"])
            .with_chat_map(HashMap::from([(
                "positive".to_string(),
                vec![step(&[
                    ("positive", -0.3),
                    ("negative", -1.5),
                    ("neutral", -2.8),
                ])],
            )]));
        let classifier = LLMClassifier::new(backend);
        let result = generate(&classifier, &["positive", "negative", "neutral"], max_calls);
        assert_eq!(result.prediction, "positive");
        assert_eq!(result.n_calls, 1, "no resolution calls needed");
        assert!(!result.approximate);
    }
}

fn reply(label: &str, tokens: &[(&str, f64)]) -> ChatResponse {
    ChatResponse {
        content: label.to_string(),
        label: label.to_string(),
        logprobs: Some(
            tokens
                .iter()
                .map(|(t, x)| TokenLogprob::new(t, scalar(*x)))
                .collect(),
        ),
        raw: Value::Null,
    }
}

fn nested_run(max_calls: Option<usize>) -> AdaptiveRun {
    let labels = strings(&["w", "aax", "aay", "abz", "abw"]);
    let mut sequences = LabelMap::new();
    sequences.insert("w".to_string(), strings(&["w"]));
    sequences.insert("aax".to_string(), strings(&["p", "a", "a", "x"]));
    sequences.insert("aay".to_string(), strings(&["p", "a", "a", "y"]));
    sequences.insert("abz".to_string(), strings(&["p", "a", "b", "z"]));
    sequences.insert("abw".to_string(), strings(&["p", "a", "b", "w"]));
    AdaptiveRun::new(&labels, sequences, max_calls)
}

#[test]
fn clusters_are_resolved_level_by_level() {
    let mut run = nested_run(None);
    assert!(run.next_cluster().is_none());
    run.absorb_first(&reply("w", &[("w", -0.5)]));
    let first = run.next_cluster().unwrap();
    assert_eq!(first.labels, strings(&["aax", "aay", "abz", "abw"]));
    assert_eq!(first.resolved_length, 1);
    let done = run.absorb_cluster(&reply(
        "aax",
        &[("p", -0.1), ("a", -0.2), ("a", -0.3), ("x", -0.4)],
    ));
    assert_eq!(done.labels.len(), 4);
    assert_eq!(
        run.label_logprobs("aax").unwrap(),
        &vec![scalar(-0.1), scalar(-0.2), scalar(-0.3), scalar(-0.4)]
    );
    assert_eq!(
        run.label_logprobs("aay").unwrap(),
        &vec![scalar(-0.1), scalar(-0.2), scalar(-0.3), Scalar::neg_infinity()]
    );
    assert_eq!(
        run.label_logprobs("abz").unwrap(),
        &vec![scalar(-0.1), scalar(-0.2), Scalar::neg_infinity()]
    );
    assert_eq!(run.label_logprobs("w").unwrap(), &vec![scalar(-0.5)]);
    let second = run.next_cluster().unwrap();
    assert_eq!(second.labels, strings(&["abz", "abw"]));
    assert_eq!(second.resolved_length, 3);
    run.absorb_cluster(&reply(
        "abw",
        &[("p", -0.1), ("a", -0.2), ("b", -0.3), ("w", -0.4)],
    ));
    assert!(run.next_cluster().is_none());
    assert_eq!(run.calls_made(), 3);
    let result = run.finish(LabelMap::new(), LabelMap::new());
    assert!(!result.approximate);
    assert_eq!(result.n_calls, 3);
    assert_eq!(result.prediction, "");
    assert_eq!(value(result.confidence), 0.0);
}

#[test]
fn the_limit_of_calls_is_kept() {
    let mut run = nested_run(Some(1));
    run.absorb_first(&reply("w", &[("w", -0.5)]));
    assert!(run.next_cluster().is_none());
    let result = run.finish(LabelMap::new(), LabelMap::new());
    assert!(result.approximate);
    assert_eq!(result.coverage.get("w").unwrap().scored, 1);
    assert_eq!(result.coverage.get("aax").unwrap().scored, 1);
    assert_eq!(result.coverage.get("aax").unwrap().total, 4);
    match result.raw_response {
        RawResponse::Adaptive { scored_lengths, token_sequences, .. } => {
            assert_eq!(scored_lengths.get("aay"), Some(&1));
            assert_eq!(token_sequences.len(), 5);
        }
        _ => panic!("diagnostics are kept"),
    }
    let mut run = nested_run(Some(2));
    run.absorb_first(&reply("w", &[]));
    assert!(run.next_cluster().is_some());
    run.absorb_cluster(&reply("aax", &[]));
    assert!(run.next_cluster().is_none());
}

#[test]
fn a_winner_nobody_offered_leaves_labels_together() {
    let mut run = nested_run(Some(2));
    run.absorb_first(&reply("stranger", &[]));
    let cluster = run.next_cluster().unwrap();
    assert_eq!(cluster.labels, strings(&["aax", "aay", "abz", "abw"]));
    run.absorb_cluster(&reply("stranger", &[]));
    assert!(run.next_cluster().is_none());
    assert_eq!(run.label_logprobs("aax").unwrap().len(), 1);
}

#[test]
fn labels_without_tokens_are_covered() {
    let labels = strings(&["a", "b"]);
    let mut run = AdaptiveRun::new(&labels, LabelMap::new(), None);
    run.absorb_first(&reply("a", &[]));
    assert!(run.next_cluster().is_none());
    assert!(run.label_logprobs("a").unwrap().is_empty());
    assert!(run.label_logprobs("c").is_none());
    let result = run.finish(LabelMap::new(), LabelMap::new());
    assert!(!result.approximate);
    assert_eq!(coverage(&result, "a"), 1.0);
}

#[test]
fn candidates_off_the_trie_are_dropped() {
    let mut trie = LabelTrie::new();
    trie.insert("cat", &strings(&["c", "at"]));
    trie.insert("cow", &strings(&["c", "ow"]));
    let mut first = TokenLogprob::new("c", scalar(-0.1));
    first.top_logprobs.insert("d".to_string(), scalar(-3.0));
    let noise = TokenLogprob::new("?", scalar(-0.9));
    let mut second = TokenLogprob::new("at", scalar(-0.2));
    second.top_logprobs.insert("ow".to_string(), scalar(-1.0));
    second.top_logprobs.insert("at".to_string(), scalar(-0.25));
    let steps = extract_step_logprobs(&[first, noise, second], &trie);
    assert_eq!(steps.len(), 3);
    assert_eq!(steps[0].all_keys(), strings(&["c"]));
    assert_eq!(steps[0].get("c"), Some(&scalar(-0.1)));
    assert!(steps[1].is_empty());
    assert_eq!(steps[2].get("at"), Some(&scalar(-0.25)));
    assert_eq!(steps[2].get("ow"), Some(&scalar(-1.0)));
}

#[test]
fn failed_first_call_is_uniform() {
    let r = empty_adaptive(&strings(&["a", "b"]), 0);
    assert_eq!(r.prediction, "a");
    assert_eq!(r.n_calls, 0);
    assert!(r.approximate);
    assert_eq!(value(r.confidence), 0.5);
    assert_eq!(probability(&r, "b"), 0.5);
    assert_eq!(coverage(&r, "b"), 0.0);
    assert_eq!(r.method, "adaptive_generate");
}

#[test]
fn failed_first_call_without_labels_has_no_confidence() {
    let r = empty_adaptive(&[], 2);
    assert_eq!(r.prediction, "");
    assert_eq!(value(r.confidence), 0.0);
    assert!(r.probabilities.is_empty());
    assert_eq!(r.n_calls, 2);
}

#[test]
fn reciprocals_are_those_of_doubles() {
    for n in (1u64..2000).chain((0..53).map(|k| (1 << k) + 1)).chain((0..54).map(|k| 1 << k)) {
        let r = Scalar::reciprocal(n);
        assert_eq!(value(r), 1.0 / n as f64, "one over {n}");
        assert!(r.is_share());
    }
    assert_eq!(value(Scalar::reciprocal(3)), 1.0 / 3.0);
    assert_eq!(Scalar::reciprocal(u64::MAX).bits, (2.0f64).powi(-64).to_bits());
}

#[test]
fn last_tokens_of_a_label_count() {
    let token = |t: &str| vec![Token { text: t.to_string(), id: 1 }];
    let tokens = [token("x"), token("y"), vec![Token { text: String::new(), id: 7 }]];
    let r = label_sequences(&strings(&["a", "b", "a"]), &tokens);
    assert_eq!(r.len(), 2);
    assert_eq!(r.key_at(0), "a");
    assert_eq!(r.get("a"), Some(&strings(&["token_7"])));
    assert_eq!(r.get("b"), Some(&strings(&["y"])));
}

#[test]
fn order_of_replies_plays_no_part() {
    let labels = strings(&["good", "bad"]);
    let reply = |label: &str, logprob: f64, raw: Value| {
        Some(ScoringResponse {
            completion: label.to_string(),
            logprobs: vec![TokenLogprob::new(label, scalar(logprob))],
            raw,
        })
    };
    let one_by_one = [reply("good", -0.5, Value::Null), reply("bad", -2.0, Value::Null)];
    let mut at_once = [None, None];
    at_once[1] = reply("bad", -2.0, Value::from("second"));
    at_once[0] = reply("good", -0.5, Value::from("first"));
    let result = |outcomes: &[Option<ScoringResponse>]| {
        let details = collect_details(&labels, outcomes);
        let mut scores = LabelMap::new();
        for i in 0..details.len() {
            scores.insert(details.key_at(i).clone(), mean(details.value_at(i)));
        }
        let probabilities = softmax(&scores);
        finalize_multi_call(scores, details, probabilities, labels.len())
    };
    let (a, b) = (result(&one_by_one), result(&at_once));
    assert_eq!(a.prediction, "good");
    assert_eq!(b.prediction, "good");
    assert_eq!(a.confidence, b.confidence);
    assert_eq!(a.probabilities.get("bad"), b.probabilities.get("bad"));
    assert_eq!(a.n_calls, 2);
    assert_eq!(b.n_calls, 2);
    match (&a.raw_response, &b.raw_response) {
        (
            RawResponse::MultiCall { token_logprobs: x, .. },
            RawResponse::MultiCall { token_logprobs: y, .. },
        ) => {
            assert_eq!(x.get("bad"), Some(&vec![scalar(-2.0)]));
            assert_eq!(y.get("bad"), Some(&vec![scalar(-2.0)]));
            assert_eq!(x.get("good"), y.get("good"));
        }
        _ => panic!("diagnostics are kept"),
    }
}

#[test]
fn token_names_fall_back_to_ids() {
    let tokens = [
        Token { text: "he".to_string(), id: 3 },
        Token { text: String::new(), id: 17 },
        Token { text: String::new(), id: -1 },
    ];
    assert_eq!(label_sequence(&tokens), strings(&["he", "token_17", "token_-1"]));
}

#[test]
fn budget_covers_the_widest_node() {
    let mut trie = LabelTrie::new();
    trie.insert("a", &strings(&["a"]));
    assert_eq!(LLMClassifier::<()>::top_logprobs_budget(&trie), 5);
    for i in 0..8 {
        trie.insert(&format!("l{i}"), &strings(&["a", &format!("t{i}")]));
    }
    assert_eq!(LLMClassifier::<()>::top_logprobs_budget(&trie), 8);
}

#[test]
fn workers_are_bounded() {
    let c = LLMClassifier::new(());
    assert_eq!(c.worker_count(10), 4);
    assert_eq!(c.worker_count(3), 3);
    assert_eq!(c.worker_count(0), 1);
    assert_eq!(LLMClassifier::with_max_workers((), 0).worker_count(9), 1);
    assert_eq!(LLMClassifier::with_max_workers((), 8).worker_count(9), 8);
}

#[test]
fn labels_are_tokenized_in_context() {
    assert_eq!(LLMClassifier::<()>::token_context(true), None);
    assert_eq!(
        LLMClassifier::<()>::token_context(false),
        Some("{\"label\": \"")
    );
}

#[test]
fn messages_hold_role_and_content() {
    let m = ChatMessage::new("user", "hi");
    assert_eq!((m.role.as_str(), m.content.as_str()), ("user", "hi"));
}
