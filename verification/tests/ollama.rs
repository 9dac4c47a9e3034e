use ollama_classifier_rs::backends::base::{
    ChatMessage, ChatResponse, ScoreFailure, TokenCache, TokenLogprob, TokenizeStep,
};
use ollama_classifier_rs::backends::ollama::{
    extract_label, forced_score, forced_tokenize, label_from_parsed, label_token_logprobs,
    parse_chat_response, tokenize_reply, OllamaBackend, DEFAULT_HOST, JSON_LABEL_CONTEXT,
};
use ollama_classifier_rs::scalar::Scalar;
use serde_json::Value;
use std::time::Duration;

fn entry(token: &str, logprob: f64) -> TokenLogprob {
    TokenLogprob::new(token, Scalar { bits: logprob.to_bits() })
}

fn value(x: Scalar) -> f64 {
    f64::from_bits(x.bits)
}

fn parse(s: &str) -> Value {
    serde_json::from_str(s).unwrap()
}

fn labels(v: &[&str]) -> Vec<String> {
    v.iter().map(|s| s.to_string()).collect()
}

#[test]
fn test_label_token_logprobs_single_token() {
    let logprobs = vec![
        entry("{", -17.726),
        entry(" \"", -13.196),
        entry("label", 0.0),
        entry("\":", 0.0),
        entry(" \"", 0.0),
        entry("sports", -1.288),
        entry("\"", -0.001),
        entry(" }", 0.0),
    ];
    let out = label_token_logprobs(&logprobs, "sports");
    assert_eq!(out.len(), 1);
    assert_eq!(out[0].token, "sports");
    assert!((value(out[0].logprob) - (-1.288)).abs() < 1e-9);
}

#[test]
fn test_label_token_logprobs_multi_token() {
    let logprobs = vec![
        entry("{\"label\": \"", -10.0),
        entry("tech", -0.5),
        entry(" support", -0.7),
        entry("\" }", 0.0),
    ];
    let out = label_token_logprobs(&logprobs, "tech support");
    assert_eq!(out.len(), 2);
    assert_eq!(out[0].token, "tech");
    assert_eq!(out[1].token, " support");
}

#[test]
fn test_label_token_logprobs_compact_json() {
    let logprobs = vec![
        entry("{\"label\":\"", -10.0),
        entry("sports", -1.288),
        entry("\"}", 0.0),
    ];
    let out = label_token_logprobs(&logprobs, "sports");
    assert_eq!(out.len(), 1);
    assert_eq!(out[0].token, "sports");
}

#[test]
fn test_label_token_logprobs_fallback() {
    let logprobs = vec![
        entry("{", -10.0),
        entry(" \"", -10.0),
        entry("label", 0.0),
        entry("\":", 0.0),
        entry(" \"", 0.0),
        entry("sports", -1.288),
        entry("\"", 0.0),
        entry("}", 0.0),
    ];
    let out = label_token_logprobs(&logprobs, "missing");
    assert_eq!(out.len(), 1);
    assert_eq!(out[0].token, "sports");
}

#[test]
fn test_label_token_logprobs_empty() {
    let out = label_token_logprobs(&[], "sports");
    assert!(out.is_empty());
}

#[test]
fn tokens_that_straddle_the_label_are_taken_whole() {
    let logprobs = vec![
        entry("{\"label\":", -1.0),
        entry(" \"café", -0.25),
        entry(" noir\"}", -0.5),
    ];
    let out = label_token_logprobs(&logprobs, "café noir");
    assert_eq!(out.len(), 2);
    assert_eq!(out[0].token, " \"café");
    assert_eq!(out[1].token, " noir\"}");
}

#[test]
fn key_is_not_taken_for_the_label() {
    let logprobs = vec![
        entry("{\"", 0.0),
        entry("label", 0.0),
        entry("\": \"", 0.0),
        entry("label", -0.5),
        entry("\"}", 0.0),
    ];
    let out = label_token_logprobs(&logprobs, "label");
    assert_eq!(out.len(), 1);
    assert_eq!(value(out[0].logprob), -0.5);
}

#[test]
fn test_ollama_chat_sends_json_schema_format() {
    let backend = OllamaBackend::with_config("llama3.2", "http://127.0.0.1:9/");
    let messages = vec![ChatMessage::new("user", "hello")];
    let body = backend.chat_body(
        &messages,
        Value::from(0.0),
        Some(&labels(&["positive", "negative"])),
        false,
        0,
    );
    assert_eq!(
        body["format"],
        parse(
            r#"{"type": "object",
                "properties": {"label": {"type": "string", "enum": ["positive", "negative"]}},
                "required": ["label"]}"#
        )
    );
    assert_eq!(body["model"], "llama3.2");
    assert_eq!(body["stream"], false);
    assert_eq!(body["messages"], parse(r#"[{"role": "user", "content": "hello"}]"#));
    assert_eq!(body["options"], parse(r#"{"temperature": 0.0, "num_predict": 256}"#));
    assert!(body.get("logprobs").is_none());
    assert_eq!(backend.chat_url(), "http://127.0.0.1:9/api/chat");

    let resp = parse_chat_response(parse(
        r#"{"message": {"role": "assistant", "content": "{\"label\": \"positive\"}"},
            "logprobs": null}"#,
    ));
    assert_eq!(resp.label, "positive");
    assert_eq!(resp.content, "{\"label\": \"positive\"}");
    assert!(resp.logprobs.is_none());
    assert!(!backend.supports_bare_label_constraint());
}

fn forced_reply(label: &str, first: &str, second: &str) -> ChatResponse {
    let content = format!("{{\"label\": \"{label}\"}}");
    let mut data = parse(
        r#"{"message": {"role": "assistant", "content": ""},
            "logprobs": [
                {"token": "{\"label\": \"", "logprob": -10.0},
                {"token": "", "logprob": -0.5},
                {"token": "", "logprob": -0.3},
                {"token": "\"}", "logprob": -0.0}
            ]}"#,
    );
    data["message"]["content"] = Value::from(content);
    data["logprobs"][1]["token"] = Value::from(first);
    data["logprobs"][2]["token"] = Value::from(second);
    parse_chat_response(data)
}

#[test]
fn test_ollama_score_uses_forced_constrained_chat() {
    let backend = OllamaBackend::with_config("llama3.2", "http://127.0.0.1:9");
    let messages = vec![ChatMessage::new("user", "text")];
    let body = backend.forced_body(&messages, "positive");
    assert_eq!(
        body["format"],
        parse(
            r#"{"type": "object",
                "properties": {"label": {"type": "string", "enum": ["positive"]}},
                "required": ["label"]}"#
        )
    );
    assert_eq!(body["logprobs"], 1);

    let resp = forced_score("positive", forced_reply("positive", "pos", "itive")).unwrap();
    assert_eq!(resp.completion, "positive");
    assert_eq!(resp.logprobs.len(), 2);
    assert_eq!(resp.logprobs[0].token, "pos");
    assert!((value(resp.logprobs[0].logprob) - (-0.5)).abs() < 1e-9);
}

#[test]
fn test_ollama_tokenize_uses_forced_constrained_chat() {
    let backend = OllamaBackend::with_config("llama3.2", "http://127.0.0.1:9");
    let body = backend.forced_tokenize_body("hello");
    assert_eq!(
        body["format"],
        parse(
            r#"{"type": "object",
                "properties": {"label": {"type": "string", "enum": ["hello"]}},
                "required": ["label"]}"#
        )
    );
    assert_eq!(body["logprobs"], 1);
    assert_eq!(body["messages"], parse(r#"[{"role": "user", "content": "hello"}]"#));

    let tokens = forced_tokenize("hello", &forced_reply("hello", "he", "llo"));
    assert_eq!(tokens.len(), 2);
    assert_eq!(tokens[0].text, "he");
    assert_eq!(tokens[1].text, "llo");
    assert_eq!(tokens[0].id, -1);
}

#[test]
fn scoring_without_value_tokens_fails() {
    let resp = parse_chat_response(parse(r#"{"message": {"content": "x"}}"#));
    assert_eq!(
        forced_score("positive", resp).unwrap_err(),
        ScoreFailure::NoValueTokens
    );
}

#[test]
fn tokenizing_without_reply_gives_the_text() {
    let resp = parse_chat_response(parse(r#"{"message": {"content": "x"}}"#));
    let tokens = forced_tokenize("hello world", &resp);
    assert_eq!(tokens.len(), 1);
    assert_eq!(tokens[0].text, "hello world");
    assert_eq!(tokens[0].id, -1);
}

#[test]
fn label_is_read_from_json_or_trimmed() {
    assert_eq!(extract_label("{\"label\": \"a b\"}"), "a b");
    assert_eq!(extract_label("  plain \n"), "plain");
    assert_eq!(extract_label("{\"other\": 1} "), "{\"other\": 1}");
    assert_eq!(extract_label("{\"label\": 3}"), "{\"label\": 3}");
    assert_eq!(label_from_parsed(None, " x "), "x");
    let parsed = parse(r#"{"label": "y"}"#);
    assert_eq!(label_from_parsed(Some(&parsed), " x "), "y");
}

#[test]
fn reply_reports_candidates() {
    let resp = parse_chat_response(parse(
        r#"{"message": {"content": "x"},
            "logprobs": [{"token": "x", "logprob": -0.25,
                          "top_logprobs": [{"token": "x", "logprob": -0.25},
                                           {"token": "y", "logprob": -2},
                                           {"token": 7, "logprob": -1},
                                           {"token": "x", "logprob": -0.125}]},
                         {"logprob": "bad"}]}"#,
    ));
    let lps = resp.logprobs.unwrap();
    assert_eq!(lps.len(), 2);
    assert_eq!(lps[0].token_id, -1);
    assert_eq!(lps[0].top_logprobs.len(), 2);
    assert_eq!(lps[0].top_logprobs.get("y").map(|x| value(*x)), Some(-2.0));
    assert_eq!(lps[0].top_logprobs.get("x").map(|x| value(*x)), Some(-0.125));
    assert_eq!(lps[1].token, "");
    assert_eq!(value(lps[1].logprob), 0.0);
}

#[test]
fn extra_members_are_set_last() {
    let backend = OllamaBackend::builder("m", "http://h//")
        .extra_body("stream", Value::from(true))
        .extra_body("keep_alive", Value::from("5m"))
        .max_tokens(32)
        .timeout(Duration::from_secs(10))
        .build();
    let body = backend.chat_body(&[], Value::from(0.5), None, true, 3);
    assert_eq!(body["stream"], true);
    assert_eq!(body["keep_alive"], "5m");
    assert_eq!(body["logprobs"], 3);
    assert_eq!(body["options"], parse(r#"{"temperature": 0.5, "num_predict": 32}"#));
    assert!(body.get("format").is_none());
    assert_eq!(backend.base_url(), "http://h");
    assert_eq!(backend.timeout, Duration::from_secs(10));
}

#[test]
fn defaults_of_the_backend() {
    let backend = OllamaBackend::new("llama3.2");
    assert_eq!(backend.model(), "llama3.2");
    assert_eq!(backend.base_url(), DEFAULT_HOST);
    assert_eq!(backend.base_url(), "http://localhost:11434");
    assert_eq!(backend.timeout, Duration::from_secs(120));
    assert_eq!(backend.max_tokens, 256);
    assert_eq!(JSON_LABEL_CONTEXT, "{\"label\": \"");
}

#[test]
fn tokens_are_remembered_per_label() {
    let mut cache = TokenCache::new();
    assert!(cache.get("hello").is_none());
    let tokens = forced_tokenize("hello", &forced_reply("hello", "he", "llo"));
    cache.store("hello", &tokens);
    let again = cache.get("hello").unwrap();
    assert_eq!(again.len(), 2);
    assert_eq!(again[1].text, "llo");
    assert!(cache.get("other").is_none());
}

#[test]
fn tokenization_asks_once_per_label() {
    let backend = OllamaBackend::new("m");
    let mut cache = TokenCache::new();
    match backend.tokenize_step(&cache, "hello", Some(JSON_LABEL_CONTEXT)) {
        TokenizeStep::Ask(body) => assert_eq!(body, backend.forced_tokenize_body("hello")),
        TokenizeStep::Known(_) => panic!("nothing is known yet"),
    }
    assert!(tokenize_reply(&mut cache, "hello", None).is_none());
    assert!(matches!(
        backend.tokenize_step(&cache, "hello", None),
        TokenizeStep::Ask(_)
    ));
    let first =
        tokenize_reply(&mut cache, "hello", Some(&forced_reply("hello", "he", "llo"))).unwrap();
    assert_eq!(first.len(), 2);
    assert_eq!(first[0].text, "he");
    assert!(tokenize_reply(&mut cache, "other", None).is_none());
    for context in [None, Some(JSON_LABEL_CONTEXT), Some("else")] {
        match backend.tokenize_step(&cache, "hello", context) {
            TokenizeStep::Known(v) => {
                assert_eq!(v.len(), 2);
                assert_eq!(v[0].text, "he");
                assert_eq!(v[1].text, "llo");
                assert_eq!(v[1].id, -1);
            }
            TokenizeStep::Ask(_) => panic!("the tokens are known"),
        }
    }
    assert!(matches!(
        backend.tokenize_step(&cache, "other", None),
        TokenizeStep::Ask(_)
    ));
}
