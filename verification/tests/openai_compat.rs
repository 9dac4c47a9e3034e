use ollama_classifier_rs::backends::base::{
    build_headers, normalize_base_url, parse_chat_response, parse_token_logprob_array,
    render_prompt, ChatMessage, ScoreFailure, TokenCache, TokenLogprob, TokenizeStep,
};
use ollama_classifier_rs::backends::openai_compat::{
    echo_score, extract_completions_logprobs, filter_special_tokens, forced_score,
    forced_tokenize, grammar_escape, prompt_with_completion, regex_escape, server_url,
    token_count, tokenize_reply, BoundaryStrategy, Constraint, SPECIAL_TOKENS,
};
use ollama_classifier_rs::backends::{
    LlamaCppBackend, OllamaBackend, SGLangBackend, VLLMBackend,
};
use ollama_classifier_rs::scalar::Scalar;
use serde_json::Value;
use std::time::Duration;

fn value(x: Scalar) -> f64 {
    f64::from_bits(x.bits)
}

fn parse(s: &str) -> Value {
    serde_json::from_str(s).unwrap()
}

fn labels(v: &[&str]) -> Vec<String> {
    v.iter().map(|s| s.to_string()).collect()
}

fn entry(token: &str) -> TokenLogprob {
    TokenLogprob::new(token, Scalar { bits: (-1.0f64).to_bits() })
}

#[test]
fn test_vllm_chat_sends_structured_outputs_choice() {
    let backend = VLLMBackend::with_config("test-model", "http://127.0.0.1:9/v1");
    assert_eq!(
        backend.core.chat_url(),
        "http://127.0.0.1:9/v1/chat/completions"
    );
    let headers = build_headers(&backend.core.api_key);
    assert_eq!(headers.len(), 2);
    assert_eq!(
        headers[1],
        ("authorization".to_string(), "Bearer not-needed".to_string())
    );
    assert_eq!(
        headers[0],
        ("content-type".to_string(), "application/json".to_string())
    );
    let resp = parse_chat_response(&parse(
        r#"{"choices": [{"message": {"role": "assistant", "content": "positive"},
                         "logprobs": null}]}"#,
    ));
    assert_eq!(resp.label, "positive");
    assert!(resp.logprobs.is_none());
    assert!(backend.supports_bare_label_constraint());
}

#[test]
fn test_vllm_chat_body_has_structured_outputs_choice_field() {
    let backend = VLLMBackend::with_config("test-model", "http://127.0.0.1:9/v1");
    let messages = vec![ChatMessage::new("user", "hi")];
    let body = backend.core.chat_body(
        &messages,
        Value::from(0.0),
        Some(&labels(&["positive", "negative"])),
        false,
        0,
    );
    assert_eq!(
        body,
        parse(
            r#"{"model": "test-model",
                "messages": [{"role": "user", "content": "hi"}],
                "temperature": 0.0,
                "max_tokens": 256,
                "logprobs": false,
                "structured_outputs": {"choice": ["positive", "negative"]}}"#
        )
    );
}

#[test]
fn test_sglang_chat_body_has_regex_field() {
    let backend = SGLangBackend::with_config("test-model", "http://127.0.0.1:9/v1");
    let messages = vec![ChatMessage::new("user", "hi")];
    let body = backend.core.chat_body(
        &messages,
        Value::from(0.0),
        Some(&labels(&["positive", "negative"])),
        false,
        0,
    );
    assert_eq!(body["regex"], "(positive|negative)");
}

#[test]
fn test_llamacpp_chat_body_has_grammar_field() {
    let backend = LlamaCppBackend::with_config("test-model", "http://127.0.0.1:9/v1");
    let messages = vec![ChatMessage::new("user", "hi")];
    let body = backend.core.chat_body(
        &messages,
        Value::from(0.0),
        Some(&labels(&["positive", "negative"])),
        false,
        0,
    );
    assert_eq!(body["grammar"], "root ::= \"positive\" | \"negative\"");
}

#[test]
fn test_chat_response_parses_logprobs_and_flattens_top() {
    let resp = parse_chat_response(&parse(
        r#"{"choices": [{
            "message": {"content": "cat"},
            "logprobs": {"content": [{
                "token": "cat", "logprob": -0.1,
                "top_logprobs": [{"token": "cat", "logprob": -0.1},
                                 {"token": "dog", "logprob": -2.5}]}]}}]}"#,
    ));
    let lps = resp.logprobs.expect("logprobs should be present");
    assert_eq!(lps.len(), 1);
    assert_eq!(lps[0].token, "cat");
    assert!((value(lps[0].logprob) - (-0.1)).abs() < 1e-9);
    assert_eq!(lps[0].top_logprobs.len(), 2);
    assert!((value(*lps[0].top_logprobs.get("dog").unwrap()) - (-2.5)).abs() < 1e-9);
}

#[test]
fn test_base_url_trailing_slash_stripped() {
    let backend = VLLMBackend::builder("m", "http://localhost:8000/v1///").build();
    assert_eq!(backend.base_url(), "http://localhost:8000/v1");
}

#[test]
fn test_builder_accepts_timeout() {
    let backend = VLLMBackend::builder("m", "http://localhost:8000/v1")
        .timeout(Duration::from_secs(30))
        .max_tokens(64)
        .api_key("key")
        .build();
    assert_eq!(backend.core.timeout, Duration::from_secs(30));
    assert_eq!(backend.core.max_tokens, 64);
    assert_eq!(backend.core.api_key, "key");

    let ollama = OllamaBackend::builder("m", "http://localhost:11434")
        .timeout(Duration::from_secs(10))
        .max_tokens(32)
        .build();
    assert_eq!(ollama.timeout, Duration::from_secs(10));
    assert_eq!(ollama.max_tokens, 32);
}

#[test]
fn defaults_of_the_backends() {
    let vllm = VLLMBackend::new("m");
    assert_eq!(vllm.base_url(), "http://localhost:8000/v1");
    assert_eq!(vllm.model(), "m");
    assert_eq!(vllm.core.timeout, Duration::from_secs(120));
    assert_eq!(vllm.core.max_tokens, 256);
    assert_eq!(vllm.core.api_key, "not-needed");
    assert_eq!(vllm.core.constraint, Constraint::StructuredOutputsChoice);
    assert!(vllm.core.boundary.uses_echo());
    let sglang = SGLangBackend::new("m");
    assert_eq!(sglang.base_url(), "http://localhost:30000/v1");
    assert_eq!(sglang.core.constraint, Constraint::Regex);
    assert_eq!(sglang.core.boundary, BoundaryStrategy::Count);
    assert!(sglang.core.boundary.uses_echo());
    let llama = LlamaCppBackend::new("m");
    assert_eq!(llama.base_url(), "http://localhost:8080/v1");
    assert_eq!(llama.core.constraint, Constraint::Grammar);
    assert!(!llama.core.boundary.uses_echo());
}

#[test]
fn urls_lose_trailing_slashes() {
    assert_eq!(normalize_base_url("http://a//"), "http://a");
    assert_eq!(normalize_base_url("///"), "");
    assert_eq!(normalize_base_url("http://a"), "http://a");
    assert_eq!(
        normalize_base_url(&normalize_base_url("http://a//")),
        "http://a"
    );
    assert_eq!(server_url("http://a/v1/"), "http://a");
    assert_eq!(server_url("http://a/v1"), "http://a");
    assert_eq!(server_url("http://a/v2"), "http://a/v2");
    assert_eq!(server_url("v1"), "v1");
    assert_eq!(server_url("/v1"), "");
    let vllm = VLLMBackend::with_config("m", "http://a/v1/");
    assert_eq!(vllm.core.tokenize_url(), "http://a/tokenize");
    assert_eq!(vllm.core.completions_url(), "http://a/v1/completions");
}

#[test]
fn prompt_is_rendered_flat() {
    let messages = vec![
        ChatMessage::new("system", "be brief"),
        ChatMessage::new("user", "hi"),
    ];
    let prompt = "<|system|>\nbe brief\n\n<|user|>\nhi\n\n<|assistant|>\n";
    assert_eq!(render_prompt(&messages), prompt);
    assert_eq!(render_prompt(&[]), "<|assistant|>\n");
    assert_eq!(
        prompt_with_completion(&messages, "cat"),
        format!("{prompt}cat")
    );
}

#[test]
fn escapes_make_labels_literal() {
    assert_eq!(regex_escape("a.b|c"), "a\\.b\\|c");
    assert_eq!(regex_escape("(x)/[y]{z}"), "\\(x\\)\\/\\[y\\]\\{z\\}");
    assert_eq!(regex_escape("^$*+?\\"), "\\^\\$\\*\\+\\?\\\\");
    assert_eq!(regex_escape("plain-1"), "plain-1");
    assert_eq!(grammar_escape("say \"hi\" \\o/"), "say \\\"hi\\\" \\\\o/");
    let s = "a\\\"b";
    assert_eq!(
        grammar_escape(s),
        s.replace('\\', "\\\\").replace('"', "\\\"")
    );
}

#[test]
fn constraints_quote_their_labels() {
    let mut body = parse("{}");
    Constraint::Regex.apply(&mut body, &labels(&["c++", "a|b"]));
    assert_eq!(body["regex"], "(c\\+\\+|a\\|b)");
    Constraint::Grammar.apply(&mut body, &labels(&["\"x\""]));
    assert_eq!(body["grammar"], "root ::= \"\\\"x\\\"\"");
    let mut body = Value::Null;
    Constraint::StructuredOutputsChoice.apply(&mut body, &labels(&["a"]));
    assert_eq!(body, parse(r#"{"structured_outputs": {"choice": ["a"]}}"#));
    Constraint::Regex.apply(&mut body, &[]);
    assert_eq!(body["regex"], "()");
}

#[test]
fn chat_body_asks_for_candidates() {
    let backend = VLLMBackend::builder("m", "u")
        .extra_body("top_p", Value::from(0.5))
        .extra_body("max_tokens", Value::from(9))
        .build();
    let body = backend
        .core
        .chat_body(&[], Value::from(0.25), None, true, 7);
    assert_eq!(
        body,
        parse(
            r#"{"model": "m", "messages": [], "temperature": 0.25, "max_tokens": 9,
                "logprobs": true, "top_logprobs": 7, "top_p": 0.5}"#
        )
    );
}

#[test]
fn constraint_is_sent_over_extra_members() {
    let backend = SGLangBackend::builder("m", "u")
        .extra_body("regex", Value::from(".*"))
        .build();
    let body = backend
        .core
        .chat_body(&[], Value::from(0.0), Some(&labels(&["a"])), false, 0);
    assert_eq!(body["regex"], "(a)");
    let body = backend.core.chat_body(&[], Value::from(0.0), None, false, 0);
    assert_eq!(body["regex"], ".*");
}

#[test]
fn forced_requests_leave_one_label() {
    let backend = LlamaCppBackend::new("m");
    let body = backend.core.forced_body(&[ChatMessage::new("user", "q")], "yes");
    assert_eq!(
        body,
        parse(
            r#"{"model": "m", "messages": [{"role": "user", "content": "q"}],
                "temperature": 0.0, "max_tokens": 256, "logprobs": true, "top_logprobs": 1,
                "grammar": "root ::= \"yes\""}"#
        )
    );
    assert_eq!(body["temperature"].to_string(), "0.0");
    let body = backend.core.forced_tokenize_body("yes");
    assert_eq!(body["messages"], parse(r#"[{"role": "user", "content": "yes"}]"#));
    assert_eq!(body["grammar"], "root ::= \"yes\"");
}

#[test]
fn echo_requests_ask_for_prompt_logprobs() {
    let backend = VLLMBackend::new("m");
    assert_eq!(
        backend.core.echo_body("p c"),
        parse(
            r#"{"model": "m", "prompt": "p c", "echo": true, "max_tokens": 1,
                "temperature": 0.0, "logprobs": 1}"#
        )
    );
    assert_eq!(
        backend.core.tokenize_body("p"),
        parse(r#"{"model": "m", "prompt": "p"}"#)
    );
}

#[test]
fn special_tokens_are_filtered() {
    let all: Vec<TokenLogprob> = [
        "cat",
        "<|im_end|>",
        " ",
        "",
        "<|endoftext|>",
        "</s>",
        " dog",
        "<|end_of_turn|>",
        "<|eot_id|>",
        "<|end|>",
        "<|eom_id|>",
        " </s>",
    ]
    .iter()
    .map(|t| entry(t))
    .collect();
    let kept = filter_special_tokens(&all);
    assert_eq!(filter_special_tokens(&kept).len(), kept.len());
    let kept: Vec<String> = kept
        .into_iter()
        .map(|t| t.token)
        .collect();
    assert_eq!(kept, vec!["cat", " dog", " </s>"]);
}

#[test]
fn chat_reply_label_is_trimmed() {
    let resp = parse_chat_response(&parse(
        r#"{"choices": [{"message": {"content": " cat\n"}, "logprobs": {"content": null}}]}"#,
    ));
    assert_eq!(resp.content, " cat\n");
    assert_eq!(resp.label, "cat");
    assert_eq!(resp.logprobs.unwrap().len(), 0);
    let resp = parse_chat_response(&parse(r#"{"choices": []}"#));
    assert_eq!(resp.content, "");
    assert!(resp.logprobs.is_none());
    assert_eq!(resp.raw, parse(r#"{"choices": []}"#));
}

#[test]
fn positions_without_id_have_none() {
    let lps = parse_token_logprob_array(&parse(
        r#"[{"token": "a", "logprob": -1, "bytes": [97]}, {}]"#,
    ));
    assert_eq!(lps.len(), 2);
    assert_eq!(lps[0].token_id, -1);
    assert_eq!(value(lps[0].logprob), -1.0);
    assert_eq!(lps[1].token, "");
    assert!(parse_token_logprob_array(&parse("{}")).is_empty());
}

#[test]
fn completions_are_read_in_every_shape() {
    let flat = extract_completions_logprobs(&parse(
        r#"{"choices": [{"logprobs": {
            "tokens": ["a", "b", 3],
            "token_logprobs": [null, -0.5],
            "token_ids": [11, 12],
            "top_logprobs": [null, [{"token": "b", "logprob": -0.5}]]}}]}"#,
    ));
    assert_eq!(flat.len(), 3);
    assert_eq!(flat[0].token, "a");
    assert_eq!(value(flat[0].logprob), 0.0);
    assert_eq!(flat[0].token_id, 11);
    assert_eq!(value(flat[1].logprob), -0.5);
    assert_eq!(flat[1].top_logprobs.len(), 1);
    assert_eq!(flat[2].token, "");
    assert_eq!(flat[2].token_id, -1);
    let nested = extract_completions_logprobs(&parse(
        r#"{"choices": [{"logprobs": {"content": [{"token": "x", "logprob": -1}]}}]}"#,
    ));
    assert_eq!(nested[0].token, "x");
    let bare = extract_completions_logprobs(&parse(
        r#"{"choices": [{"logprobs": [{"token": "y", "logprob": -1}]}]}"#,
    ));
    assert_eq!(bare[0].token, "y");
    for none in [
        "{}",
        r#"{"choices": [{}]}"#,
        r#"{"choices": [{"logprobs": null}]}"#,
    ] {
        assert!(extract_completions_logprobs(&parse(none)).is_empty());
    }
}

fn echoed() -> Value {
    parse(
        r#"{"choices": [{"logprobs": {
            "tokens": ["p", "q", "c", "d", "x"],
            "token_logprobs": [null, -1.0, -0.25, -0.5, -3.0]}}]}"#,
    )
}

#[test]
fn echo_scores_the_completion_alone() {
    let tokens = |p: usize, t: usize| -> Vec<String> {
        echo_score("cd", echoed(), p, t)
            .unwrap()
            .logprobs
            .into_iter()
            .map(|x| x.token)
            .collect()
    };
    assert_eq!(tokens(2, 4), vec!["c", "d"]);
    assert_eq!(tokens(2, 9), vec!["c", "d", "x"]);
    assert_eq!(tokens(3, 3), vec!["d", "x"]);
    let scored = echo_score("cd", echoed(), 2, 4).unwrap();
    assert_eq!(scored.completion, "cd");
    assert_eq!(value(scored.logprobs[0].logprob), -0.25);
    assert_eq!(scored.raw, echoed());
    assert_eq!(
        echo_score("cd", echoed(), 5, 7).unwrap_err(),
        ScoreFailure::NoLabelTokens
    );
}

#[test]
fn forced_replies_are_scored_and_tokenized() {
    let reply = r#"{"choices": [{"message": {"content": "cat"}, "logprobs": {"content": [
        {"token": "ca", "logprob": -0.5}, {"token": "t", "logprob": -0.25},
        {"token": "</s>", "logprob": 0}]}}]}"#;
    let scored = forced_score("cat", parse_chat_response(&parse(reply))).unwrap();
    assert_eq!(scored.logprobs.len(), 2);
    assert_eq!(scored.raw, parse(reply));
    let tokens = forced_tokenize("cat", &parse_chat_response(&parse(reply)));
    assert_eq!(tokens[0].text, "ca");
    assert_eq!(tokens[1].text, "t");
    let empty = parse_chat_response(&parse("{}"));
    assert_eq!(forced_tokenize("cat", &empty)[0].text, "cat");
    assert_eq!(
        forced_score("cat", empty).unwrap_err(),
        ScoreFailure::NoValueTokens
    );
}

#[test]
fn token_counts_are_read() {
    assert_eq!(token_count(&parse(r#"{"tokens": [1, 2, 3]}"#)), 3);
    assert_eq!(token_count(&parse(r#"{"count": 3}"#)), 0);
}

#[test]
fn tokenization_is_memoized_per_label() {
    let core = VLLMBackend::new("m").core;
    let mut cache = TokenCache::new();
    match core.tokenize_step(&cache, "cat", None) {
        TokenizeStep::Ask(body) => assert_eq!(body, core.forced_tokenize_body("cat")),
        TokenizeStep::Known(_) => panic!("nothing is known yet"),
    }
    assert!(tokenize_reply(&mut cache, "cat", None).is_none());
    assert!(matches!(
        core.tokenize_step(&cache, "cat", None),
        TokenizeStep::Ask(_)
    ));
    let empty = parse_chat_response(&parse("{}"));
    let tokens = tokenize_reply(&mut cache, "cat", Some(&empty)).unwrap();
    assert_eq!(tokens.len(), 1);
    match core.tokenize_step(&cache, "cat", Some("context")) {
        TokenizeStep::Known(v) => {
            assert_eq!(v.len(), 1);
            assert_eq!(v[0].text, "cat");
            assert_eq!(v[0].id, -1);
        }
        TokenizeStep::Ask(_) => panic!("the tokens are known"),
    }
}

#[test]
fn special_tokens_are_no_part_of_a_label() {
    assert_eq!(SPECIAL_TOKENS.len(), 7);
    assert!(SPECIAL_TOKENS.contains(&"</s>"));
    assert!(SPECIAL_TOKENS.contains(&"<|eom_id|>"));
    for token in SPECIAL_TOKENS {
        assert!(filter_special_tokens(&[entry(token)]).is_empty(), "{token}");
        assert_eq!(filter_special_tokens(&[entry(&format!("{token}x"))]).len(), 1);
    }
}
