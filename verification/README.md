# ollama_classifier_rs

A backend-agnostic text classifier that delegates inference to an LLM server
(Ollama, vLLM, SGLang, llama.cpp) and produces calibrated confidence scores. The
library is written in Verus: what it asks of a server, and what it concludes from
the replies, is stated in contracts and proved.

Two ways of scoring:

- `classify`: one call per label; the geometric-mean log probabilities of the
  labels are normalized with a stable softmax.
- `generate`: a first call is constrained to all labels, and each further call to
  one cluster of labels that are still scored on the same tokens. A cluster call
  only shares out anew what the cluster has. `max_calls` bounds the calls.

## Layout

| Path | Contents |
|------|----------|
| `src/label_map.rs` | map from text to value that keeps the order of insertion |
| `src/text.rs` | trimming, joining, decimal numbers |
| `src/scalar.rs` | doubles as bit patterns, with their order, and one over a count |
| `src/json.rs` | what is relied on of `serde_json` |
| `src/trie.rs` | trie of the token sequences of labels |
| `src/scoring.rs` | divergence, scored lengths, clusters, means, maxima and shares |
| `src/adaptive.rs` | the state of a `generate` run, call by call |
| `src/resolution.rs` | a run without clusters left has told all labels apart |
| `src/totals.rs` | the first call of a run locks the totals of its groups |
| `src/classifier.rs` | candidates along the winning path, predictions, results |
| `src/types.rs`, `src/prompts.rs` | results, choices, prompts, the label schema |
| `src/backends/` | requests and replies of the servers |
| `src/dataset.rs`, `src/dates.rs` | an evaluation dataset, its table, timestamps |
| `app/` | HTTP, threads, floating-point arithmetic, serialization |
| `tests/` | tests of the library |

Log probabilities and probabilities travel through the library as bit patterns
(`scalar::Scalar`); but for the uniform share, the arithmetic on them is done in
`app/`.

## Laws

Besides the contracts of the functions, the library states laws as public proof
functions whose names begin with `law_`. Among them:

- where the backend keeps to the labels it is offered, a run over `n` labels
  makes at most `n - 1` calls, for `n` of two or more, and at most `max_calls`,
  but always the first (`adaptive::law_run_is_bounded`);
- a cluster call changes what is known of that cluster only
  (`adaptive::law_cluster_call_is_local`);
- the first call locks the totals: whatever is asked later, a group of labels
  that it left together keeps its total to within the rounding of each call, and
  every other label keeps its probability (`totals::law_first_call_locks_totals`,
  `totals::law_clusters_nest`);
- labels of one token need one call (`adaptive::law_single_tokens_need_one_call`);
- a run that has no cluster left has told all labels apart
  (`resolution::law_ended_run_tells_labels_apart`);
- one call after the other and all calls at once give the same `classify` result
  (`classifier::law_multi_call_is_determined`);
- tokenization is memoized per label, and a failure is not remembered
  (`law_tokenization_is_memoized` in `backends::ollama` and
  `backends::openai_compat`);
- the constraint sent to a server admits exactly the labels, whatever characters
  they hold (`backends::openai_compat::law_label_regex_reads_back`,
  `law_label_grammar_reads_back`).
