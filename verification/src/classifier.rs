//! Backend-agnostic classification with hierarchical constrained scoring.

use crate::backends::base;
use crate::backends::base::{ChatMessage, ScoringResponse, Token, TokenLogprob};
use crate::backends::ollama;
use crate::label_map;
use crate::label_map::LabelMap;
use crate::scalar::Scalar;
use crate::scoring;
use crate::text;
use crate::trie;
use crate::trie::{LabelTrie, TrieNode};
use crate::types::{ClassificationResult, Coverage, RawResponse};
use vstd::prelude::*;

verus! {

broadcast use LabelMap::lemma_keys;

// ---------------------------------------------------------------------------
// Candidates along the winning path
// ---------------------------------------------------------------------------

/// The path of known tokens that the emitted tokens follow. A token that does
/// not lead on is passed over.
pub open spec fn followed(paths: Set<Seq<Seq<char>>>, emitted: Seq<base::TokenLogprobView>) -> Seq<
    Seq<char>,
>
    decreases emitted.len(),
{
    if emitted.len() == 0 {
        Seq::empty()
    } else {
        let before = followed(paths, emitted.drop_last());
        let longer = before.push(emitted.last().token);
        if paths.contains(longer) {
            longer
        } else {
            before
        }
    }
}

/// The candidates at one position that lead on from `path`: those reported,
/// and the emitted token itself.
pub open spec fn step_candidates(
    paths: Set<Seq<Seq<char>>>,
    path: Seq<Seq<char>>,
    t: base::TokenLogprobView,
) -> Map<Seq<char>, Scalar> {
    Map::new(
        |token: Seq<char>|
            paths.contains(path.push(token)) && (t.top_logprobs.contains_key(token) || token
                == t.token),
        |token: Seq<char>|
            if t.top_logprobs.contains_key(token) {
                t.top_logprobs[token]
            } else {
                t.logprob
            },
    )
}

/// Per position, the candidates that lead on from the path followed so far.
pub open spec fn step_maps(
    paths: Set<Seq<Seq<char>>>,
    emitted: Seq<base::TokenLogprobView>,
) -> Seq<Map<Seq<char>, Scalar>> {
    Seq::new(
        emitted.len(),
        |i: int| step_candidates(paths, followed(paths, emitted.take(i)), emitted[i]),
    )
}

/// The path followed starts empty, and an emitted token is added to it exactly
/// where the longer path is one of the known ones.
pub proof fn law_path_grows_by_known_tokens(
    paths: Set<Seq<Seq<char>>>,
    emitted: Seq<base::TokenLogprobView>,
    i: int,
)
    requires
        0 <= i < emitted.len(),
    ensures
        followed(paths, emitted.take(0)).len() == 0,
        ({
            let before = followed(paths, emitted.take(i));
            let after = followed(paths, emitted.take(i + 1));
            &&& paths.contains(before.push(emitted[i].token)) ==> after == before.push(
                emitted[i].token,
            )
            &&& !paths.contains(before.push(emitted[i].token)) ==> after == before
        }),
{
    assert(emitted.take(i + 1).drop_last() =~= emitted.take(i));
}

/// Every beginning of the path followed is a known path, and where the emitted
/// tokens spell a known path, each of its beginnings being known, it is the
/// path followed.
pub proof fn law_known_path_is_followed(
    paths: Set<Seq<Seq<char>>>,
    emitted: Seq<base::TokenLogprobView>,
    path: Seq<Seq<char>>,
)
    ensures
        forall|n: int|
            0 < n <= followed(paths, emitted).len() ==> paths.contains(
                #[trigger] followed(paths, emitted).take(n),
            ),
        followed(paths, emitted).len() <= emitted.len(),
        path.len() == emitted.len() && (forall|i: int|
            0 <= i < path.len() ==> #[trigger] path[i] == emitted[i].token) && (forall|n: int|
            0 < n <= path.len() ==> paths.contains(#[trigger] path.take(n))) ==> followed(
            paths,
            emitted,
        ) == path,
    decreases emitted.len(),
{
    let whole = followed(paths, emitted);
    if emitted.len() > 0 {
        let rest = emitted.drop_last();
        let before = followed(paths, rest);
        let shorter = if path.len() > 0 {
            path.drop_last()
        } else {
            path
        };
        law_known_path_is_followed(paths, rest, shorter);
        assert forall|n: int| 0 < n <= whole.len() implies paths.contains(
            #[trigger] whole.take(n),
        ) by {
            if n <= before.len() {
                assert(whole.take(n) =~= before.take(n));
            } else {
                assert(whole.take(n) =~= whole);
            }
        }
        if path.len() == emitted.len() && (forall|i: int|
            0 <= i < path.len() ==> #[trigger] path[i] == emitted[i].token) && (forall|n: int|
            0 < n <= path.len() ==> paths.contains(#[trigger] path.take(n))) {
            assert forall|i: int| 0 <= i < shorter.len() implies #[trigger] shorter[i]
                == rest[i].token by {
                assert(path[i] == emitted[i].token);
            }
            assert forall|n: int| 0 < n <= shorter.len() implies paths.contains(
                #[trigger] shorter.take(n),
            ) by {
                assert(shorter.take(n) =~= path.take(n));
            }
            assert(path.take(path.len() as int) =~= path);
            assert(path[path.len() - 1] == emitted[path.len() - 1].token);
            assert(shorter.push(emitted.last().token) =~= path);
        }
    } else {
        assert(path.len() == 0 ==> whole =~= path);
    }
}

/// At each position the candidates are the tokens that lead on from the path
/// followed so far and are reported there, with the log probability reported;
/// the emitted token is a candidate too, with its own log probability where no
/// other is reported for it. Nothing else is a candidate.
pub proof fn law_candidates_are_reported(
    paths: Set<Seq<Seq<char>>>,
    emitted: Seq<base::TokenLogprobView>,
    i: int,
    token: Seq<char>,
)
    requires
        0 <= i < emitted.len(),
    ensures
        step_maps(paths, emitted).len() == emitted.len(),
        ({
            let found = step_maps(paths, emitted)[i];
            let leads_on = paths.contains(followed(paths, emitted.take(i)).push(token));
            &&& leads_on && emitted[i].top_logprobs.contains_key(token) ==> found.contains_key(
                token,
            ) && found[token] == emitted[i].top_logprobs[token]
            &&& leads_on && !emitted[i].top_logprobs.contains_key(token) && token
                == emitted[i].token ==> found.contains_key(token) && found[token]
                == emitted[i].logprob
            &&& !leads_on ==> !found.contains_key(token)
            &&& !emitted[i].top_logprobs.contains_key(token) && token != emitted[i].token
                ==> !found.contains_key(token)
        }),
{
}

/// The candidates at one position, with the node that the path has reached.
fn step_candidates_at(node: &TrieNode, t: &TokenLogprob) -> (r: LabelMap<Scalar>)
    requires
        node.wf(),
    ensures
        forall|token: Seq<char>| #[trigger]
            r@.contains_key(token) <==> node.child(token) is Some && (
            t@.top_logprobs.contains_key(token) || token == t@.token),
        forall|token: Seq<char>| #[trigger]
            r@.contains_key(token) ==> r@[token] == if t@.top_logprobs.contains_key(token) {
                t@.top_logprobs[token]
            } else {
                t@.logprob
            },
{
    let mut r: LabelMap<Scalar> = LabelMap::new();
    let n: usize = t.top_logprobs.len();
    let ghost keys = t.top_logprobs.keys();
    for i in 0..n
        invariant
            n == keys.len(),
            keys == t.top_logprobs.keys(),
            node.wf(),
            forall|token: Seq<char>| #[trigger]
                r@.contains_key(token) <==> node.child(token) is Some && keys.take(
                    i as int,
                ).contains(token),
            forall|token: Seq<char>| #[trigger]
                r@.contains_key(token) ==> r@[token] == t.top_logprobs@[token],
    {
        let token = t.top_logprobs.key_at(i);
        let ghost seen = keys.take(i as int);
        let ghost next = keys.take(i + 1);
        proof {
            assert(next =~= seen.push(token@));
            assert forall|u: Seq<char>| next.contains(u) <==> seen.contains(u) || u == token@ by {
                crate::label_map::lemma_distinct_push(seen, token@);
            }
        }
        if node.get_child(token).is_some() {
            r.insert(token.clone(), *t.top_logprobs.value_at(i));
        }
    }
    assert(keys.take(n as int) =~= keys);
    if node.get_child(&t.token).is_some() && !r.contains_key(t.token.as_str()) {
        r.insert(t.token.clone(), t.logprob);
    }
    r
}

/// Per generated position, the candidate tokens that continue some label,
/// with their log probabilities, along the path that the emitted tokens
/// follow. An emitted token that continues no label is not followed.
pub fn extract_step_logprobs(logprobs: &[TokenLogprob], trie: &LabelTrie) -> (r: Vec<
    LabelMap<Scalar>,
>)
    ensures
        scoring::maps_of(r@) == step_maps(trie.paths(), base::logprob_views(logprobs@)),
{
    let mut r: Vec<LabelMap<Scalar>> = Vec::new();
    let mut node: &TrieNode = trie.root();
    let ghost paths = trie.paths();
    let ghost emitted = base::logprob_views(logprobs@);
    let ghost mut path: Seq<Seq<char>> = Seq::empty();
    let n: usize = logprobs.len();
    proof {
        assert(emitted.take(0) =~= Seq::<base::TokenLogprobView>::empty());
    }
    for i in 0..n
        invariant
            n == logprobs@.len(),
            emitted == base::logprob_views(logprobs@),
            paths == trie.paths(),
            path == followed(paths, emitted.take(i as int)),
            trie.root_node().at(path) == Some(*node),
            node.wf(),
            r@.len() == i,
            forall|j: int|
                0 <= j < i ==> (#[trigger] r@[j])@ == step_candidates(
                    paths,
                    followed(paths, emitted.take(j)),
                    emitted[j],
                ),
    {
        let t = &logprobs[i];
        let filtered = step_candidates_at(node, t);
        proof {
            assert forall|token: Seq<char>| #[trigger] paths.contains(path.push(token)) <==> node.child(
                token,
            ) is Some by {
                trie.root_node().lemma_at_push(path, token);
            }
            assert(emitted[i as int] == t@);
            assert(filtered@ =~= step_candidates(paths, path, t@));
            assert(emitted.take(i + 1).drop_last() =~= emitted.take(i as int));
            trie.root_node().lemma_at_push(path, t.token@);
        }
        r.push(filtered);
        if let Some(child) = node.get_child(&t.token) {
            node = child;
            proof {
                path = path.push(t.token@);
            }
        }
    }
    assert(scoring::maps_of(r@) =~= step_maps(paths, emitted));
    r
}

// ---------------------------------------------------------------------------
// Predictions and results
// ---------------------------------------------------------------------------

/// The label with the greatest value, the first of them in the order of the
/// keys; no text where there are no labels.
pub open spec fn predicted(probabilities: LabelMap<Scalar>) -> Seq<char> {
    if probabilities.keys().len() == 0 {
        Seq::empty()
    } else {
        probabilities.keys()[scoring::leader(scoring::values_of(probabilities))]
    }
}

/// The value of the predicted label; zero where there are no labels.
pub open spec fn confidence_of(probabilities: LabelMap<Scalar>) -> Scalar {
    if probabilities.keys().len() == 0 {
        Scalar { bits: 0 }
    } else {
        probabilities@[predicted(probabilities)]
    }
}

/// Whether `label` is the first label with the greatest value.
pub open spec fn is_first_greatest(values: LabelMap<Scalar>, label: Seq<char>) -> bool {
    exists|i: int|
        0 <= i < values.keys().len() && #[trigger] values.keys()[i] == label && (forall|j: int|
            0 <= j < values.keys().len() ==> values@[#[trigger] values.keys()[j]].rank()
                <= values@[label].rank()) && forall|j: int|
            0 <= j < i ==> values@[#[trigger] values.keys()[j]].rank() < values@[label].rank()
}

/// The prediction is one of the labels, no label has a greater probability, and
/// of those with the greatest it is the first. The confidence is its
/// probability.
pub proof fn law_prediction_is_most_probable(probabilities: LabelMap<Scalar>)
    requires
        probabilities.keys().len() > 0,
    ensures
        probabilities.keys().contains(predicted(probabilities)),
        confidence_of(probabilities) == probabilities@[predicted(probabilities)],
        (forall|l: Seq<char>| #[trigger]
            probabilities.keys().contains(l) ==> !probabilities@[l].is_nan())
            ==> is_first_greatest(probabilities, predicted(probabilities)) && forall|
            l: Seq<char>,
        | #[trigger]
            probabilities.keys().contains(l) ==> probabilities@[l].rank()
                <= probabilities@[predicted(probabilities)].rank() && !probabilities@[l].above(
                probabilities@[predicted(probabilities)],
            ),
{
    let keys = probabilities.keys();
    let values = scoring::values_of(probabilities);
    let best = scoring::leader(values);
    scoring::lemma_leader(values);
    assert(keys[best] == predicted(probabilities));
    if forall|l: Seq<char>| #[trigger] keys.contains(l) ==> !probabilities@[l].is_nan() {
        assert forall|j: int| 0 <= j < values.len() implies !(#[trigger] values[j]).is_nan() by {
            assert(keys.contains(keys[j]));
        }
        assert forall|j: int| 0 <= j < keys.len() implies probabilities@[#[trigger] keys[j]].rank()
            <= probabilities@[keys[best]].rank() && (j < best
            ==> probabilities@[keys[j]].rank() < probabilities@[keys[best]].rank()) by {
            scoring::law_leader_is_first_maximum(values, j);
            assert(values[j] == probabilities@[keys[j]]);
            assert(values[best] == probabilities@[keys[best]]);
        }
        assert forall|l: Seq<char>| #[trigger] keys.contains(l) implies probabilities@[l].rank()
            <= probabilities@[keys[best]].rank() && !probabilities@[l].above(
            probabilities@[keys[best]],
        ) by {
            assert(keys[keys.index_of(l)] == l);
        }
    }
}

/// Without labels nothing is predicted, and the confidence is zero.
pub proof fn law_nothing_predicted_without_labels(probabilities: LabelMap<Scalar>)
    requires
        probabilities.keys().len() == 0,
    ensures
        predicted(probabilities).len() == 0,
        confidence_of(probabilities).bits == 0,
{
}

/// Pick the key with the maximum value, the first maximum in the order of
/// insertion; none where there are no keys.
pub fn argmax(probs: &LabelMap<Scalar>) -> (r: Option<String>)
    ensures
        match r {
            Some(k) => probs.keys().len() > 0 && k@ == predicted(*probs),
            None => probs.keys().len() == 0,
        },
        r matches Some(k) ==> probs.keys().contains(k@) && ((forall|l: Seq<char>| #[trigger]
            probs.keys().contains(l) ==> !probs@[l].is_nan()) ==> is_first_greatest(*probs, k@)),
{
    if probs.len() == 0 {
        return None;
    }
    proof {
        law_prediction_is_most_probable(*probs);
    }
    let values = scoring::all_values(probs);
    let best: usize = scoring::lead(values.as_slice());
    Some(probs.key_at(best).clone())
}

/// The prediction and its confidence.
pub(crate) fn predict(probabilities: &LabelMap<Scalar>) -> (r: (String, Scalar))
    ensures
        r.0@ == predicted(*probabilities),
        r.1 == confidence_of(*probabilities),
{
    match argmax(probabilities) {
        Some(label) => {
            proof {
                scoring::lemma_leader(scoring::values_of(*probabilities));
                assert(probabilities.keys().contains(label@));
            }
            let confidence = match probabilities.get(label.as_str()) {
                Some(p) => *p,
                None => Scalar { bits: 0 },
            };
            (label, confidence)
        },
        None => {
            let label = String::new();
            assert(label@ =~= Seq::<char>::empty());
            (label, Scalar { bits: 0 })
        },
    }
}

/// The log probabilities of a scored completion; none where scoring failed.
pub fn score_details(response: Option<&ScoringResponse>) -> (r: Vec<Scalar>)
    ensures
        r@ == match response {
            Some(s) => s@.logprobs.map_values(|t: base::TokenLogprobView| t.logprob),
            None => Seq::empty(),
        },
{
    let mut r: Vec<Scalar> = Vec::new();
    if let Some(s) = response {
        let n: usize = s.logprobs.len();
        for i in 0..n
            invariant
                n == s.logprobs@.len(),
                r@.len() == i,
                forall|j: int| 0 <= j < i ==> #[trigger] r@[j] == s.logprobs@[j].logprob,
        {
            r.push(s.logprobs[i].logprob);
        }
        assert(r@ =~= s@.logprobs.map_values(|t: base::TokenLogprobView| t.logprob));
    }
    r
}

/// The log probabilities that a scoring call yields; none where it failed.
pub open spec fn outcome_logprobs(outcome: Option<ScoringResponse>) -> Seq<Scalar> {
    match outcome {
        Some(s) => s@.logprobs.map_values(|t: base::TokenLogprobView| t.logprob),
        None => Seq::empty(),
    }
}

/// A scored label has one log probability for each position of its score, in
/// order; a label that could not be scored has none.
pub proof fn law_outcome_keeps_every_position(outcome: Option<ScoringResponse>)
    ensures
        outcome matches Some(s) ==> outcome_logprobs(outcome).len() == s.logprobs@.len()
            && forall|i: int|
            0 <= i < s.logprobs@.len() ==> #[trigger] outcome_logprobs(outcome)[i]
                == s.logprobs@[i].logprob,
        outcome is None ==> outcome_logprobs(outcome).len() == 0,
{
}

/// The log probabilities that the scoring calls yield.
pub open spec fn all_logprobs(outcomes: Seq<Option<ScoringResponse>>) -> Seq<Seq<Scalar>> {
    outcomes.map_values(|o: Option<ScoringResponse>| outcome_logprobs(o))
}

/// The log probabilities of each label, from the outcomes of one scoring call
/// per label, in the order of the labels.
pub fn collect_details(labels: &[String], outcomes: &[Option<ScoringResponse>]) -> (r: LabelMap<
    Vec<Scalar>,
>)
    requires
        labels@.len() == outcomes@.len(),
    ensures
        r.keys() == label_map::distinct(text::texts(labels@)),
        scoring::scalars_of(r) == label_map::table(text::texts(labels@), all_logprobs(outcomes@)),
{
    let mut r: LabelMap<Vec<Scalar>> = LabelMap::new();
    let n: usize = labels.len();
    let ghost names = text::texts(labels@);
    let ghost values = all_logprobs(outcomes@);
    proof {
        assert(label_map::distinct(names.take(0)) =~= Seq::<Seq<char>>::empty());
        assert(scoring::scalars_of(r) =~= label_map::table(names.take(0), values.take(0)));
    }
    for i in 0..n
        invariant
            n == labels@.len(),
            n == outcomes@.len(),
            names == text::texts(labels@),
            r.keys() == label_map::distinct(names.take(i as int)),
            values == all_logprobs(outcomes@),
            scoring::scalars_of(r) == label_map::table(
                names.take(i as int),
                values.take(i as int),
            ),
    {
        let ghost seen = names.take(i as int);
        let ghost before = scoring::scalars_of(r);
        proof {
            assert(names[i as int] == labels@[i as int]@);
            assert(names.take(i + 1) =~= seen.push(names[i as int]));
            assert(names.take(i + 1).drop_last() =~= seen);
            assert(values.take(i + 1).drop_last() =~= values.take(i as int));
            label_map::lemma_distinct(seen);
            label_map::lemma_distinct_push(seen, names[i as int]);
        }
        let lps = match &outcomes[i] {
            Some(s) => score_details(Some(s)),
            None => score_details(None),
        };
        let ghost found = lps@;
        assert(found == values[i as int]);
        r.insert(labels[i].clone(), lps);
        assert(scoring::scalars_of(r) =~= before.insert(names[i as int], found));
    }
    assert(names.take(n as int) =~= names);
    assert(values.take(n as int) =~= values);
    r
}

/// Whether `r` is the result of scoring every label by a call of its own.
pub open spec fn is_multi_call(
    r: ClassificationResult,
    raw_scores: LabelMap<Scalar>,
    logprob_details: LabelMap<Vec<Scalar>>,
    probabilities: LabelMap<Scalar>,
    n_calls: int,
) -> bool {
    &&& r.prediction@ == predicted(probabilities)
    &&& r.confidence == confidence_of(probabilities)
    &&& r.probabilities == probabilities
    &&& r.method@ == "multi_call"@
    &&& !r.approximate
    &&& r.coverage@ == Map::<Seq<char>, Coverage>::empty()
    &&& r.n_calls == n_calls
    &&& r.raw_response == (RawResponse::MultiCall {
        logprobs: raw_scores,
        token_logprobs: logprob_details,
    })
}

/// The result of scoring every label by a call of its own, from the scores,
/// the log probabilities behind them and the distribution made of the scores.
pub fn finalize_multi_call(
    raw_scores: LabelMap<Scalar>,
    logprob_details: LabelMap<Vec<Scalar>>,
    probabilities: LabelMap<Scalar>,
    n_calls: usize,
) -> (r: ClassificationResult)
    requires
        n_calls <= i64::MAX,
    ensures
        is_multi_call(r, raw_scores, logprob_details, probabilities, n_calls as int),
{
    let (prediction, confidence) = predict(&probabilities);
    let mut result = ClassificationResult::new_multi_call(
        prediction,
        confidence,
        probabilities,
        n_calls as i64,
    );
    result.raw_response = RawResponse::MultiCall {
        logprobs: raw_scores,
        token_logprobs: logprob_details,
    };
    result
}

/// A result of scoring every label by a call of its own predicts the most
/// probable label, with its probability as the confidence; it hands on the
/// distribution, the scores and the log probabilities, counts the calls, and is
/// not approximate.
pub proof fn law_multi_call_result_is_the_most_probable(
    r: ClassificationResult,
    raw_scores: LabelMap<Scalar>,
    logprob_details: LabelMap<Vec<Scalar>>,
    probabilities: LabelMap<Scalar>,
    n_calls: int,
)
    requires
        is_multi_call(r, raw_scores, logprob_details, probabilities, n_calls),
    ensures
        r.probabilities == probabilities,
        probabilities.keys().len() > 0 ==> probabilities.keys().contains(r.prediction@)
            && r.confidence == probabilities@[r.prediction@],
        probabilities.keys().len() > 0 && (forall|l: Seq<char>| #[trigger]
            probabilities.keys().contains(l) ==> !probabilities@[l].is_nan())
            ==> is_first_greatest(probabilities, r.prediction@),
        probabilities.keys().len() == 0 ==> r.prediction@.len() == 0 && r.confidence.bits == 0,
        r.n_calls == n_calls,
        !r.approximate,
        r.coverage.keys().len() == 0,
        r.raw_response matches RawResponse::MultiCall { logprobs, token_logprobs } && logprobs
            == raw_scores && token_logprobs == logprob_details,
{
    if probabilities.keys().len() > 0 {
        law_prediction_is_most_probable(probabilities);
    } else {
        law_nothing_predicted_without_labels(probabilities);
    }
    if r.coverage.keys().len() > 0 {
        assert(r.coverage.keys().contains(r.coverage.keys()[0]));
        assert(r.coverage@.contains_key(r.coverage.keys()[0]));
    }
}

/// Whether two maps have the same keys in the same order, and the same values.
pub open spec fn same_entries(a: LabelMap<Scalar>, b: LabelMap<Scalar>) -> bool {
    a.keys() == b.keys() && a@ == b@
}

/// The log probabilities that are kept for each label depend on the labels and
/// on the log probabilities of the label's own call alone. Neither the order in
/// which the calls were answered nor anything else of the answers plays a part,
/// so that one call after the other and all calls at once give the same.
pub proof fn law_details_depend_on_logprobs(
    labels: Seq<Seq<char>>,
    a: Seq<Option<ScoringResponse>>,
    b: Seq<Option<ScoringResponse>>,
)
    requires
        labels.len() == a.len(),
        a.len() == b.len(),
        forall|i: int|
            0 <= i < a.len() ==> outcome_logprobs(#[trigger] a[i]) == outcome_logprobs(b[i]),
    ensures
        label_map::table(labels, all_logprobs(a)) == label_map::table(labels, all_logprobs(b)),
        labels.no_duplicates() ==> forall|i: int|
            0 <= i < labels.len() ==> label_map::table(labels, all_logprobs(a))[#[trigger] labels[i]]
                == outcome_logprobs(a[i]),
{
    assert(all_logprobs(a) =~= all_logprobs(b));
    label_map::law_table_holds_last(labels, all_logprobs(a));
    if labels.no_duplicates() {
        assert forall|i: int| 0 <= i < labels.len() implies label_map::table(
            labels,
            all_logprobs(a),
        )[#[trigger] labels[i]] == outcome_logprobs(a[i]) by {
            let after = labels.skip(i + 1);
            if after.contains(labels[i]) {
                assert(labels[i + 1 + after.index_of(labels[i])] == labels[i]);
            }
        }
    }
}

/// Whether every label has the score that `score` gives its log probabilities.
pub open spec fn is_scored(
    scores: LabelMap<Scalar>,
    details: LabelMap<Vec<Scalar>>,
    score: spec_fn(Seq<Scalar>) -> Scalar,
) -> bool {
    &&& scores.keys() == details.keys()
    &&& scores@ == scoring::scalars_of(details).map_values(score)
}

/// Whether a distribution is what `distribute` makes of the scores, in the
/// order of the labels.
pub open spec fn is_distributed(
    distribution: LabelMap<Scalar>,
    scores: LabelMap<Scalar>,
    distribute: spec_fn(Seq<Scalar>) -> Seq<Scalar>,
) -> bool {
    &&& distribution.keys() == scores.keys()
    &&& scoring::values_of(distribution) == distribute(scoring::values_of(scores))
}

/// Two runs that score every label by a call of its own, whether one call after
/// the other or all at once, have the same result where the calls yielded the
/// same log probabilities, whatever the labels are scored by and whatever makes
/// the distribution of the scores, as long as it is the same in both.
pub proof fn law_multi_call_is_determined(
    labels: Seq<Seq<char>>,
    outcomes_a: Seq<Option<ScoringResponse>>,
    outcomes_b: Seq<Option<ScoringResponse>>,
    scores_a: LabelMap<Scalar>,
    scores_b: LabelMap<Scalar>,
    details_a: LabelMap<Vec<Scalar>>,
    details_b: LabelMap<Vec<Scalar>>,
    distribution_a: LabelMap<Scalar>,
    distribution_b: LabelMap<Scalar>,
    score: spec_fn(Seq<Scalar>) -> Scalar,
    distribute: spec_fn(Seq<Scalar>) -> Seq<Scalar>,
    a: ClassificationResult,
    b: ClassificationResult,
)
    requires
        labels.len() == outcomes_a.len(),
        labels.len() == outcomes_b.len(),
        forall|i: int|
            0 <= i < labels.len() ==> outcome_logprobs(#[trigger] outcomes_a[i])
                == outcome_logprobs(outcomes_b[i]),
        details_a.keys() == label_map::distinct(labels),
        details_b.keys() == label_map::distinct(labels),
        scoring::scalars_of(details_a) == label_map::table(labels, all_logprobs(outcomes_a)),
        scoring::scalars_of(details_b) == label_map::table(labels, all_logprobs(outcomes_b)),
        is_scored(scores_a, details_a, score),
        is_scored(scores_b, details_b, score),
        is_distributed(distribution_a, scores_a, distribute),
        is_distributed(distribution_b, scores_b, distribute),
        is_multi_call(a, scores_a, details_a, distribution_a, labels.len() as int),
        is_multi_call(b, scores_b, details_b, distribution_b, labels.len() as int),
    ensures
        a.prediction@ == b.prediction@,
        a.confidence == b.confidence,
        same_entries(a.probabilities, b.probabilities),
        a.method@ == "multi_call"@,
        b.method@ == "multi_call"@,
        !a.approximate,
        !b.approximate,
        a.coverage@ == Map::<Seq<char>, Coverage>::empty(),
        b.coverage@ == Map::<Seq<char>, Coverage>::empty(),
        a.n_calls == labels.len(),
        b.n_calls == labels.len(),
        a.raw_response is MultiCall,
        b.raw_response is MultiCall,
        same_entries(a.raw_response->MultiCall_logprobs, b.raw_response->MultiCall_logprobs),
        a.raw_response->token_logprobs.keys() == b.raw_response->token_logprobs.keys(),
        scoring::scalars_of(a.raw_response->token_logprobs) == scoring::scalars_of(
            b.raw_response->token_logprobs,
        ),
{
    law_details_depend_on_logprobs(labels, outcomes_a, outcomes_b);
    assert(scoring::values_of(scores_a) =~= scoring::values_of(scores_b));
    let values = scoring::values_of(distribution_a);
    let keys = distribution_a.keys();
    assert(values == scoring::values_of(distribution_b));
    assert forall|l: Seq<char>| #[trigger] keys.contains(l) implies distribution_a@[l]
        == distribution_b@[l] by {
        let i = keys.index_of(l);
        assert(values[i] == distribution_a@[l]);
        assert(scoring::values_of(distribution_b)[i] == distribution_b@[l]);
    }
    assert(distribution_a@ =~= distribution_b@);
}

/// The result where the first constrained call of an adaptive run failed:
/// every label has the same share, one over the number of labels, and nothing
/// was scored. Without labels the confidence is zero.
pub fn empty_adaptive(labels: &[String], calls_made: usize) -> (r: ClassificationResult)
    requires
        calls_made <= i64::MAX,
    ensures
        labels@.len() > 0 ==> r.prediction@ == labels@[0]@,
        labels@.len() == 0 ==> r.prediction@ == Seq::<char>::empty(),
        labels@.len() > 0 ==> r.confidence.is_reciprocal(labels@.len()),
        labels@.len() == 0 ==> r.confidence == Scalar::zero(),
        r.confidence.share(),
        r.probabilities.keys() == label_map::distinct(text::texts(labels@)),
        r.probabilities@ == Map::new(
            |l: Seq<char>| text::texts(labels@).contains(l),
            |l: Seq<char>| r.confidence,
        ),
        r.method@ == "adaptive_generate"@,
        r.approximate,
        r.coverage.keys() == label_map::distinct(text::texts(labels@)),
        r.coverage@ == Map::new(
            |l: Seq<char>| text::texts(labels@).contains(l),
            |l: Seq<char>| Coverage { scored: 0, total: 1 },
        ),
        r.n_calls == calls_made,
        r.raw_response is Empty,
{
    let mut probabilities: LabelMap<Scalar> = LabelMap::new();
    let mut coverage: LabelMap<Coverage> = LabelMap::new();
    let n: usize = labels.len();
    let share = if n == 0 {
        Scalar { bits: 0 }
    } else {
        Scalar::reciprocal(n as u64)
    };
    let ghost names = text::texts(labels@);
    assert(label_map::distinct(names.take(0)) =~= Seq::<Seq<char>>::empty());
    for i in 0..n
        invariant
            n == labels@.len(),
            names == text::texts(labels@),
            probabilities.keys() == label_map::distinct(names.take(i as int)),
            coverage.keys() == label_map::distinct(names.take(i as int)),
            forall|l: Seq<char>| #[trigger]
                probabilities@.contains_key(l) ==> probabilities@[l] == share,
            forall|l: Seq<char>| #[trigger]
                coverage@.contains_key(l) ==> coverage@[l] == (Coverage { scored: 0, total: 1 }),
    {
        let ghost seen = names.take(i as int);
        proof {
            assert(names[i as int] == labels@[i as int]@);
            assert(names.take(i + 1) =~= seen.push(names[i as int]));
            label_map::lemma_distinct(seen);
            label_map::lemma_distinct_push(seen, names[i as int]);
        }
        probabilities.insert(labels[i].clone(), share);
        coverage.insert(labels[i].clone(), Coverage { scored: 0, total: 1 });
    }
    proof {
        assert(names.take(n as int) =~= names);
        label_map::lemma_distinct(names);
        assert(probabilities@ =~= Map::new(
            |l: Seq<char>| names.contains(l),
            |l: Seq<char>| share,
        ));
        assert(coverage@ =~= Map::new(
            |l: Seq<char>| names.contains(l),
            |l: Seq<char>| Coverage { scored: 0, total: 1 },
        ));
    }
    let prediction = if n == 0 {
        let none = String::new();
        assert(none@ =~= Seq::<char>::empty());
        none
    } else {
        labels[0].clone()
    };
    ClassificationResult::new_adaptive(
        prediction,
        share,
        probabilities,
        coverage,
        calls_made as i64,
        true,
    )
}

// ---------------------------------------------------------------------------
// Label tokens
// ---------------------------------------------------------------------------

/// The name of a token: its text, or a name made of its id where the text is
/// empty.
pub open spec fn token_name(text: Seq<char>, id: int) -> Seq<char> {
    if text.len() == 0 {
        "token_"@ + text::signed_decimal(id)
    } else {
        text
    }
}

/// The names of tokens.
pub open spec fn token_names(tokens: Seq<Token>) -> Seq<Seq<char>> {
    tokens.map_values(|t: Token| token_name(t.text@, t.id as int))
}

/// A label has a name for each of its tokens, in order: the text of the token,
/// or a name that tells its id where the text is empty.
pub proof fn law_every_token_has_its_name(tokens: Seq<Token>, i: int)
    requires
        0 <= i < tokens.len(),
    ensures
        token_names(tokens).len() == tokens.len(),
        tokens[i].text@.len() > 0 ==> token_names(tokens)[i] == tokens[i].text@,
        tokens[i].text@.len() == 0 ==> token_names(tokens)[i].len() > 6 && token_names(
            tokens,
        )[i].take(6) == "token_"@ && (if tokens[i].id < 0 {
            token_names(tokens)[i][6] == '-' && text::decimal_value(token_names(tokens)[i].skip(7))
                == -tokens[i].id
        } else {
            text::decimal_value(token_names(tokens)[i].skip(6)) == tokens[i].id
        }),
{
    reveal_strlit("token_");
    let number = text::signed_decimal(tokens[i].id as int);
    text::law_signed_decimal_reads_back(tokens[i].id as int);
    if tokens[i].id >= 0 {
        text::law_decimal_reads_back(tokens[i].id as nat);
    }
    if tokens[i].text@.len() == 0 {
        let name = token_names(tokens)[i];
        assert(name.take(6) =~= "token_"@);
        assert(name.skip(6) =~= number);
        assert(name.skip(7) =~= number.skip(1));
    }
}

/// The token names of a label.
pub fn label_sequence(tokens: &[Token]) -> (r: Vec<String>)
    ensures
        text::texts(r@) == token_names(tokens@),
{
    let mut r: Vec<String> = Vec::new();
    let n: usize = tokens.len();
    for i in 0..n
        invariant
            n == tokens@.len(),
            r@.len() == i,
            forall|j: int|
                0 <= j < i ==> (#[trigger] r@[j])@ == token_name(
                    tokens@[j].text@,
                    tokens@[j].id as int,
                ),
    {
        let t = &tokens[i];
        let empty = String::new();
        assert(empty@ =~= Seq::<char>::empty());
        assert(t.text@.len() == 0 ==> t.text@ =~= empty@);
        let name = if t.text == empty {
            let mut name = "token_".to_owned();
            name.append(text::signed_decimal_text(t.id).as_str());
            name
        } else {
            t.text.clone()
        };
        r.push(name);
    }
    assert(text::texts(r@) =~= token_names(tokens@));
    r
}

/// The token names of each label, from the tokens of the labels, in the order
/// of the labels.
pub fn label_sequences(labels: &[String], tokens: &[Vec<Token>]) -> (r: LabelMap<Vec<String>>)
    requires
        labels@.len() == tokens@.len(),
    ensures
        r.keys() == label_map::distinct(text::texts(labels@)),
        scoring::token_texts(r) == label_map::table(
            text::texts(labels@),
            tokens@.map_values(|v: Vec<Token>| token_names(v@)),
        ),
{
    let mut r: LabelMap<Vec<String>> = LabelMap::new();
    let n: usize = labels.len();
    let ghost names = text::texts(labels@);
    let ghost values = tokens@.map_values(|v: Vec<Token>| token_names(v@));
    proof {
        assert(label_map::distinct(names.take(0)) =~= Seq::<Seq<char>>::empty());
        assert(scoring::token_texts(r) =~= label_map::table(names.take(0), values.take(0)));
    }
    for i in 0..n
        invariant
            n == labels@.len(),
            n == tokens@.len(),
            names == text::texts(labels@),
            values == tokens@.map_values(|v: Vec<Token>| token_names(v@)),
            r.keys() == label_map::distinct(names.take(i as int)),
            scoring::token_texts(r) == label_map::table(
                names.take(i as int),
                values.take(i as int),
            ),
    {
        let ghost seen = names.take(i as int);
        let ghost before = scoring::token_texts(r);
        proof {
            assert(names[i as int] == labels@[i as int]@);
            assert(names.take(i + 1) =~= seen.push(names[i as int]));
            assert(names.take(i + 1).drop_last() =~= seen);
            assert(values.take(i + 1).drop_last() =~= values.take(i as int));
            label_map::lemma_distinct(seen);
            label_map::lemma_distinct_push(seen, names[i as int]);
        }
        let sequence = label_sequence(tokens[i].as_slice());
        let ghost found = text::texts(sequence@);
        r.insert(labels[i].clone(), sequence);
        assert(found == values[i as int]);
        assert(scoring::token_texts(r) =~= before.insert(names[i as int], found));
    }
    assert(names.take(n as int) =~= names);
    assert(values.take(n as int) =~= values);
    r
}

// ---------------------------------------------------------------------------
// The classifier
// ---------------------------------------------------------------------------

/// Default number of worker threads for synchronous batch classification.
pub const DEFAULT_MAX_WORKERS: usize = 4;

/// The least number of candidates asked for at each position.
pub const MIN_TOP_LOGPROBS: usize = 5;

/// A backend-agnostic text classifier.
///
/// Construct with [`LLMClassifier::new`] (default `max_workers = 4`) or
/// [`LLMClassifier::with_max_workers`].
#[derive(Debug)]
pub struct LLMClassifier<B> {
    backend: B,
    max_workers: usize,
}

impl<B> LLMClassifier<B> {
    /// The backend that was given.
    pub closed spec fn spec_backend(self) -> B {
        self.backend
    }

    /// The most workers of a synchronous batch.
    pub closed spec fn workers(self) -> usize {
        self.max_workers
    }

    /// A batch always has a worker.
    #[verifier::type_invariant]
    spec fn has_worker(self) -> bool {
        self.max_workers >= 1
    }

    /// Create a new classifier with the given backend and the default
    /// concurrency (`max_workers = 4`).
    pub fn new(backend: B) -> (r: Self)
        ensures
            r.spec_backend() == backend,
            r.workers() == 4,
    {
        LLMClassifier { backend, max_workers: DEFAULT_MAX_WORKERS }
    }

    /// Create a new classifier with an explicit sync-batch concurrency, at
    /// least one.
    pub fn with_max_workers(backend: B, max_workers: usize) -> (r: Self)
        ensures
            r.spec_backend() == backend,
            r.workers() == if max_workers == 0 {
                1
            } else {
                max_workers
            },
    {
        LLMClassifier {
            backend,
            max_workers: if max_workers == 0 {
                1
            } else {
                max_workers
            },
        }
    }

    /// Get a reference to the underlying backend.
    pub fn backend(&self) -> (r: &B)
        ensures
            *r == self.spec_backend(),
    {
        &self.backend
    }

    /// How many workers a batch of `n` texts gets: no more than there are
    /// texts or than are allowed, and at least one.
    pub fn worker_count(&self, n: usize) -> (r: usize)
        ensures
            r == if n == 0 {
                1
            } else if n < self.workers() {
                n
            } else {
                self.workers()
            },
            r >= 1,
            r <= self.workers(),
    {
        proof {
            use_type_invariant(self);
        }
        if n == 0 {
            1
        } else if n < self.max_workers {
            n
        } else {
            self.max_workers
        }
    }

    /// The messages of a classification request.
    pub fn to_messages(system: &str, user: &str) -> (r: Vec<ChatMessage>)
        ensures
            r@.len() == 2,
            r@[0].role@ == "system"@,
            r@[0].content@ == system@,
            r@[1].role@ == "user"@,
            r@[1].content@ == user@,
    {
        let mut r: Vec<ChatMessage> = Vec::new();
        r.push(ChatMessage::new("system", system));
        r.push(ChatMessage::new("user", user));
        r
    }

    /// The text in which labels are tokenized: none for a backend that emits
    /// the bare label, and else the JSON that stands before the label.
    pub fn token_context(bare_label: bool) -> (r: Option<&'static str>)
        ensures
            match r {
                Some(s) => !bare_label && s@ == ollama::JSON_LABEL_CONTEXT@,
                None => bare_label,
            },
    {
        if bare_label {
            None
        } else {
            Some(ollama::JSON_LABEL_CONTEXT)
        }
    }

    /// The `top_logprobs` budget of the adaptive path: enough for every branch
    /// of the trie, and no less than five.
    pub fn top_logprobs_budget(trie: &LabelTrie) -> (r: u32)
        ensures
            forall|b: usize| #[trigger]
                trie::is_max_branching(trie.root_node(), b as nat) ==> r == budget(b),
            exists|b: usize| #[trigger] trie::is_max_branching(trie.root_node(), b as nat),
    {
        let b: usize = trie.max_branching_factor();
        proof {
            assert forall|c: usize| #[trigger]
                trie::is_max_branching(trie.root_node(), c as nat) implies c == b by {
                trie::lemma_max_branching_unique(trie.root_node(), b as nat, c as nat);
            }
        }
        let wanted: usize = if b < MIN_TOP_LOGPROBS {
            MIN_TOP_LOGPROBS
        } else {
            b
        };
        wanted as u32
    }
}

/// The candidates asked for cover every branch of a trie, and are no less than
/// five.
pub proof fn law_budget_covers_branches(b: usize)
    requires
        b <= u32::MAX,
    ensures
        budget(b) >= b,
        budget(b) >= 5,
        budget(b) == b || budget(b) == 5,
{
}

/// Every node of a trie has no more children than candidates are asked for.
pub proof fn law_budget_covers_every_node(
    root: trie::TrieNode,
    b: usize,
    path: Seq<Seq<char>>,
)
    requires
        trie::is_max_branching(root, b as nat),
        b <= u32::MAX,
        root.at(path) is Some,
    ensures
        root.at(path)->0.children@.len() <= budget(b),
        root.at(path)->0.tokens().len() == root.at(path)->0.children@.len(),
{
}

/// The number of candidates for a trie whose nodes have at most `b` children.
pub open spec fn budget(b: usize) -> u32 {
    if b < MIN_TOP_LOGPROBS {
        MIN_TOP_LOGPROBS as u32
    } else {
        b as u32
    }
}

} // verus!
