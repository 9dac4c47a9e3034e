//! Token paths of labels: where they diverge, how far they are scored, and
//! which labels are still to be told apart.

use crate::label_map;
use crate::label_map::LabelMap;
use crate::scalar::Scalar;
use crate::selection;
use crate::text;
use vstd::prelude::*;

pub use crate::trie::{LabelTrie, TrieNode};

verus! {

broadcast use LabelMap::lemma_keys;

// ---------------------------------------------------------------------------
// Divergence
// ---------------------------------------------------------------------------

/// The length of the longest common prefix of two token sequences.
pub open spec fn divergence(a: Seq<Seq<char>>, b: Seq<Seq<char>>) -> nat
    decreases a.len(),
{
    if a.len() == 0 || b.len() == 0 || a[0] != b[0] {
        0
    } else {
        1 + divergence(a.drop_first(), b.drop_first())
    }
}

/// The divergence is the one index up to which two sequences agree and at
/// which they differ, or one of them ends.
pub proof fn lemma_divergence(a: Seq<Seq<char>>, b: Seq<Seq<char>>)
    ensures
        divergence(a, b) <= a.len(),
        divergence(a, b) <= b.len(),
        forall|i: int| 0 <= i < divergence(a, b) ==> #[trigger] a[i] == b[i],
        divergence(a, b) < a.len() && divergence(a, b) < b.len() ==> a[divergence(a, b) as int]
            != b[divergence(a, b) as int],
    decreases a.len(),
{
    if a.len() == 0 || b.len() == 0 || a[0] != b[0] {
    } else {
        let x = a.drop_first();
        let y = b.drop_first();
        lemma_divergence(x, y);
        assert forall|i: int| 0 <= i < divergence(a, b) implies #[trigger] a[i] == b[i] by {
            if i > 0 {
                assert(x[i - 1] == y[i - 1]);
            }
        }
    }
}

/// Two sequences that agree below `d`, and differ or end at `d`, diverge at `d`.
pub proof fn lemma_divergence_is(a: Seq<Seq<char>>, b: Seq<Seq<char>>, d: nat)
    requires
        d <= a.len(),
        d <= b.len(),
        forall|i: int| 0 <= i < d ==> #[trigger] a[i] == b[i],
        d == a.len() || d == b.len() || a[d as int] != b[d as int],
    ensures
        divergence(a, b) == d,
{
    lemma_divergence(a, b);
    let e = divergence(a, b);
    if e < d {
        assert(a[e as int] == b[e as int]);
    } else if d < e {
        assert(a[d as int] == b[d as int]);
    }
}

/// Index of the first token where `label_tokens` diverges from
/// `winning_tokens`; the length of the shorter one where it never does.
pub fn divergence_point(label_tokens: &[String], winning_tokens: &[String]) -> (r: usize)
    ensures
        r == divergence(text::texts(label_tokens@), text::texts(winning_tokens@)),
{
    let ghost a = text::texts(label_tokens@);
    let ghost b = text::texts(winning_tokens@);
    let limit: usize = if label_tokens.len() < winning_tokens.len() {
        label_tokens.len()
    } else {
        winning_tokens.len()
    };
    for i in 0..limit
        invariant
            limit <= label_tokens@.len(),
            limit <= winning_tokens@.len(),
            a == text::texts(label_tokens@),
            b == text::texts(winning_tokens@),
            forall|j: int| 0 <= j < i ==> #[trigger] a[j] == b[j],
    {
        if label_tokens[i] != winning_tokens[i] {
            proof {
                assert(a[i as int] != b[i as int]);
                lemma_divergence_is(a, b, i as nat);
            }
            return i;
        }
    }
    proof {
        lemma_divergence_is(a, b, limit as nat);
    }
    limit
}

// ---------------------------------------------------------------------------
// Scored lengths
// ---------------------------------------------------------------------------

/// The token texts of each label.
pub open spec fn token_texts(m: LabelMap<Vec<String>>) -> Map<Seq<char>, Seq<Seq<char>>> {
    m@.map_values(|v: Vec<String>| text::texts(v@))
}

/// The tokens of `label`; none where the label is unknown.
pub open spec fn tokens_of(tokens: Map<Seq<char>, Seq<Seq<char>>>, label: Seq<char>) -> Seq<
    Seq<char>,
> {
    if tokens.contains_key(label) {
        tokens[label]
    } else {
        Seq::empty()
    }
}

/// The number of tokens of `seq` that a constrained call which emitted
/// `winning` scores: the shared prefix and the token at the divergence, which
/// the call weighed as an alternative.
pub open spec fn covered(seq: Seq<Seq<char>>, winning: Seq<Seq<char>>) -> nat {
    if divergence(seq, winning) < seq.len() {
        divergence(seq, winning) + 1
    } else {
        seq.len()
    }
}

/// The stored tokens of `label`, or none.
pub fn tokens_or_none(token_sequences: &LabelMap<Vec<String>>, label: &str) -> (r: Vec<String>)
    ensures
        text::texts(r@) == tokens_of(token_texts(*token_sequences), label@),
{
    match token_sequences.get(label) {
        Some(v) => text::copy_texts(v.as_slice()),
        None => {
            let r: Vec<String> = Vec::new();
            assert(text::texts(r@) =~= Seq::<Seq<char>>::empty());
            r
        },
    }
}

/// Per label, the index where it diverges from the tokens of `winning_label`.
pub fn get_scored_lengths(
    token_sequences: &LabelMap<Vec<String>>,
    winning_label: &str,
) -> (r: LabelMap<usize>)
    ensures
        r.keys() == token_sequences.keys(),
        forall|l: Seq<char>| #[trigger]
            token_sequences@.contains_key(l) ==> r@[l] == divergence(
                token_texts(*token_sequences)[l],
                tokens_of(token_texts(*token_sequences), winning_label@),
            ),
{
    let winning = tokens_or_none(token_sequences, winning_label);
    let mut r: LabelMap<usize> = LabelMap::new();
    let n: usize = token_sequences.len();
    let ghost keys = token_sequences.keys();
    let ghost texts = token_texts(*token_sequences);
    for i in 0..n
        invariant
            n == keys.len(),
            keys == token_sequences.keys(),
            keys.no_duplicates(),
            texts == token_texts(*token_sequences),
            text::texts(winning@) == tokens_of(texts, winning_label@),
            r.keys() == keys.take(i as int),
            forall|j: int|
                0 <= j < i ==> r@[#[trigger] keys[j]] == divergence(
                    texts[keys[j]],
                    tokens_of(texts, winning_label@),
                ),
    {
        let label = token_sequences.key_at(i).clone();
        let d: usize = divergence_point(token_sequences.value_at(i).as_slice(), winning.as_slice());
        proof {
            assert(!r.keys().contains(label@));
        }
        r.insert(label, d);
        assert(r.keys() =~= keys.take(i + 1));
    }
    assert(keys.take(n as int) =~= keys);
    proof {
        assert forall|l: Seq<char>| #[trigger] token_sequences@.contains_key(l) implies r@[l]
            == divergence(texts[l], tokens_of(texts, winning_label@)) by {
            let j = keys.index_of(l);
            assert(keys[j] == l);
        }
    }
    r
}

/// Per label, the number of its tokens that a constrained call which emitted
/// `winning_label` scores.
pub fn get_covered_lengths(
    token_sequences: &LabelMap<Vec<String>>,
    winning_label: &str,
) -> (r: LabelMap<usize>)
    ensures
        r.keys() == token_sequences.keys(),
        forall|l: Seq<char>| #[trigger]
            token_sequences@.contains_key(l) ==> r@[l] == covered(
                token_texts(*token_sequences)[l],
                tokens_of(token_texts(*token_sequences), winning_label@),
            ),
{
    let diverged = get_scored_lengths(token_sequences, winning_label);
    let mut r: LabelMap<usize> = LabelMap::new();
    let n: usize = token_sequences.len();
    let ghost keys = token_sequences.keys();
    let ghost texts = token_texts(*token_sequences);
    for i in 0..n
        invariant
            n == keys.len(),
            keys == token_sequences.keys(),
            keys == diverged.keys(),
            keys.no_duplicates(),
            texts == token_texts(*token_sequences),
            forall|l: Seq<char>| #[trigger]
                token_sequences@.contains_key(l) ==> diverged@[l] == divergence(
                    texts[l],
                    tokens_of(texts, winning_label@),
                ),
            r.keys() == keys.take(i as int),
            forall|j: int|
                0 <= j < i ==> r@[#[trigger] keys[j]] == covered(
                    texts[keys[j]],
                    tokens_of(texts, winning_label@),
                ),
    {
        let label = token_sequences.key_at(i).clone();
        let total: usize = token_sequences.value_at(i).len();
        let d: usize = *diverged.value_at(i);
        let c: usize = if d < total {
            d + 1
        } else {
            total
        };
        proof {
            assert(!r.keys().contains(label@));
        }
        r.insert(label, c);
        assert(r.keys() =~= keys.take(i + 1));
    }
    assert(keys.take(n as int) =~= keys);
    proof {
        assert forall|l: Seq<char>| #[trigger] token_sequences@.contains_key(l) implies r@[l]
            == covered(texts[l], tokens_of(texts, winning_label@)) by {
            let j = keys.index_of(l);
            assert(keys[j] == l);
        }
    }
    r
}

// ---------------------------------------------------------------------------
// Log probabilities along a label
// ---------------------------------------------------------------------------

/// What a list of maps holds.
pub open spec fn maps_of(v: Seq<LabelMap<Scalar>>) -> Seq<Map<Seq<char>, Scalar>> {
    v.map_values(|m: LabelMap<Scalar>| m@)
}

/// The log probabilities of each label.
pub open spec fn scalars_of(m: LabelMap<Vec<Scalar>>) -> Map<Seq<char>, Seq<Scalar>> {
    m@.map_values(|v: Vec<Scalar>| v@)
}

/// The log probability of `token` at position `i`; negative infinity where it
/// is no candidate there.
pub open spec fn candidate(steps: Seq<Map<Seq<char>, Scalar>>, i: int, token: Seq<char>) -> Scalar {
    if 0 <= i < steps.len() && steps[i].contains_key(token) {
        steps[i][token]
    } else {
        Scalar::spec_neg_infinity()
    }
}

/// The log probabilities of the first `n` tokens of `seq`.
pub open spec fn path_logprobs(
    seq: Seq<Seq<char>>,
    n: nat,
    steps: Seq<Map<Seq<char>, Scalar>>,
) -> Seq<Scalar> {
    Seq::new(n, |i: int| candidate(steps, i, seq[i]))
}

/// Reads the log probabilities of the first `n` tokens of `seq` off the
/// candidates.
pub(crate) fn read_path(seq: &[String], n: usize, steps: &Vec<LabelMap<Scalar>>) -> (r: Vec<Scalar>)
    requires
        n <= seq@.len(),
    ensures
        r@ == path_logprobs(text::texts(seq@), n as nat, maps_of(steps@)),
{
    let mut r: Vec<Scalar> = Vec::new();
    for i in 0..n
        invariant
            n <= seq@.len(),
            r@.len() == i,
            forall|j: int|
                0 <= j < i ==> #[trigger] r@[j] == candidate(
                    maps_of(steps@),
                    j,
                    text::texts(seq@)[j],
                ),
    {
        let found = if i < steps.len() {
            assert(maps_of(steps@)[i as int] == steps@[i as int]@);
            match steps[i].get(seq[i].as_str()) {
                Some(x) => *x,
                None => Scalar::neg_infinity(),
            }
        } else {
            Scalar::neg_infinity()
        };
        r.push(found);
    }
    assert(r@ =~= path_logprobs(text::texts(seq@), n as nat, maps_of(steps@)));
    r
}

/// Per label, the log probabilities of the tokens it shares with the winning
/// label; none for a label that diverges at once.
pub fn winning_path_logprobs(
    token_sequences: &LabelMap<Vec<String>>,
    winning_label: &str,
    step_logprobs: &Vec<LabelMap<Scalar>>,
) -> (r: LabelMap<Vec<Scalar>>)
    ensures
        r.keys() == token_sequences.keys(),
        forall|l: Seq<char>| #[trigger]
            token_sequences@.contains_key(l) ==> r@[l]@ == path_logprobs(
                token_texts(*token_sequences)[l],
                divergence(
                    token_texts(*token_sequences)[l],
                    tokens_of(token_texts(*token_sequences), winning_label@),
                ),
                maps_of(step_logprobs@),
            ),
{
    let shared = get_scored_lengths(token_sequences, winning_label);
    let mut r: LabelMap<Vec<Scalar>> = LabelMap::new();
    let n: usize = token_sequences.len();
    let ghost keys = token_sequences.keys();
    let ghost texts = token_texts(*token_sequences);
    for i in 0..n
        invariant
            n == keys.len(),
            keys == token_sequences.keys(),
            keys == shared.keys(),
            keys.no_duplicates(),
            texts == token_texts(*token_sequences),
            forall|l: Seq<char>| #[trigger]
                token_sequences@.contains_key(l) ==> shared@[l] == divergence(
                    texts[l],
                    tokens_of(texts, winning_label@),
                ),
            r.keys() == keys.take(i as int),
            forall|j: int|
                0 <= j < i ==> r@[#[trigger] keys[j]]@ == path_logprobs(
                    texts[keys[j]],
                    divergence(texts[keys[j]], tokens_of(texts, winning_label@)),
                    maps_of(step_logprobs@),
                ),
    {
        let label = token_sequences.key_at(i).clone();
        let seq = token_sequences.value_at(i);
        let d: usize = *shared.value_at(i);
        proof {
            assert(!r.keys().contains(label@));
            lemma_divergence(texts[label@], tokens_of(texts, winning_label@));
        }
        r.insert(label, read_path(seq.as_slice(), d, step_logprobs));
        assert(r.keys() =~= keys.take(i + 1));
    }
    assert(keys.take(n as int) =~= keys);
    proof {
        assert forall|l: Seq<char>| #[trigger] token_sequences@.contains_key(l) implies r@[l]@
            == path_logprobs(
            texts[l],
            divergence(texts[l], tokens_of(texts, winning_label@)),
            maps_of(step_logprobs@),
        ) by {
            let j = keys.index_of(l);
            assert(keys[j] == l);
        }
    }
    r
}

// ---------------------------------------------------------------------------
// Means, maxima and shares
// ---------------------------------------------------------------------------

/// Why there is nothing to average or to normalize.
#[derive(Debug, Clone, Copy, PartialEq, Eq, Structural)]
pub enum ScoringError {
    /// The geometric mean of an empty sequence.
    EmptySequence,
    /// The softmax of an empty map.
    EmptyMap,
}

/// The log probabilities above negative infinity.
pub open spec fn valid_terms(v: Seq<Scalar>) -> Seq<Scalar> {
    v.filter(|x: Scalar| x.valid())
}

/// The terms of a geometric mean: the log probabilities above negative
/// infinity. Where there are none of them the mean is negative infinity; a
/// sequence without any log probability has no mean.
pub fn mean_terms(logprobs: &[Scalar]) -> (r: Result<Vec<Scalar>, ScoringError>)
    ensures
        match r {
            Ok(v) => logprobs@.len() > 0 && v@ == valid_terms(logprobs@),
            Err(e) => logprobs@.len() == 0 && e == ScoringError::EmptySequence,
        },
{
    let n: usize = logprobs.len();
    if n == 0 {
        return Err(ScoringError::EmptySequence);
    }
    let mut v: Vec<Scalar> = Vec::new();
    proof {
        reveal(Seq::filter);
        assert(logprobs@.take(0) =~= Seq::<Scalar>::empty());
    }
    for i in 0..n
        invariant
            n == logprobs@.len(),
            v@ == valid_terms(logprobs@.take(i as int)),
    {
        proof {
            reveal(Seq::filter);
            assert(logprobs@.take(i + 1).drop_last() =~= logprobs@.take(i as int));
        }
        if logprobs[i].is_valid() {
            v.push(logprobs[i]);
        }
    }
    assert(logprobs@.take(n as int) =~= logprobs@);
    Ok(v)
}

/// The position of the value that no later value exceeds, when each position
/// in turn takes the lead from one that it exceeds.
pub open spec fn leader(values: Seq<Scalar>) -> int
    decreases values.len(),
{
    if values.len() <= 1 {
        0
    } else {
        let before = leader(values.drop_last());
        if values.last().above(values[before]) {
            values.len() - 1
        } else {
            before
        }
    }
}

/// The leader is a position of the sequence.
pub proof fn lemma_leader(values: Seq<Scalar>)
    requires
        values.len() > 0,
    ensures
        0 <= leader(values) < values.len(),
    decreases values.len(),
{
    if values.len() > 1 {
        lemma_leader(values.drop_last());
    }
}

/// Among numbers the leader is the first of the greatest.
pub proof fn law_leader_is_first_maximum(values: Seq<Scalar>, i: int)
    requires
        forall|j: int| 0 <= j < values.len() ==> !(#[trigger] values[j]).is_nan(),
        0 <= i < values.len(),
    ensures
        values[i].rank() <= values[leader(values)].rank(),
        i < leader(values) ==> values[i].rank() < values[leader(values)].rank(),
    decreases values.len(),
{
    lemma_leader(values);
    if values.len() > 1 {
        let rest = values.drop_last();
        lemma_leader(rest);
        assert forall|j: int| 0 <= j < rest.len() implies !(#[trigger] rest[j]).is_nan() by {
            assert(rest[j] == values[j]);
        }
        let b = leader(rest);
        assert(rest[b] == values[b]);
        if i < rest.len() {
            law_leader_is_first_maximum(rest, i);
            assert(rest[i] == values[i]);
        }
    }
}

/// The position of the leader.
pub(crate) fn lead(values: &[Scalar]) -> (r: usize)
    requires
        values@.len() > 0,
    ensures
        r == leader(values@),
        r < values@.len(),
{
    let n: usize = values.len();
    let mut best: usize = 0;
    for i in 1..n
        invariant
            n == values@.len(),
            best < i,
            best == leader(values@.take(i as int)),
    {
        assert(values@.take(i + 1).drop_last() =~= values@.take(i as int));
        if values[i].exceeds(values[best]) {
            best = i;
        }
    }
    assert(values@.take(n as int) =~= values@);
    best
}

/// The values of a map, in the order of its keys.
pub open spec fn values_of(m: LabelMap<Scalar>) -> Seq<Scalar> {
    m.keys().map_values(|k: Seq<char>| m@[k])
}

/// The values of a map, in the order of its keys.
pub fn all_values(m: &LabelMap<Scalar>) -> (r: Vec<Scalar>)
    ensures
        r@ == values_of(*m),
{
    let mut r: Vec<Scalar> = Vec::new();
    let n: usize = m.len();
    for i in 0..n
        invariant
            n == m.keys().len(),
            r@.len() == i,
            forall|j: int| 0 <= j < i ==> #[trigger] r@[j] == values_of(*m)[j],
    {
        r.push(*m.value_at(i));
    }
    assert(r@ =~= values_of(*m));
    r
}

/// The log probability that a stable softmax subtracts: the greatest of those
/// above negative infinity. Where there is none the distribution is uniform;
/// a map without entries has no softmax.
pub fn softmax_shift(logprobs: &LabelMap<Scalar>) -> (r: Result<Option<Scalar>, ScoringError>)
    ensures
        match r {
            Ok(Some(m)) => valid_terms(values_of(*logprobs)).len() > 0 && m == valid_terms(
                values_of(*logprobs),
            )[leader(valid_terms(values_of(*logprobs)))],
            Ok(None) => logprobs.keys().len() > 0 && valid_terms(values_of(*logprobs)).len() == 0,
            Err(e) => logprobs.keys().len() == 0 && e == ScoringError::EmptyMap,
        },
        match r {
            Ok(Some(m)) => m.valid() && (exists|l: Seq<char>| #[trigger]
                logprobs.keys().contains(l) && logprobs@[l] == m) && forall|l: Seq<char>| #[trigger]
                logprobs.keys().contains(l) && logprobs@[l].valid() ==> logprobs@[l].rank()
                    <= m.rank(),
            Ok(None) => forall|l: Seq<char>| #[trigger]
                logprobs.keys().contains(l) ==> !logprobs@[l].valid(),
            Err(_) => true,
        },
{
    let values = all_values(logprobs);
    proof {
        lemma_softmax_terms(*logprobs);
    }
    match mean_terms(values.as_slice()) {
        Err(_) => Err(ScoringError::EmptyMap),
        Ok(terms) => {
            if terms.len() == 0 {
                Ok(None)
            } else {
                Ok(Some(terms[lead(terms.as_slice())]))
            }
        },
    }
}

/// The valid values of a map are the terms of its softmax.
proof fn lemma_softmax_terms(logprobs: LabelMap<Scalar>)
    ensures
        ({
            let terms = valid_terms(values_of(logprobs));
            &&& forall|l: Seq<char>| #[trigger]
                logprobs.keys().contains(l) && logprobs@[l].valid() ==> terms.len() > 0
                    && logprobs@[l].rank() <= terms[leader(terms)].rank()
            &&& terms.len() > 0 ==> terms[leader(terms)].valid() && exists|l: Seq<char>| #[trigger]
                logprobs.keys().contains(l) && logprobs@[l] == terms[leader(terms)]
        }),
{
    let values = values_of(logprobs);
    let terms = valid_terms(values);
    let keep = |x: Scalar| x.valid();
    assert forall|l: Seq<char>| #[trigger]
        logprobs.keys().contains(l) && logprobs@[l].valid() implies terms.len() > 0
        && logprobs@[l].rank() <= terms[leader(terms)].rank() by {
        let i = logprobs.keys().index_of(l);
        assert(values[i] == logprobs@[l]);
        values.lemma_filter_contains(keep, i);
        let k = terms.index_of(values[i]);
        assert(terms[k] == values[i]);
        assert forall|j: int| 0 <= j < terms.len() implies !(#[trigger] terms[j]).is_nan() by {
            values.lemma_filter_pred(keep, j);
        }
        law_leader_is_first_maximum(terms, k);
    }
    if terms.len() > 0 {
        lemma_leader(terms);
        let j = leader(terms);
        values.lemma_filter_pred(keep, j);
        selection::lemma_filter_picks(values, keep);
        let picks = choose|picks: Seq<int>| #[trigger]
            selection::picked_at(values, terms, keep, picks);
        assert(terms[j] == values[picks[j]]);
        assert(logprobs.keys().contains(logprobs.keys()[picks[j]]));
    }
}

/// The uniform distribution over the keys of a map: what a stable softmax is
/// where no log probability is above negative infinity.
pub fn uniform(logprobs: &LabelMap<Scalar>) -> (r: LabelMap<Scalar>)
    requires
        logprobs.keys().len() > 0,
    ensures
        r.keys() == logprobs.keys(),
        forall|k: Seq<char>| #[trigger]
            logprobs.keys().contains(k) ==> r@[k].is_reciprocal(logprobs.keys().len())
                && r@[k].share(),
{
    let n: usize = logprobs.len();
    let share = Scalar::reciprocal(n as u64);
    let mut r: LabelMap<Scalar> = LabelMap::new();
    assert(r.keys() =~= logprobs.keys().take(0));
    for i in 0..n
        invariant
            n == logprobs.keys().len(),
            logprobs.keys().no_duplicates(),
            r.keys() == logprobs.keys().take(i as int),
            forall|j: int| 0 <= j < i ==> r@[#[trigger] logprobs.keys()[j]] == share,
    {
        let ghost keys = logprobs.keys();
        proof {
            if keys.take(i as int).contains(keys[i as int]) {
                let j = keys.take(i as int).index_of(keys[i as int]);
                assert(keys[j] == keys[i as int]);
            }
            assert(keys.take(i + 1) =~= keys.take(i as int).push(keys[i as int]));
        }
        r.insert(logprobs.key_at(i).clone(), share);
    }
    assert(logprobs.keys().take(n as int) =~= logprobs.keys());
    r
}

/// The values of the labels that have one, in the order of the labels.
pub open spec fn masses(probabilities: Map<Seq<char>, Scalar>, labels: Seq<Seq<char>>) -> Seq<
    Scalar,
> {
    labels.filter(|l: Seq<char>| probabilities.contains_key(l)).map_values(
        |l: Seq<char>| probabilities[l],
    )
}

/// The probabilities of the labels of a cluster, whose sum is shared out anew
/// among them.
pub fn cluster_masses(probabilities: &LabelMap<Scalar>, labels: &[String]) -> (r: Vec<Scalar>)
    ensures
        r@ == masses(probabilities@, text::texts(labels@)),
{
    let mut r: Vec<Scalar> = Vec::new();
    let n: usize = labels.len();
    let ghost names = text::texts(labels@);
    proof {
        reveal(Seq::filter);
        assert(names.take(0) =~= Seq::<Seq<char>>::empty());
        assert(r@ =~= masses(probabilities@, names.take(0)));
    }
    for i in 0..n
        invariant
            n == labels@.len(),
            names == text::texts(labels@),
            r@ == masses(probabilities@, names.take(i as int)),
    {
        proof {
            reveal(Seq::filter);
            assert(names.take(i + 1).drop_last() =~= names.take(i as int));
            assert(names[i as int] == labels@[i as int]@);
        }
        match probabilities.get(labels[i].as_str()) {
            Some(p) => {
                r.push(*p);
                assert(r@ =~= masses(probabilities@, names.take(i + 1)));
            },
            None => {
                assert(r@ =~= masses(probabilities@, names.take(i + 1)));
            },
        }
    }
    assert(names.take(n as int) =~= names);
    r
}

/// The shares of the given labels, as far as they have one.
pub open spec fn shares_of(shares: Map<Seq<char>, Scalar>, labels: Seq<Seq<char>>) -> Map<
    Seq<char>,
    Scalar,
> {
    Map::new(|l: Seq<char>| labels.contains(l) && shares.contains_key(l), |l: Seq<char>| shares[l])
}

/// Gives the labels of a cluster their shares. No other probability changes.
pub fn reproportion(
    probabilities: &mut LabelMap<Scalar>,
    labels: &[String],
    shares: &LabelMap<Scalar>,
)
    ensures
        final(probabilities)@ == old(probabilities)@.union_prefer_right(
            shares_of(shares@, text::texts(labels@)),
        ),
        (forall|l: Seq<char>| #[trigger]
            text::texts(labels@).contains(l) ==> old(probabilities)@.contains_key(l))
            ==> final(probabilities).keys() == old(probabilities).keys(),
        forall|i: int|
            0 <= i < labels@.len() && shares@.contains_key((#[trigger] labels@[i])@)
                ==> final(probabilities)@.contains_key(labels@[i]@)
                && final(probabilities)@[labels@[i]@] == shares@[labels@[i]@],
        forall|l: Seq<char>|
            (forall|i: int| 0 <= i < labels@.len() ==> (#[trigger] labels@[i])@ != l) ==> (
            #[trigger] final(probabilities)@.contains_key(l) <==> old(probabilities)@.contains_key(l)) && (old(probabilities)@.contains_key(l) ==> final(probabilities)@[l] == old(probabilities)@[l]),
{
    let n: usize = labels.len();
    let ghost names = text::texts(labels@);
    let ghost first = *probabilities;
    proof {
        assert(first@ =~= first@.union_prefer_right(shares_of(shares@, names.take(0))));
    }
    for i in 0..n
        invariant
            n == names.len(),
            names == text::texts(labels@),
            probabilities@ == first@.union_prefer_right(shares_of(shares@, names.take(i as int))),
            (forall|l: Seq<char>| #[trigger] names.contains(l) ==> first@.contains_key(l))
                ==> probabilities.keys() == first.keys(),
    {
        let label = &labels[i];
        proof {
            assert(names[i as int] == label@);
            assert(names.contains(label@));
            assert(names.take(i + 1) =~= names.take(i as int).push(label@));
            label_map::lemma_distinct_push(names.take(i as int), label@);
        }
        if let Some(share) = shares.get(label.as_str()) {
            probabilities.insert(label.clone(), *share);
        }
        assert(probabilities@ =~= first@.union_prefer_right(
            shares_of(shares@, names.take(i + 1)),
        ));
    }
    assert(names.take(n as int) =~= names);
    proof {
        assert forall|i: int|
            0 <= i < labels@.len() && shares@.contains_key((#[trigger] labels@[i])@) implies probabilities@.contains_key(
            labels@[i]@,
        ) && probabilities@[labels@[i]@] == shares@[labels@[i]@] by {
            assert(names[i] == labels@[i]@);
            assert(names.contains(labels@[i]@));
        }
        assert forall|l: Seq<char>|
            (forall|i: int| 0 <= i < labels@.len() ==> (#[trigger] labels@[i])@ != l) implies (
        #[trigger] probabilities@.contains_key(l) <==> first@.contains_key(l)) && (
        first@.contains_key(l) ==> probabilities@[l] == first@[l]) by {
            if names.contains(l) {
                assert(labels@[names.index_of(l)]@ == l);
            }
        }
    }
}

// ---------------------------------------------------------------------------
// Clusters
// ---------------------------------------------------------------------------

/// A cluster of labels that share an unresolved token prefix.
#[derive(Debug, Clone)]
pub struct Cluster {
    /// Labels still unresolved in this cluster.
    pub labels: Vec<String>,
    /// Number of tokens already scored for every label of the cluster.
    pub resolved_length: usize,
}

/// What a [`Cluster`] says.
pub struct ClusterView {
    pub labels: Seq<Seq<char>>,
    pub resolved_length: nat,
}

impl Cluster {
    pub open spec fn view(&self) -> ClusterView {
        ClusterView {
            labels: text::texts(self.labels@),
            resolved_length: self.resolved_length as nat,
        }
    }
}

/// The views of a list of clusters.
pub open spec fn cluster_views(v: Seq<Cluster>) -> Seq<ClusterView> {
    v.map_values(|c: Cluster| c@)
}

/// The lengths of a map, as numbers.
pub open spec fn lengths_of(m: LabelMap<usize>) -> Map<Seq<char>, nat> {
    m@.map_values(|n: usize| n as nat)
}

/// The number of tokens of `label` scored so far.
pub open spec fn resolved_of(scored: Map<Seq<char>, nat>, label: Seq<char>) -> nat {
    if scored.contains_key(label) {
        scored[label]
    } else {
        0
    }
}

/// Whether some token of `label` is still to be scored.
pub open spec fn is_unresolved(
    tokens: Map<Seq<char>, Seq<Seq<char>>>,
    scored: Map<Seq<char>, nat>,
    label: Seq<char>,
) -> bool {
    resolved_of(scored, label) < tokens[label].len()
}

/// The tokens of `label` that are scored.
pub open spec fn scored_prefix(
    tokens: Map<Seq<char>, Seq<Seq<char>>>,
    scored: Map<Seq<char>, nat>,
    label: Seq<char>,
) -> Seq<Seq<char>> {
    tokens[label].take(resolved_of(scored, label) as int)
}

/// The unresolved labels whose scored tokens are `prefix`.
pub open spec fn sharing(
    keys: Seq<Seq<char>>,
    tokens: Map<Seq<char>, Seq<Seq<char>>>,
    scored: Map<Seq<char>, nat>,
    prefix: Seq<Seq<char>>,
) -> Seq<Seq<char>> {
    keys.filter(
        |l: Seq<char>|
            is_unresolved(tokens, scored, l) && scored_prefix(tokens, scored, l) == prefix,
    )
}

/// The scored prefixes of the unresolved labels, each once, in the order of
/// the labels.
pub open spec fn unresolved_prefixes(
    keys: Seq<Seq<char>>,
    tokens: Map<Seq<char>, Seq<Seq<char>>>,
    scored: Map<Seq<char>, nat>,
) -> Seq<Seq<Seq<char>>>
    decreases keys.len(),
{
    if keys.len() == 0 {
        Seq::empty()
    } else {
        let before = unresolved_prefixes(keys.drop_last(), tokens, scored);
        let prefix = scored_prefix(tokens, scored, keys.last());
        if is_unresolved(tokens, scored, keys.last()) && !before.contains(prefix) {
            before.push(prefix)
        } else {
            before
        }
    }
}

/// The clusters: for each scored prefix that two or more unresolved labels
/// share, those labels.
pub open spec fn unresolved_clusters(
    keys: Seq<Seq<char>>,
    tokens: Map<Seq<char>, Seq<Seq<char>>>,
    scored: Map<Seq<char>, nat>,
) -> Seq<ClusterView> {
    unresolved_prefixes(keys, tokens, scored).filter(
        |p: Seq<Seq<char>>| sharing(keys, tokens, scored, p).len() > 1,
    ).map_values(
        |p: Seq<Seq<char>>|
            ClusterView { labels: sharing(keys, tokens, scored, p), resolved_length: p.len() },
    )
}

/// Labels grouped by the tokens they are scored on.
struct Group {
    prefix: Vec<String>,
    labels: Vec<String>,
}

/// The group with the given prefix.
fn find_group(groups: &Vec<Group>, prefix: &Vec<String>) -> (r: Option<usize>)
    ensures
        match r {
            Some(g) => g < groups@.len() && text::texts(groups@[g as int].prefix@) == text::texts(
                prefix@,
            ),
            None => forall|g: int|
                0 <= g < groups@.len() ==> text::texts((#[trigger] groups@[g]).prefix@)
                    != text::texts(prefix@),
        },
{
    let n: usize = groups.len();
    for g in 0..n
        invariant
            n == groups@.len(),
            forall|j: int|
                0 <= j < g ==> text::texts((#[trigger] groups@[j]).prefix@) != text::texts(prefix@),
    {
        if text::same_texts(groups[g].prefix.as_slice(), prefix.as_slice()) {
            return Some(g);
        }
    }
    None
}

/// What the groups hold once the labels `keys` have been looked at.
spec fn grouped(
    groups: Seq<Group>,
    keys: Seq<Seq<char>>,
    tokens: Map<Seq<char>, Seq<Seq<char>>>,
    scored: Map<Seq<char>, nat>,
) -> bool {
    &&& groups.len() == unresolved_prefixes(keys, tokens, scored).len()
    &&& forall|g: int|
        0 <= g < groups.len() ==> {
            &&& text::texts((#[trigger] groups[g]).prefix@) == unresolved_prefixes(
                keys,
                tokens,
                scored,
            )[g]
            &&& text::texts(groups[g].labels@) == sharing(
                keys,
                tokens,
                scored,
                unresolved_prefixes(keys, tokens, scored)[g],
            )
        }
}

/// Every unresolved label has its prefix among the prefixes, and no prefix
/// occurs twice.
proof fn lemma_prefixes(
    keys: Seq<Seq<char>>,
    tokens: Map<Seq<char>, Seq<Seq<char>>>,
    scored: Map<Seq<char>, nat>,
)
    ensures
        unresolved_prefixes(keys, tokens, scored).no_duplicates(),
        forall|l: Seq<char>| #[trigger]
            keys.contains(l) && is_unresolved(tokens, scored, l) ==> unresolved_prefixes(
                keys,
                tokens,
                scored,
            ).contains(scored_prefix(tokens, scored, l)),
        forall|g: int|
            0 <= g < unresolved_prefixes(keys, tokens, scored).len() ==> sharing(
                keys,
                tokens,
                scored,
                #[trigger] unresolved_prefixes(keys, tokens, scored)[g],
            ).len() > 0,
    decreases keys.len(),
{
    if keys.len() > 0 {
        let rest = keys.drop_last();
        let last = keys.last();
        lemma_prefixes(rest, tokens, scored);
        let before = unresolved_prefixes(rest, tokens, scored);
        let all = unresolved_prefixes(keys, tokens, scored);
        assert forall|l: Seq<char>| #[trigger]
            keys.contains(l) && is_unresolved(tokens, scored, l) implies all.contains(
            scored_prefix(tokens, scored, l),
        ) by {
            let prefix = scored_prefix(tokens, scored, l);
            if rest.contains(l) {
                let g = before.index_of(prefix);
                assert(before[g] == prefix);
                assert(all[g] == prefix);
            } else {
                let i = keys.index_of(l);
                assert(keys[i] == l);
                assert(i == keys.len() - 1) by {
                    if i < keys.len() - 1 {
                        assert(rest[i] == l);
                    }
                }
                if !before.contains(prefix) {
                    assert(all[all.len() - 1] == prefix);
                }
            }
        }
        assert forall|g: int| 0 <= g < all.len() implies sharing(
            keys,
            tokens,
            scored,
            #[trigger] all[g],
        ).len() > 0 by {
            lemma_sharing_push(rest, last, tokens, scored, all[g]);
            assert(rest.push(last) =~= keys);
            if g < before.len() {
                assert(sharing(rest, tokens, scored, before[g]).len() > 0);
            }
        }
    }
}

/// What one more label adds to those sharing a prefix.
proof fn lemma_sharing_push(
    keys: Seq<Seq<char>>,
    label: Seq<char>,
    tokens: Map<Seq<char>, Seq<Seq<char>>>,
    scored: Map<Seq<char>, nat>,
    prefix: Seq<Seq<char>>,
)
    ensures
        sharing(keys.push(label), tokens, scored, prefix) == if is_unresolved(tokens, scored, label)
            && scored_prefix(tokens, scored, label) == prefix {
            sharing(keys, tokens, scored, prefix).push(label)
        } else {
            sharing(keys, tokens, scored, prefix)
        },
{
    reveal(Seq::filter);
    assert(keys.push(label).drop_last() =~= keys);
}

/// A prefix that is no prefix of an unresolved label is shared by none.
proof fn lemma_sharing_none(
    keys: Seq<Seq<char>>,
    tokens: Map<Seq<char>, Seq<Seq<char>>>,
    scored: Map<Seq<char>, nat>,
    prefix: Seq<Seq<char>>,
)
    requires
        !unresolved_prefixes(keys, tokens, scored).contains(prefix),
    ensures
        sharing(keys, tokens, scored, prefix) == Seq::<Seq<char>>::empty(),
    decreases keys.len(),
{
    reveal(Seq::filter);
    if keys.len() > 0 {
        let rest = keys.drop_last();
        let before = unresolved_prefixes(rest, tokens, scored);
        let all = unresolved_prefixes(keys, tokens, scored);
        if before.contains(prefix) {
            let g = before.index_of(prefix);
            assert(before[g] == prefix);
            assert(all[g] == prefix);
        }
        lemma_sharing_none(rest, tokens, scored, prefix);
        if is_unresolved(tokens, scored, keys.last()) && scored_prefix(tokens, scored, keys.last())
            == prefix {
            assert(all[all.len() - 1] == prefix);
        }
    }
}

/// Identify groups of labels that share a scored prefix and are not resolved,
/// and so need another constrained call to be told apart.
pub fn identify_unresolved_clusters(
    token_sequences: &LabelMap<Vec<String>>,
    scored_lengths: &LabelMap<usize>,
) -> (r: Vec<Cluster>)
    ensures
        cluster_views(r@) == unresolved_clusters(
            token_sequences.keys(),
            token_texts(*token_sequences),
            lengths_of(*scored_lengths),
        ),
{
    let n: usize = token_sequences.len();
    let ghost keys = token_sequences.keys();
    let ghost tokens = token_texts(*token_sequences);
    let ghost scored = lengths_of(*scored_lengths);
    let mut groups: Vec<Group> = Vec::new();
    assert(keys.take(0) =~= Seq::<Seq<char>>::empty());
    for i in 0..n
        invariant
            n == keys.len(),
            keys == token_sequences.keys(),
            tokens == token_texts(*token_sequences),
            scored == lengths_of(*scored_lengths),
            grouped(groups@, keys.take(i as int), tokens, scored),
    {
        let label = token_sequences.key_at(i);
        let seq = token_sequences.value_at(i);
        let resolved: usize = match scored_lengths.get(label.as_str()) {
            Some(k) => *k,
            None => 0,
        };
        let ghost seen = keys.take(i as int);
        proof {
            assert(keys.take(i + 1) =~= seen.push(label@));
            assert(seen.push(label@).drop_last() =~= seen);
            assert(resolved == resolved_of(scored, label@));
            assert(tokens[label@] == text::texts(seq@));
        }
        if resolved < seq.len() {
            let prefix = text::first_texts(seq.as_slice(), resolved);
            let ghost p = scored_prefix(tokens, scored, label@);
            let ghost before = unresolved_prefixes(seen, tokens, scored);
            proof {
                assert(text::texts(prefix@) =~= p);
                lemma_prefixes(seen, tokens, scored);
            }
            let ghost old_groups = groups@;
            match find_group(&groups, &prefix) {
                Some(g) => {
                    let mut group = Group { prefix, labels: Vec::new() };
                    core::mem::swap(&mut group.labels, &mut groups[g].labels);
                    group.labels.push(label.clone());
                    groups.set(g, group);
                    proof {
                        assert(before[g as int] == p);
                        assert(before.contains(p));
                        assert(unresolved_prefixes(seen.push(label@), tokens, scored) == before);
                        assert forall|h: int| 0 <= h < groups@.len() implies {
                            &&& text::texts((#[trigger] groups@[h]).prefix@) == before[h]
                            &&& text::texts(groups@[h].labels@) == sharing(
                                seen.push(label@),
                                tokens,
                                scored,
                                before[h],
                            )
                        } by {
                            lemma_sharing_push(seen, label@, tokens, scored, before[h]);
                            assert(old_groups[h].prefix@ == old_groups[h].prefix@);
                            if h == g {
                                assert(text::texts(groups@[h].labels@) =~= text::texts(
                                    old_groups[h].labels@,
                                ).push(label@));
                            } else {
                                assert(groups@[h] == old_groups[h]);
                                assert(before[h] != before[g as int]);
                            }
                        }
                    }
                },
                None => {
                    let mut labels: Vec<String> = Vec::new();
                    labels.push(label.clone());
                    groups.push(Group { prefix, labels });
                    proof {
                        if before.contains(p) {
                            let g = before.index_of(p);
                            assert(before[g] == p);
                            assert(text::texts(old_groups[g].prefix@) == p);
                        }
                        assert(unresolved_prefixes(seen.push(label@), tokens, scored)
                            == before.push(p));
                        assert forall|h: int| 0 <= h < groups@.len() implies {
                            &&& text::texts((#[trigger] groups@[h]).prefix@) == before.push(p)[h]
                            &&& text::texts(groups@[h].labels@) == sharing(
                                seen.push(label@),
                                tokens,
                                scored,
                                before.push(p)[h],
                            )
                        } by {
                            lemma_sharing_push(seen, label@, tokens, scored, before.push(p)[h]);
                            if h < before.len() {
                                assert(groups@[h] == old_groups[h]);
                                assert(before.contains(before[h]));
                            } else {
                                lemma_sharing_none(seen, tokens, scored, p);
                                assert(text::texts(groups@[h].labels@) =~= Seq::<
                                    Seq<char>,
                                >::empty().push(label@));
                            }
                        }
                    }
                },
            }
        } else {
            proof {
                let before = unresolved_prefixes(seen, tokens, scored);
                assert forall|h: int| 0 <= h < groups@.len() implies text::texts(
                    (#[trigger] groups@[h]).labels@,
                ) == sharing(seen.push(label@), tokens, scored, before[h]) by {
                    lemma_sharing_push(seen, label@, tokens, scored, before[h]);
                }
            }
        }
    }
    assert(keys.take(n as int) =~= keys);
    let ghost prefixes = unresolved_prefixes(keys, tokens, scored);
    let ghost shared = |p: Seq<Seq<char>>| sharing(keys, tokens, scored, p).len() > 1;
    let ghost as_cluster = |p: Seq<Seq<char>>|
        ClusterView { labels: sharing(keys, tokens, scored, p), resolved_length: p.len() };
    let mut r: Vec<Cluster> = Vec::new();
    let m: usize = groups.len();
    assert(prefixes.take(0).filter(shared) =~= Seq::<Seq<Seq<char>>>::empty()) by {
        reveal(Seq::filter);
    }
    assert(cluster_views(r@) =~= Seq::<Seq<Seq<char>>>::empty().map_values(as_cluster));
    for g in 0..m
        invariant
            m == groups@.len(),
            grouped(groups@, keys, tokens, scored),
            prefixes == unresolved_prefixes(keys, tokens, scored),
            shared == (|p: Seq<Seq<char>>| sharing(keys, tokens, scored, p).len() > 1),
            as_cluster == (|p: Seq<Seq<char>>|
                ClusterView { labels: sharing(keys, tokens, scored, p), resolved_length: p.len() }),
            cluster_views(r@) == prefixes.take(g as int).filter(shared).map_values(as_cluster),
    {
        let group = &groups[g];
        proof {
            reveal(Seq::filter);
            assert(prefixes.take(g + 1).drop_last() =~= prefixes.take(g as int));
            assert(text::texts(group.prefix@) == prefixes[g as int]);
            assert(text::texts(group.labels@).len() == group.labels@.len());
        }
        if group.labels.len() > 1 {
            let cluster = Cluster {
                labels: text::copy_texts(group.labels.as_slice()),
                resolved_length: group.prefix.len(),
            };
            let ghost before = r@;
            proof {
                assert(cluster@ == as_cluster(prefixes[g as int]));
            }
            r.push(cluster);
            assert(cluster_views(r@) =~= cluster_views(before).push(cluster@));
            assert(prefixes.take(g + 1).filter(shared).map_values(as_cluster) =~= prefixes.take(
                g as int,
            ).filter(shared).map_values(as_cluster).push(as_cluster(prefixes[g as int])));
        }
    }
    assert(prefixes.take(m as int) =~= prefixes);
    r
}

// ---------------------------------------------------------------------------
// Laws of means, maxima and shares
// ---------------------------------------------------------------------------

/// The terms of a mean are the log probabilities at all positions but those at
/// negative infinity and those that are no number, in their order: nothing else
/// is left out, and nothing is there twice. Where every position counts, the
/// terms are the whole sequence.
pub proof fn law_terms_are_all_above_negative_infinity(v: Seq<Scalar>)
    ensures
        selection::picked(
            v,
            valid_terms(v),
            |x: Scalar| !x.is_nan() && x.bits != 0xFFF0_0000_0000_0000,
        ),
        valid_terms(v).len() == selection::count_kept(
            v,
            |x: Scalar| !x.is_nan() && x.rank() > Scalar::spec_neg_infinity().rank(),
        ),
        (forall|i: int|
            0 <= i < v.len() ==> !(#[trigger] v[i]).is_nan() && v[i].bits != 0xFFF0_0000_0000_0000)
            ==> valid_terms(v) == v,
{
    let keep = |x: Scalar| x.valid();
    let plain = |x: Scalar| !x.is_nan() && x.bits != 0xFFF0_0000_0000_0000;
    let ranked = |x: Scalar| !x.is_nan() && x.rank() > Scalar::spec_neg_infinity().rank();
    assert forall|x: Scalar| #[trigger] keep(x) == plain(x) && keep(x) == ranked(x) by {
        crate::scalar::law_kinds_of_scalars(x);
    }
    assert(keep =~= plain);
    assert(keep =~= ranked);
    selection::lemma_filter_picks(v, keep);
    selection::lemma_picked_count(v, valid_terms(v), keep);
    if forall|i: int|
        0 <= i < v.len() ==> !(#[trigger] v[i]).is_nan() && v[i].bits != 0xFFF0_0000_0000_0000 {
        assert forall|p: int| 0 <= p < v.len() implies keep(#[trigger] v[p]) by {
            assert(plain(v[p]));
        }
    }
}

/// The terms of two sequences together are those of the one and those of the
/// other.
pub proof fn law_terms_of_parts(a: Seq<Scalar>, b: Seq<Scalar>)
    ensures
        valid_terms(a + b) == valid_terms(a) + valid_terms(b),
{
    Seq::filter_distributes_over_add(a, b, |x: Scalar| x.valid());
}

/// A map has as many values as keys, and the value at each position is that of
/// the key there.
pub proof fn law_values_stand_by_their_keys(m: LabelMap<Scalar>)
    ensures
        values_of(m).len() == m.keys().len(),
        forall|i: int| 0 <= i < m.keys().len() ==> #[trigger] values_of(m)[i] == m@[m.keys()[i]],
{
}

/// What is said of maps and lists of strings, numbers and clusters is said of
/// each of their entries, under its own key or in its own place.
pub proof fn law_views_are_those_of_the_entries(
    sequences: LabelMap<Vec<String>>,
    details: LabelMap<Vec<Scalar>>,
    lengths: LabelMap<usize>,
    steps: Seq<LabelMap<Scalar>>,
    clusters: Seq<Cluster>,
    label: Seq<char>,
    i: int,
)
    ensures
        token_texts(sequences).contains_key(label) <==> sequences.keys().contains(label),
        sequences.keys().contains(label) ==> token_texts(sequences)[label] == text::texts(
            sequences@[label]@,
        ),
        scalars_of(details).contains_key(label) <==> details.keys().contains(label),
        details.keys().contains(label) ==> scalars_of(details)[label] == details@[label]@,
        lengths_of(lengths).contains_key(label) <==> lengths.keys().contains(label),
        lengths.keys().contains(label) ==> lengths_of(lengths)[label] == lengths@[label],
        maps_of(steps).len() == steps.len(),
        0 <= i < steps.len() ==> maps_of(steps)[i] == steps[i]@,
        cluster_views(clusters).len() == clusters.len(),
        0 <= i < clusters.len() ==> cluster_views(clusters)[i].labels == text::texts(
            clusters[i].labels@,
        ) && cluster_views(clusters)[i].resolved_length == clusters[i].resolved_length,
{
}

/// The masses of a cluster are the probabilities of its labels, in their order,
/// none left out but those of labels without one. Where all labels have one,
/// there are as many masses as labels, each that of its label.
pub proof fn law_masses_are_the_probabilities(
    probabilities: Map<Seq<char>, Scalar>,
    labels: Seq<Seq<char>>,
)
    ensures
        exists|picks: Seq<int>| #[trigger]
            selection::ascending(picks, labels.len() as int) && picks.len() == masses(
                probabilities,
                labels,
            ).len() && (forall|i: int|
                0 <= i < picks.len() ==> #[trigger] masses(probabilities, labels)[i]
                    == probabilities[labels[picks[i]]]) && forall|p: int|
                0 <= p < labels.len() ==> (probabilities.contains_key(#[trigger] labels[p])
                    <==> picks.contains(p)),
        (forall|i: int| 0 <= i < labels.len() ==> probabilities.contains_key(#[trigger] labels[i]))
            ==> masses(probabilities, labels).len() == labels.len() && forall|i: int|
            0 <= i < labels.len() ==> #[trigger] masses(probabilities, labels)[i]
                == probabilities[labels[i]],
{
    let keep = |l: Seq<char>| probabilities.contains_key(l);
    let kept = labels.filter(keep);
    selection::lemma_filter_picks(labels, keep);
    selection::lemma_picked_count(labels, kept, keep);
    let picks = choose|picks: Seq<int>| #[trigger]
        selection::picked_at(labels, kept, keep, picks);
    assert(selection::ascending(picks, labels.len() as int));
    assert forall|p: int| 0 <= p < labels.len() implies (probabilities.contains_key(
        #[trigger] labels[p],
    ) <==> picks.contains(p)) by {
        assert(keep(labels[p]) <==> picks.contains(p));
    }
    if forall|i: int| 0 <= i < labels.len() ==> probabilities.contains_key(#[trigger] labels[i]) {
        assert forall|p: int| 0 <= p < labels.len() implies keep(#[trigger] labels[p]) by {}
        assert(kept == labels);
    }
}

/// The masses of two groups together are those of the one and those of the
/// other.
pub proof fn law_masses_of_parts(
    probabilities: Map<Seq<char>, Scalar>,
    a: Seq<Seq<char>>,
    b: Seq<Seq<char>>,
)
    ensures
        masses(probabilities, a + b) == masses(probabilities, a) + masses(probabilities, b),
{
    let keep = |l: Seq<char>| probabilities.contains_key(l);
    Seq::filter_distributes_over_add(a, b, keep);
    assert(masses(probabilities, a + b) =~= masses(probabilities, a) + masses(probabilities, b));
}

/// A label gets its share where it is among the labels and has one; no other
/// label gets any.
pub proof fn law_shares_go_to_the_labels(
    shares: Map<Seq<char>, Scalar>,
    labels: Seq<Seq<char>>,
    label: Seq<char>,
)
    ensures
        shares_of(shares, labels).contains_key(label) <==> shares.contains_key(label) && exists|
            i: int,
        |
            0 <= i < labels.len() && #[trigger] labels[i] == label,
        shares_of(shares, labels).contains_key(label) ==> shares_of(shares, labels)[label]
            == shares[label],
{
}

/// A label has as many log probabilities as tokens are read, each that of its
/// own token among the candidates at its own position; negative infinity where
/// the token is no candidate there.
pub proof fn law_path_is_read_position_by_position(
    seq: Seq<Seq<char>>,
    n: nat,
    steps: Seq<Map<Seq<char>, Scalar>>,
)
    ensures
        path_logprobs(seq, n, steps).len() == n,
        forall|i: int|
            0 <= i < n && i < steps.len() && steps[i].contains_key(seq[i])
                ==> #[trigger] path_logprobs(seq, n, steps)[i] == steps[i][seq[i]],
        forall|i: int|
            0 <= i < n && !(i < steps.len() && steps[i].contains_key(seq[i]))
                ==> (#[trigger] path_logprobs(seq, n, steps)[i]).bits == 0xFFF0_0000_0000_0000,
{
}

// ---------------------------------------------------------------------------
// Laws of divergence and clusters
// ---------------------------------------------------------------------------

/// A token of a label is scored exactly where every token before it is also
/// that of the emitted label: the call then weighed it as an alternative.
pub proof fn law_scored_tokens_follow_shared_ones(
    seq: Seq<Seq<char>>,
    winning: Seq<Seq<char>>,
    i: int,
)
    requires
        0 <= i < seq.len(),
    ensures
        i < covered(seq, winning) <==> agree_below(seq, winning, i),
        i < divergence(seq, winning) <==> agree_below(seq, winning, i + 1),
{
    lemma_divergence(seq, winning);
    let d = divergence(seq, winning) as int;
    assert forall|j: int| 0 <= j < d implies j < winning.len() && #[trigger] seq[j]
        == winning[j] by {}
    if agree_below(seq, winning, i) && i > d {
        assert(seq[d] == winning[d]);
        assert(false);
    }
    if agree_below(seq, winning, i + 1) && i >= d {
        assert(seq[d] == winning[d]);
        assert(false);
    }
    assert(i <= d ==> agree_below(seq, winning, i));
    assert(i < d ==> agree_below(seq, winning, i + 1));
}

/// Whether two token sequences have the same tokens below `i`.
pub open spec fn agree_below(a: Seq<Seq<char>>, b: Seq<Seq<char>>, i: int) -> bool {
    forall|j: int| 0 <= j < i ==> j < b.len() && #[trigger] a[j] == b[j]
}

/// What is scored of a label is none of it where nothing was recorded; a label
/// is unresolved where it has more tokens than are scored, and its scored
/// tokens are the first ones.
pub proof fn law_scored_part_of_label(
    tokens: Map<Seq<char>, Seq<Seq<char>>>,
    scored: Map<Seq<char>, nat>,
    label: Seq<char>,
)
    ensures
        scored.contains_key(label) ==> resolved_of(scored, label) == scored[label],
        !scored.contains_key(label) ==> resolved_of(scored, label) == 0,
        is_unresolved(tokens, scored, label) <==> tokens[label].len() > resolved_of(scored, label),
        tokens.contains_key(label) ==> tokens_of(tokens, label) == tokens[label],
        !tokens.contains_key(label) ==> tokens_of(tokens, label).len() == 0,
        resolved_of(scored, label) <= tokens[label].len() ==> scored_prefix(
            tokens,
            scored,
            label,
        ).len() == resolved_of(scored, label) && forall|i: int|
            0 <= i < resolved_of(scored, label) ==> #[trigger] scored_prefix(
                tokens,
                scored,
                label,
            )[i] == tokens[label][i],
{
}

/// The divergence does not depend on the order of the two sequences, and a
/// sequence diverges from itself only at its end.
pub proof fn law_divergence_symmetric(a: Seq<Seq<char>>, b: Seq<Seq<char>>)
    ensures
        divergence(a, b) == divergence(b, a),
        divergence(a, a) == a.len(),
{
    lemma_divergence(a, b);
    lemma_divergence_is(b, a, divergence(a, b));
    lemma_divergence_is(a, a, a.len());
}

/// What a call scores of a label: never more than the label has, the whole of
/// the label that was emitted, and at least one token of every label that has
/// any.
pub proof fn law_covered(seq: Seq<Seq<char>>, winning: Seq<Seq<char>>)
    ensures
        covered(seq, winning) <= seq.len(),
        divergence(seq, winning) <= covered(seq, winning),
        covered(seq, seq) == seq.len(),
        seq.len() > 0 ==> covered(seq, winning) > 0,
        seq.len() <= 1 ==> covered(seq, winning) == seq.len(),
{
    lemma_divergence(seq, winning);
    law_divergence_symmetric(seq, seq);
}

/// Filtering keeps elements distinct.
proof fn lemma_filter_distinct<A>(s: Seq<A>, p: spec_fn(A) -> bool)
    requires
        s.no_duplicates(),
    ensures
        s.filter(p).no_duplicates(),
        forall|x: A| #[trigger] s.filter(p).contains(x) <==> s.contains(x) && p(x),
    decreases s.len(),
{
    reveal(Seq::filter);
    if s.len() > 0 {
        let rest = s.drop_last();
        let last = s.last();
        lemma_filter_distinct(rest, p);
        let before = rest.filter(p);
        let all = s.filter(p);
        assert(!rest.contains(last));
        assert(!before.contains(last));
        assert forall|i: int, j: int| 0 <= i < j < all.len() implies all[i] != all[j] by {
            if j < before.len() {
                assert(before[i] != before[j]);
            } else {
                assert(before.contains(before[i]));
            }
        }
        assert forall|x: A| #[trigger] all.contains(x) <==> s.contains(x) && p(x) by {
            if all.contains(x) {
                let i = all.index_of(x);
                assert(all[i] == x);
                if i < before.len() {
                    assert(before[i] == x);
                    assert(before.contains(x));
                    assert(s[rest.index_of(x)] == x);
                } else {
                    assert(s[s.len() - 1] == x);
                }
            }
            if s.contains(x) && p(x) {
                let i = s.index_of(x);
                assert(s[i] == x);
                if i < rest.len() {
                    assert(rest[i] == x);
                    assert(before.contains(x));
                    assert(all[before.index_of(x)] == x);
                } else {
                    assert(all[all.len() - 1] == x);
                }
            }
        }
    }
}

/// A cluster has at least two labels, all of them distinct, known and
/// unresolved, and all scored on the same tokens.
pub proof fn law_cluster(
    keys: Seq<Seq<char>>,
    tokens: Map<Seq<char>, Seq<Seq<char>>>,
    scored: Map<Seq<char>, nat>,
    i: int,
)
    requires
        keys.no_duplicates(),
        0 <= i < unresolved_clusters(keys, tokens, scored).len(),
    ensures
        ({
            let c = unresolved_clusters(keys, tokens, scored)[i];
            &&& c.labels.len() >= 2
            &&& c.labels.no_duplicates()
            &&& forall|l: Seq<char>| #[trigger]
                c.labels.contains(l) ==> keys.contains(l) && is_unresolved(tokens, scored, l)
                    && resolved_of(scored, l) == c.resolved_length
            &&& forall|l: Seq<char>, k: Seq<char>|
                #![trigger c.labels.contains(l), c.labels.contains(k)]
                c.labels.contains(l) && c.labels.contains(k) ==> scored_prefix(tokens, scored, l)
                    == scored_prefix(tokens, scored, k)
        }),
{
    let prefixes = unresolved_prefixes(keys, tokens, scored);
    let shared = |p: Seq<Seq<char>>| sharing(keys, tokens, scored, p).len() > 1;
    let kept = prefixes.filter(shared);
    let p = kept[i];
    prefixes.lemma_filter_pred(shared, i);
    lemma_filter_distinct(
        keys,
        |l: Seq<char>| is_unresolved(tokens, scored, l) && scored_prefix(tokens, scored, l) == p,
    );
}

/// No label is in two clusters.
pub proof fn law_clusters_disjoint(
    keys: Seq<Seq<char>>,
    tokens: Map<Seq<char>, Seq<Seq<char>>>,
    scored: Map<Seq<char>, nat>,
    i: int,
    j: int,
    label: Seq<char>,
)
    requires
        keys.no_duplicates(),
        0 <= i < unresolved_clusters(keys, tokens, scored).len(),
        0 <= j < unresolved_clusters(keys, tokens, scored).len(),
        unresolved_clusters(keys, tokens, scored)[i].labels.contains(label),
        unresolved_clusters(keys, tokens, scored)[j].labels.contains(label),
    ensures
        i == j,
{
    let prefixes = unresolved_prefixes(keys, tokens, scored);
    let shared = |p: Seq<Seq<char>>| sharing(keys, tokens, scored, p).len() > 1;
    let kept = prefixes.filter(shared);
    lemma_prefixes(keys, tokens, scored);
    lemma_filter_distinct(prefixes, shared);
    lemma_filter_distinct(
        keys,
        |l: Seq<char>|
            is_unresolved(tokens, scored, l) && scored_prefix(tokens, scored, l) == kept[i],
    );
    lemma_filter_distinct(
        keys,
        |l: Seq<char>|
            is_unresolved(tokens, scored, l) && scored_prefix(tokens, scored, l) == kept[j],
    );
}

/// Two unresolved labels that are scored on the same tokens are in a common
/// cluster.
pub proof fn law_clusters_complete(
    keys: Seq<Seq<char>>,
    tokens: Map<Seq<char>, Seq<Seq<char>>>,
    scored: Map<Seq<char>, nat>,
    a: Seq<char>,
    b: Seq<char>,
)
    requires
        keys.no_duplicates(),
        keys.contains(a),
        keys.contains(b),
        a != b,
        is_unresolved(tokens, scored, a),
        is_unresolved(tokens, scored, b),
        scored_prefix(tokens, scored, a) == scored_prefix(tokens, scored, b),
    ensures
        exists|i: int|
            0 <= i < unresolved_clusters(keys, tokens, scored).len()
                && (#[trigger] unresolved_clusters(keys, tokens, scored)[i]).labels.contains(a)
                && unresolved_clusters(keys, tokens, scored)[i].labels.contains(b),
{
    let prefixes = unresolved_prefixes(keys, tokens, scored);
    let shared = |p: Seq<Seq<char>>| sharing(keys, tokens, scored, p).len() > 1;
    let kept = prefixes.filter(shared);
    let p = scored_prefix(tokens, scored, a);
    lemma_prefixes(keys, tokens, scored);
    lemma_filter_distinct(
        keys,
        |l: Seq<char>| is_unresolved(tokens, scored, l) && scored_prefix(tokens, scored, l) == p,
    );
    let members = sharing(keys, tokens, scored, p);
    assert(members.contains(a) && members.contains(b));
    assert(members.index_of(a) != members.index_of(b)) by {
        assert(members[members.index_of(a)] == a);
        assert(members[members.index_of(b)] == b);
    }
    assert(members.len() > 1);
    let g = prefixes.index_of(p);
    assert(prefixes.contains(p));
    assert(prefixes[g] == p);
    prefixes.lemma_filter_contains(shared, g);
    let i = kept.index_of(p);
    assert(kept[i] == p);
    assert(unresolved_clusters(keys, tokens, scored)[i].labels == members);
}

/// The number of labels in a list of clusters.
pub open spec fn member_count(clusters: Seq<ClusterView>) -> nat
    decreases clusters.len(),
{
    if clusters.len() == 0 {
        0
    } else {
        member_count(clusters.drop_last()) + clusters.last().labels.len()
    }
}

/// Disjoint clusters of distinct labels out of a set hold no more labels than
/// the set.
proof fn lemma_member_count(clusters: Seq<ClusterView>, all: Set<Seq<char>>)
    requires
        all.finite(),
        forall|i: int| 0 <= i < clusters.len() ==> (#[trigger] clusters[i]).labels.no_duplicates(),
        forall|i: int, l: Seq<char>|
            0 <= i < clusters.len() && #[trigger] clusters[i].labels.contains(l) ==> all.contains(
                l,
            ),
        forall|i: int, j: int, l: Seq<char>|
            0 <= i < clusters.len() && 0 <= j < clusters.len()
                && #[trigger] clusters[i].labels.contains(l)
                && #[trigger] clusters[j].labels.contains(l) ==> i == j,
    ensures
        member_count(clusters) <= all.len(),
    decreases clusters.len(),
{
    if clusters.len() > 0 {
        let rest = clusters.drop_last();
        let last = clusters.last();
        let own = last.labels.to_set();
        last.labels.unique_seq_to_set();
        assert forall|l: Seq<char>| own.contains(l) implies all.contains(l) by {
            assert(clusters[clusters.len() - 1].labels.contains(l));
        }
        assert(own.subset_of(all));
        vstd::set_lib::lemma_set_subset_finite(all, own);
        vstd::set_lib::lemma_set_difference_len(all, own);
        assert forall|i: int, l: Seq<char>|
            0 <= i < rest.len() && #[trigger] rest[i].labels.contains(l) implies all.difference(
            own,
        ).contains(l) by {
            assert(clusters[i].labels.contains(l));
            if own.contains(l) {
                assert(clusters[clusters.len() - 1].labels.contains(l));
            }
        }
        assert forall|i: int, j: int, l: Seq<char>|
            0 <= i < rest.len() && 0 <= j < rest.len() && #[trigger] rest[i].labels.contains(l)
                && #[trigger] rest[j].labels.contains(l) implies i == j by {
            assert(clusters[i].labels.contains(l) && clusters[j].labels.contains(l));
        }
        lemma_member_count(rest, all.difference(own));
        assert(all.intersect(own) =~= own);
    }
}

/// Together the clusters hold at most all labels, and one less where a label
/// is resolved.
pub proof fn law_clusters_shrink(
    keys: Seq<Seq<char>>,
    tokens: Map<Seq<char>, Seq<Seq<char>>>,
    scored: Map<Seq<char>, nat>,
)
    requires
        keys.no_duplicates(),
    ensures
        member_count(unresolved_clusters(keys, tokens, scored)) <= keys.len(),
        forall|w: Seq<char>| #[trigger]
            keys.contains(w) && !is_unresolved(tokens, scored, w) ==> member_count(
                unresolved_clusters(keys, tokens, scored),
            ) < keys.len(),
{
    let clusters = unresolved_clusters(keys, tokens, scored);
    let all = keys.to_set();
    keys.unique_seq_to_set();
    assert forall|i: int| 0 <= i < clusters.len() implies (
    #[trigger] clusters[i]).labels.no_duplicates() by {
        law_cluster(keys, tokens, scored, i);
    }
    assert forall|i: int, l: Seq<char>|
        0 <= i < clusters.len() && #[trigger] clusters[i].labels.contains(l) implies all.contains(
        l,
    ) && is_unresolved(tokens, scored, l) by {
        law_cluster(keys, tokens, scored, i);
    }
    assert forall|i: int, j: int, l: Seq<char>|
        0 <= i < clusters.len() && 0 <= j < clusters.len()
            && #[trigger] clusters[i].labels.contains(l)
            && #[trigger] clusters[j].labels.contains(l) implies i == j by {
        law_clusters_disjoint(keys, tokens, scored, i, j, l);
    }
    lemma_member_count(clusters, all);
    assert forall|w: Seq<char>| #[trigger]
        keys.contains(w) && !is_unresolved(tokens, scored, w) implies member_count(clusters)
        < keys.len() by {
        lemma_member_count(clusters, all.remove(w));
    }
}

} // verus!
