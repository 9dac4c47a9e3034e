//! The state of an adaptive run: which labels are scored how far, and which
//! constrained call comes next.

use crate::backends::base;
use crate::backends::base::{ChatResponse, TokenLogprob};
use crate::classifier;
use crate::classifier::{extract_step_logprobs, predict};
use crate::label_map;
use crate::label_map::LabelMap;
use crate::scalar::Scalar;
use crate::scoring;
use crate::scoring::{get_covered_lengths, identify_unresolved_clusters, Cluster};
use crate::text;
use crate::trie::LabelTrie;
use crate::types::{ClassificationResult, Coverage, RawResponse};
use vstd::prelude::*;

verus! {

broadcast use LabelMap::lemma_keys;

// ---------------------------------------------------------------------------
// The run
// ---------------------------------------------------------------------------

/// The tokens of the labels of a cluster.
pub open spec fn cluster_tokens(
    tokens: Map<Seq<char>, Seq<Seq<char>>>,
    labels: Seq<Seq<char>>,
) -> Map<Seq<char>, Seq<Seq<char>>> {
    Map::new(|l: Seq<char>| labels.contains(l), |l: Seq<char>| tokens[l])
}

/// The beginnings of the token sequences of the given labels.
pub open spec fn label_paths(
    labels: Seq<Seq<char>>,
    tokens: Map<Seq<char>, Seq<Seq<char>>>,
) -> Set<Seq<Seq<char>>> {
    Set::new(
        |path: Seq<Seq<char>>|
            path.len() == 0 || exists|l: Seq<char>|
                #![trigger tokens[l]]
                labels.contains(l) && tokens.contains_key(l) && path.is_prefix_of(tokens[l]),
    )
}

/// Every label has as many log probabilities as tokens scored, and no more than
/// it has tokens.
pub open spec fn within(
    tokens: Map<Seq<char>, Seq<Seq<char>>>,
    logprobs: Map<Seq<char>, Seq<Scalar>>,
    lengths: Map<Seq<char>, nat>,
) -> bool {
    &&& logprobs.dom() == lengths.dom()
    &&& forall|l: Seq<char>| #[trigger]
        lengths.contains_key(l) ==> lengths[l] <= scoring::tokens_of(tokens, l).len()
            && logprobs[l].len() == lengths[l]
}

/// The known labels are distinct and are those with tokens; a cluster has at
/// least two labels, distinct and known.
pub open spec fn kept(
    known: Seq<Seq<char>>,
    tokens: Map<Seq<char>, Seq<Seq<char>>>,
    frontier: Seq<scoring::ClusterView>,
) -> bool {
    &&& known.no_duplicates()
    &&& forall|l: Seq<char>| #[trigger] tokens.contains_key(l) <==> known.contains(l)
    &&& forall|i: int|
        0 <= i < frontier.len() ==> {
            &&& (#[trigger] frontier[i]).labels.len() >= 2
            &&& frontier[i].labels.no_duplicates()
            &&& forall|l: Seq<char>| #[trigger] frontier[i].labels.contains(l) ==> known.contains(l)
        }
}

/// What is known at one point of an adaptive run.
#[verifier::ext_equal]
pub struct RunView {
    /// The labels offered, in order.
    pub labels: Seq<Seq<char>>,
    /// The labels with tokens, in order.
    pub known: Seq<Seq<char>>,
    /// The tokens of each known label.
    pub tokens: Map<Seq<char>, Seq<Seq<char>>>,
    /// The log probabilities last used for each label.
    pub logprobs: Map<Seq<char>, Seq<Scalar>>,
    /// How many tokens of each label are scored.
    pub lengths: Map<Seq<char>, nat>,
    /// The clusters still to be resolved, in order.
    pub frontier: Seq<scoring::ClusterView>,
    /// The calls made.
    pub calls: nat,
    /// The most calls to make; any number where there is no limit.
    pub max_calls: Option<nat>,
}

impl RunView {
    /// Before the first call.
    pub open spec fn started(
        labels: Seq<Seq<char>>,
        known: Seq<Seq<char>>,
        tokens: Map<Seq<char>, Seq<Seq<char>>>,
        max_calls: Option<nat>,
    ) -> RunView {
        RunView {
            labels,
            known,
            tokens,
            logprobs: Map::empty(),
            lengths: Map::empty(),
            frontier: Seq::empty(),
            calls: 0,
            max_calls,
        }
    }

    /// The beginnings of the token sequences of the labels offered.
    pub open spec fn paths(self) -> Set<Seq<Seq<char>>> {
        label_paths(self.labels, self.tokens)
    }

    /// The labels and clusters are as they are kept.
    pub open spec fn wf(self) -> bool {
        kept(self.known, self.tokens, self.frontier)
    }

    /// Every label has as many log probabilities as tokens scored, and no more
    /// than it has tokens.
    pub open spec fn scored_within(self) -> bool {
        within(self.tokens, self.logprobs, self.lengths)
    }

    /// How much of `label` the first call scores, where it emits `winner`.
    pub open spec fn first_length(self, label: Seq<char>, winner: Seq<char>) -> nat {
        scoring::covered(
            scoring::tokens_of(self.tokens, label),
            scoring::tokens_of(self.tokens, winner),
        )
    }

    /// After the first call, over all labels. Every label is scored as far as
    /// the call reaches it, and labels that it leaves together form the
    /// frontier.
    pub open spec fn after_first(
        self,
        winner: Seq<char>,
        emitted: Seq<base::TokenLogprobView>,
    ) -> RunView {
        let steps = classifier::step_maps(self.paths(), emitted);
        let lengths = Map::new(
            |l: Seq<char>| self.labels.contains(l),
            |l: Seq<char>| self.first_length(l, winner),
        );
        RunView {
            logprobs: Map::new(
                |l: Seq<char>| self.labels.contains(l),
                |l: Seq<char>|
                    scoring::path_logprobs(
                        scoring::tokens_of(self.tokens, l),
                        self.first_length(l, winner),
                        steps,
                    ),
            ),
            lengths,
            frontier: scoring::unresolved_clusters(self.known, self.tokens, lengths),
            calls: 1,
            ..self
        }
    }

    /// Whether another call is to be made: some cluster is unresolved and the
    /// limit is not reached.
    pub open spec fn wants_call(self) -> bool {
        self.frontier.len() > 0 && match self.max_calls {
            Some(m) => self.calls < m,
            None => true,
        }
    }

    /// How much of a label of the first cluster a call over that cluster
    /// scores, where it emits `winner`.
    pub open spec fn cluster_length(self, label: Seq<char>, winner: Seq<char>) -> nat {
        scoring::covered(
            self.tokens[label],
            scoring::tokens_of(cluster_tokens(self.tokens, self.frontier[0].labels), winner),
        )
    }

    /// Whether a call over the first cluster scores more of `label` than is
    /// scored so far.
    pub open spec fn improves(self, label: Seq<char>, winner: Seq<char>) -> bool {
        self.frontier[0].labels.contains(label) && self.cluster_length(label, winner)
            > scoring::resolved_of(self.lengths, label)
    }

    /// After a call over the first cluster. The log probabilities of its
    /// labels are replaced where the call reached further, and the labels that
    /// it leaves together are added to the frontier.
    pub open spec fn after_cluster(
        self,
        winner: Seq<char>,
        emitted: Seq<base::TokenLogprobView>,
    ) -> RunView {
        let steps = classifier::step_maps(self.paths(), emitted);
        let labels = self.frontier[0].labels;
        RunView {
            logprobs: Map::new(
                |l: Seq<char>| self.logprobs.contains_key(l) || self.improves(l, winner),
                |l: Seq<char>|
                    if self.improves(l, winner) {
                        scoring::path_logprobs(self.tokens[l], self.cluster_length(l, winner), steps)
                    } else {
                        self.logprobs[l]
                    },
            ),
            lengths: Map::new(
                |l: Seq<char>| self.lengths.contains_key(l) || self.improves(l, winner),
                |l: Seq<char>|
                    if self.improves(l, winner) {
                        self.cluster_length(l, winner)
                    } else {
                        self.lengths[l]
                    },
            ),
            frontier: self.frontier.skip(1) + scoring::unresolved_clusters(
                labels,
                cluster_tokens(self.tokens, labels),
                Map::new(
                    |l: Seq<char>| labels.contains(l),
                    |l: Seq<char>| self.cluster_length(l, winner),
                ),
            ),
            calls: self.calls + 1,
            ..self
        }
    }
}

/// How far each label is scored, and on which log probabilities.
#[derive(Debug)]
struct Scores {
    logprobs: LabelMap<Vec<Scalar>>,
    lengths: LabelMap<usize>,
}

impl Scores {
    fn new() -> (r: Self)
        ensures
            scoring::scalars_of(r.logprobs) == Map::<Seq<char>, Seq<Scalar>>::empty(),
            scoring::lengths_of(r.lengths) == Map::<Seq<char>, nat>::empty(),
    {
        let r = Scores { logprobs: LabelMap::new(), lengths: LabelMap::new() };
        assert(scoring::scalars_of(r.logprobs) =~= Map::<Seq<char>, Seq<Scalar>>::empty());
        assert(scoring::lengths_of(r.lengths) =~= Map::<Seq<char>, nat>::empty());
        r
    }
}

/// Hierarchical constrained scoring over a set of labels, one backend call at
/// a time.
///
/// The first call is constrained to all labels; further calls are constrained
/// to one cluster each. The calls themselves, and the arithmetic on log
/// probabilities, are the caller's.
#[derive(Debug)]
pub struct AdaptiveRun {
    labels: Vec<String>,
    token_sequences: LabelMap<Vec<String>>,
    trie: LabelTrie,
    scores: Scores,
    frontier: Vec<Cluster>,
    calls_made: usize,
    max_calls: Option<usize>,
}

impl AdaptiveRun {
    pub closed spec fn view(&self) -> RunView {
        RunView {
            labels: text::texts(self.labels@),
            known: self.token_sequences.keys(),
            tokens: scoring::token_texts(self.token_sequences),
            logprobs: scoring::scalars_of(self.scores.logprobs),
            lengths: scoring::lengths_of(self.scores.lengths),
            frontier: scoring::cluster_views(self.frontier@),
            calls: self.calls_made as nat,
            max_calls: match self.max_calls {
                Some(m) => Some(m as nat),
                None => None,
            },
        }
    }

    #[verifier::type_invariant]
    spec fn consistent(self) -> bool {
        &&& self@.wf()
        &&& self@.scored_within()
        &&& self.trie.paths() == self@.paths()
    }

    /// A run over `labels` with the given token sequences, before its first
    /// call.
    pub fn new(
        labels: &[String],
        token_sequences: LabelMap<Vec<String>>,
        max_calls: Option<usize>,
    ) -> (r: Self)
        ensures
            r@ == RunView::started(
                text::texts(labels@),
                token_sequences.keys(),
                scoring::token_texts(token_sequences),
                match max_calls {
                    Some(m) => Some(m as nat),
                    None => None,
                },
            ),
    {
        let mut trie = LabelTrie::new();
        let n: usize = labels.len();
        let ghost names = text::texts(labels@);
        let ghost tokens = scoring::token_texts(token_sequences);
        assert(trie.paths() =~= label_paths(names.take(0), tokens));
        for i in 0..n
            invariant
                n == labels@.len(),
                names == text::texts(labels@),
                tokens == scoring::token_texts(token_sequences),
                trie.paths() == label_paths(names.take(i as int), tokens),
        {
            proof {
                lemma_label_paths(names, tokens, i as int);
            }
            if let Some(seq) = token_sequences.get(labels[i].as_str()) {
                trie.insert(labels[i].as_str(), seq.as_slice());
                assert(tokens[names[i as int]] == text::texts(seq@));
            }
            assert(trie.paths() =~= label_paths(names.take(i + 1), tokens));
        }
        // The keys of a map are distinct.
        let _known: usize = token_sequences.len();
        assert(names.take(n as int) =~= names);
        let ghost started = RunView::started(
            names,
            token_sequences.keys(),
            tokens,
            match max_calls {
                Some(m) => Some(m as nat),
                None => None,
            },
        );
        let scores = Scores::new();
        let frontier: Vec<Cluster> = Vec::new();
        assert(scoring::cluster_views(frontier@) =~= started.frontier);
        AdaptiveRun {
            labels: text::copy_texts(labels),
            token_sequences,
            trie,
            scores,
            frontier,
            calls_made: 0,
            max_calls,
        }
    }

    /// The log probabilities and lengths that the first call gives each label.
    fn first_scores(&self, winner: &str, emitted: &[TokenLogprob]) -> (r: (
        LabelMap<Vec<Scalar>>,
        LabelMap<usize>,
    ))
        requires
            self.trie.paths() == self@.paths(),
        ensures
            scoring::scalars_of(r.0) == self@.after_first(winner@, base::logprob_views(emitted@)).logprobs,
            scoring::lengths_of(r.1) == self@.after_first(
                winner@,
                base::logprob_views(emitted@),
            ).lengths,
    {
        let steps = extract_step_logprobs(emitted, &self.trie);
        let covered = get_covered_lengths(&self.token_sequences, winner);
        let mut logprobs: LabelMap<Vec<Scalar>> = LabelMap::new();
        let mut lengths: LabelMap<usize> = LabelMap::new();
        let n: usize = self.labels.len();
        let ghost run = self@;
        let ghost maps = classifier::step_maps(run.paths(), base::logprob_views(emitted@));
        for i in 0..n
            invariant
                n == self.labels@.len(),
                run == self@,
                maps == scoring::maps_of(steps@),
                covered.keys() == run.known,
                forall|l: Seq<char>| #[trigger]
                    self.token_sequences@.contains_key(l) ==> covered@[l] == run.first_length(
                        l,
                        winner@,
                    ),
                forall|l: Seq<char>| #[trigger]
                    logprobs@.contains_key(l) <==> run.labels.take(i as int).contains(l),
                forall|l: Seq<char>| #[trigger]
                    lengths@.contains_key(l) <==> run.labels.take(i as int).contains(l),
                forall|l: Seq<char>| #[trigger]
                    lengths@.contains_key(l) ==> lengths@[l] == run.first_length(l, winner@),
                forall|l: Seq<char>| #[trigger]
                    logprobs@.contains_key(l) ==> logprobs@[l]@ == scoring::path_logprobs(
                        scoring::tokens_of(run.tokens, l),
                        run.first_length(l, winner@),
                        maps,
                    ),
        {
            let label = &self.labels[i];
            let ghost name = run.labels[i as int];
            proof {
                assert(name == label@);
                assert(run.labels.take(i + 1) =~= run.labels.take(i as int).push(name));
                label_map::lemma_distinct_push(run.labels.take(i as int), name);
                scoring::law_covered(
                    scoring::tokens_of(run.tokens, name),
                    scoring::tokens_of(run.tokens, winner@),
                );
                assert(run.tokens.contains_key(name) <==> self.token_sequences@.contains_key(name));
            }
            let seq = scoring::tokens_or_none(&self.token_sequences, label.as_str());
            let length: usize = match covered.get(label.as_str()) {
                Some(k) => *k,
                None => 0,
            };
            proof {
                assert(text::texts(seq@).len() == seq@.len());
                assert(length == run.first_length(name, winner@));
            }
            logprobs.insert(label.clone(), scoring::read_path(seq.as_slice(), length, &steps));
            lengths.insert(label.clone(), length);
        }
        proof {
            let after = run.after_first(winner@, base::logprob_views(emitted@));
            assert(run.labels.take(n as int) =~= run.labels);
            assert(scoring::scalars_of(logprobs) =~= after.logprobs);
            assert(scoring::lengths_of(lengths) =~= after.lengths);
        }
        (logprobs, lengths)
    }

    /// Takes in the response of the first call, which was constrained to all
    /// labels.
    pub fn absorb_first(&mut self, response: &ChatResponse)
        ensures
            final(self)@ == old(self)@.after_first(response.label@, base::emitted_of(response@)),
    {
        proof {
            use_type_invariant(&*self);
        }
        let ghost before = self@;
        let nothing: Vec<TokenLogprob> = Vec::new();
        let emitted: &[TokenLogprob] = match &response.logprobs {
            Some(v) => v.as_slice(),
            None => nothing.as_slice(),
        };
        assert(base::logprob_views(emitted@) =~= base::emitted_of(response@));
        let (logprobs, lengths) = self.first_scores(response.label.as_str(), emitted);
        let frontier = identify_unresolved_clusters(&self.token_sequences, &lengths);
        let ghost after = before.after_first(response.label@, base::emitted_of(response@));
        proof {
            law_run_stays_in_order(before, response.label@, base::emitted_of(response@));
        }
        self.scores = Scores { logprobs, lengths };
        self.calls_made = 1;
        self.frontier = frontier;
        assert(self@ =~= after);
    }

    /// The token sequences of the labels of a cluster.
    fn cluster_sequences(&self, labels: &[String]) -> (r: LabelMap<Vec<String>>)
        requires
            self@.wf(),
            text::texts(labels@).no_duplicates(),
            forall|l: Seq<char>| #[trigger]
                text::texts(labels@).contains(l) ==> self@.known.contains(l),
        ensures
            r.keys() == text::texts(labels@),
            scoring::token_texts(r) == cluster_tokens(self@.tokens, text::texts(labels@)),
    {
        let mut r: LabelMap<Vec<String>> = LabelMap::new();
        let n: usize = labels.len();
        let ghost names = text::texts(labels@);
        let ghost tokens = self@.tokens;
        for i in 0..n
            invariant
                n == labels@.len(),
                names == text::texts(labels@),
                names.no_duplicates(),
                tokens == self@.tokens,
                forall|l: Seq<char>| #[trigger] names.contains(l) ==> tokens.contains_key(l),
                r.keys() == names.take(i as int),
                forall|l: Seq<char>| #[trigger]
                    r@.contains_key(l) ==> text::texts(r@[l]@) == tokens[l],
        {
            let ghost name = names[i as int];
            proof {
                assert(name == labels@[i as int]@);
                assert(names.contains(name));
                assert(names.take(i + 1) =~= names.take(i as int).push(name));
                assert(!names.take(i as int).contains(name));
            }
            let seq = scoring::tokens_or_none(&self.token_sequences, labels[i].as_str());
            r.insert(labels[i].clone(), seq);
        }
        assert(names.take(n as int) =~= names);
        assert(scoring::token_texts(r) =~= cluster_tokens(tokens, names));
        r
    }

    /// Takes in the response of a call that was constrained to the next
    /// cluster, and returns that cluster, whose labels are to be weighed
    /// against each other.
    pub fn absorb_cluster(&mut self, response: &ChatResponse) -> (r: Cluster)
        requires
            old(self)@.wants_call(),
            old(self)@.calls < usize::MAX,
        ensures
            r@ == old(self)@.frontier[0],
            final(self)@ == old(self)@.after_cluster(response.label@, base::emitted_of(response@)),
    {
        proof {
            use_type_invariant(&*self);
        }
        let ghost before = self@;
        let ghost after = before.after_cluster(response.label@, base::emitted_of(response@));
        let nothing: Vec<TokenLogprob> = Vec::new();
        let emitted: &[TokenLogprob] = match &response.logprobs {
            Some(v) => v.as_slice(),
            None => nothing.as_slice(),
        };
        assert(base::logprob_views(emitted@) =~= base::emitted_of(response@));
        let steps = extract_step_logprobs(emitted, &self.trie);
        let ghost names = before.frontier[0].labels;
        assert(names == text::texts(self.frontier@[0].labels@));
        let sequences = self.cluster_sequences(self.frontier[0].labels.as_slice());
        let reached = get_covered_lengths(&sequences, response.label.as_str());
        let found = identify_unresolved_clusters(&sequences, &reached);
        proof {
            let lengths = Map::new(
                |l: Seq<char>| names.contains(l),
                |l: Seq<char>| before.cluster_length(l, response.label@),
            );
            assert(scoring::lengths_of(reached) =~= lengths) by {
                assert forall|l: Seq<char>| names.contains(l) implies reached@[l]
                    == before.cluster_length(l, response.label@) by {
                    assert(sequences@.contains_key(l));
                }
            }
            law_run_stays_in_order(before, response.label@, base::emitted_of(response@));
        }
        let mut frontier: Vec<Cluster> = Vec::new();
        core::mem::swap(&mut frontier, &mut self.frontier);
        let cluster = frontier.remove(0);
        let mut scores = Scores::new();
        core::mem::swap(&mut scores, &mut self.scores);
        take_improvements(
            &mut scores.logprobs,
            &mut scores.lengths,
            &sequences,
            &reached,
            &steps,
        );
        let ghost rest = frontier@;
        let mut found = found;
        frontier.append(&mut found);
        proof {
            assert(scoring::cluster_views(rest) =~= before.frontier.skip(1));
            assert(scoring::cluster_views(frontier@) =~= after.frontier);
            assert forall|l: Seq<char>| #[trigger]
                further(reached, before.lengths, l) == before.improves(l, response.label@) by {
                if names.contains(l) {
                    assert(sequences@.contains_key(l));
                }
                assert(reached@.contains_key(l) <==> names.contains(l));
            }
            assert forall|l: Seq<char>| #[trigger] further(reached, before.lengths, l) implies {
                &&& reached@[l] == before.cluster_length(l, response.label@)
                &&& scoring::token_texts(sequences)[l] == before.tokens[l]
            } by {
                assert(reached@.contains_key(l) <==> names.contains(l));
                assert(sequences@.contains_key(l));
            }
            assert(scoring::scalars_of(scores.logprobs) =~= after.logprobs);
            assert(scoring::lengths_of(scores.lengths) =~= after.lengths);
        }
        self.frontier = frontier;
        self.scores = scores;
        self.calls_made = self.calls_made + 1;
        assert(self@ =~= after);
        cluster
    }

    /// The trie of the labels, from which the candidates of a call are read.
    pub fn trie(&self) -> (r: &LabelTrie)
        ensures
            r.paths() == self@.paths(),
    {
        proof {
            use_type_invariant(self);
        }
        &self.trie
    }

    /// The number of calls made.
    pub fn calls_made(&self) -> (r: usize)
        ensures
            r == self@.calls,
    {
        self.calls_made
    }

    /// The log probabilities last used for `label`.
    pub fn label_logprobs(&self, label: &str) -> (r: Option<&Vec<Scalar>>)
        ensures
            match r {
                Some(v) => self@.logprobs.contains_key(label@) && v@ == self@.logprobs[label@],
                None => !self@.logprobs.contains_key(label@),
            },
    {
        self.scores.logprobs.get(label)
    }

    /// How much of each label is scored.
    fn coverage(&self) -> (r: LabelMap<Coverage>)
        requires
            self@.scored_within(),
        ensures
            r.keys() == label_map::distinct(self@.labels),
            is_coverage_of(r@, self@),
    {
        let mut r: LabelMap<Coverage> = LabelMap::new();
        let n: usize = self.labels.len();
        let ghost run = self@;
        assert(label_map::distinct(run.labels.take(0)) =~= Seq::<Seq<char>>::empty());
        for i in 0..n
            invariant
                n == self.labels@.len(),
                run == self@,
                r.keys() == label_map::distinct(run.labels.take(i as int)),
                forall|l: Seq<char>| #[trigger]
                    r@.contains_key(l) ==> r@[l].scored == scoring::resolved_of(run.lengths, l)
                        && r@[l].total == scoring::tokens_of(run.tokens, l).len(),
        {
            let label = &self.labels[i];
            let ghost seen = run.labels.take(i as int);
            proof {
                assert(run.labels[i as int] == label@);
                assert(run.labels.take(i + 1) =~= seen.push(label@));
                label_map::lemma_distinct(seen);
                label_map::lemma_distinct_push(seen, label@);
            }
            let total: usize = match self.token_sequences.get(label.as_str()) {
                Some(seq) => {
                    assert(run.tokens[label@] == text::texts(seq@));
                    seq.len()
                },
                None => 0,
            };
            let scored: usize = match self.scores.lengths.get(label.as_str()) {
                Some(k) => *k,
                None => 0,
            };
            proof {
                assert(run.tokens.contains_key(label@) <==> self.token_sequences@.contains_key(
                    label@,
                ));
                assert(total == scoring::tokens_of(run.tokens, label@).len());
                assert(scored == scoring::resolved_of(run.lengths, label@));
            }
            r.insert(label.clone(), Coverage { scored, total });
        }
        proof {
            assert(run.labels.take(n as int) =~= run.labels);
            label_map::lemma_distinct(run.labels);
        }
        r
    }

    /// The result of the run, from the first scores and the distribution that
    /// the caller made of the log probabilities.
    pub fn finish(self, raw_scores: LabelMap<Scalar>, probabilities: LabelMap<Scalar>) -> (r:
        ClassificationResult)
        requires
            self@.calls <= i64::MAX,
        ensures
            r.prediction@ == classifier::predicted(probabilities),
            r.confidence == classifier::confidence_of(probabilities),
            r.probabilities == probabilities,
            r.method@ == "adaptive_generate"@,
            r.coverage.keys() == label_map::distinct(self@.labels),
            is_coverage_of(r.coverage@, self@),
            forall|l: Seq<char>| #[trigger]
                r.coverage@.contains_key(l) ==> r.coverage@[l].scored <= r.coverage@[l].total,
            r.approximate == exists|l: Seq<char>|
                #![trigger self@.labels.contains(l)]
                self@.labels.contains(l) && scoring::resolved_of(self@.lengths, l)
                    < scoring::tokens_of(self@.tokens, l).len(),
            r.n_calls == self@.calls,
            match r.raw_response {
                RawResponse::Adaptive {
                    logprobs,
                    token_sequences,
                    step_logprobs,
                    scored_lengths,
                } => {
                    &&& logprobs == raw_scores
                    &&& scoring::token_texts(token_sequences) == self@.tokens
                    &&& scoring::scalars_of(step_logprobs) == self@.logprobs
                    &&& scoring::lengths_of(scored_lengths) == self@.lengths
                },
                _ => false,
            },
    {
        proof {
            use_type_invariant(&self);
        }
        let ghost run = self@;
        let coverage = self.coverage();
        let mut approximate = false;
        let n: usize = coverage.len();
        proof {
            label_map::lemma_distinct(run.labels);
        }
        for i in 0..n
            invariant
                n == coverage.keys().len(),
                coverage.keys() == label_map::distinct(run.labels),
                is_coverage_of(coverage@, run),
                forall|l: Seq<char>| #[trigger]
                    label_map::distinct(run.labels).contains(l) <==> run.labels.contains(l),
                run.scored_within(),
                approximate == exists|j: int|
                    0 <= j < i && coverage@[#[trigger] coverage.keys()[j]].scored
                        < coverage@[coverage.keys()[j]].total,
        {
            let c = coverage.value_at(i);
            if c.scored < c.total {
                approximate = true;
                assert(coverage@[coverage.keys()[i as int]].scored
                    < coverage@[coverage.keys()[i as int]].total);
            }
        }
        proof {
            if approximate {
                let j = choose|j: int|
                    0 <= j < n && coverage@[#[trigger] coverage.keys()[j]].scored
                        < coverage@[coverage.keys()[j]].total;
                let l = coverage.keys()[j];
                assert(label_map::distinct(run.labels).contains(l));
                assert(run.labels.contains(l));
                assert(coverage@.contains_key(l));
            }
            assert forall|l: Seq<char>| #[trigger]
                run.labels.contains(l) && scoring::resolved_of(run.lengths, l)
                    < scoring::tokens_of(run.tokens, l).len() implies approximate by {
                assert(label_map::distinct(run.labels).contains(l));
                assert(coverage@.contains_key(l));
                let j = coverage.keys().index_of(l);
                assert(coverage.keys()[j] == l);
            }
        }
        let (prediction, confidence) = predict(&probabilities);
        let mut result = ClassificationResult::new_adaptive(
            prediction,
            confidence,
            probabilities,
            coverage,
            self.calls_made as i64,
            approximate,
        );
        result.raw_response = RawResponse::Adaptive {
            logprobs: raw_scores,
            token_sequences: self.token_sequences,
            step_logprobs: self.scores.logprobs,
            scored_lengths: self.scores.lengths,
        };
        result
    }

    /// The cluster to constrain the next call to; none where nothing is left
    /// to resolve or the limit of calls is reached.
    pub fn next_cluster(&self) -> (r: Option<&Cluster>)
        ensures
            match r {
                Some(c) => self@.wants_call() && c@ == self@.frontier[0],
                None => !self@.wants_call(),
            },
    {
        if self.frontier.len() == 0 {
            return None;
        }
        let allowed = match self.max_calls {
            Some(m) => self.calls_made < m,
            None => true,
        };
        if allowed {
            Some(&self.frontier[0])
        } else {
            None
        }
    }
}

/// Whether `coverage` says of exactly the labels offered how much of them is
/// scored.
pub open spec fn is_coverage_of(coverage: Map<Seq<char>, Coverage>, run: RunView) -> bool {
    &&& forall|l: Seq<char>| #[trigger] coverage.contains_key(l) <==> run.labels.contains(l)
    &&& forall|l: Seq<char>| #[trigger]
        coverage.contains_key(l) ==> coverage[l].scored == scoring::resolved_of(run.lengths, l)
            && coverage[l].total == scoring::tokens_of(run.tokens, l).len()
}

/// Whether `reached` is further than what is scored of `label`.
spec fn further(reached: LabelMap<usize>, lengths: Map<Seq<char>, nat>, label: Seq<char>) -> bool {
    reached@.contains_key(label) && reached@[label] > scoring::resolved_of(lengths, label)
}

/// Replaces what is known of the labels that were reached further than before.
fn take_improvements(
    logprobs: &mut LabelMap<Vec<Scalar>>,
    lengths: &mut LabelMap<usize>,
    sequences: &LabelMap<Vec<String>>,
    reached: &LabelMap<usize>,
    steps: &Vec<LabelMap<Scalar>>,
)
    requires
        reached.keys() == sequences.keys(),
        forall|l: Seq<char>| #[trigger]
            sequences@.contains_key(l) ==> reached@[l] <= scoring::token_texts(*sequences)[l].len(),
    ensures
        forall|l: Seq<char>| #[trigger]
            final(logprobs)@.contains_key(l) <==> old(logprobs)@.contains_key(l) || further(
                *reached,
                scoring::lengths_of(*old(lengths)),
                l,
            ),
        forall|l: Seq<char>| #[trigger]
            final(lengths)@.contains_key(l) <==> old(lengths)@.contains_key(l) || further(
                *reached,
                scoring::lengths_of(*old(lengths)),
                l,
            ),
        forall|l: Seq<char>| #[trigger]
            final(lengths)@.contains_key(l) ==> final(lengths)@[l] == if further(
                *reached,
                scoring::lengths_of(*old(lengths)),
                l,
            ) {
                reached@[l]
            } else {
                old(lengths)@[l]
            },
        forall|l: Seq<char>| #[trigger]
            final(logprobs)@.contains_key(l) ==> final(logprobs)@[l]@ == if further(
                *reached,
                scoring::lengths_of(*old(lengths)),
                l,
            ) {
                scoring::path_logprobs(
                    scoring::token_texts(*sequences)[l],
                    reached@[l] as nat,
                    scoring::maps_of(steps@),
                )
            } else {
                old(logprobs)@[l]@
            },
{
    let n: usize = sequences.len();
    let ghost names = sequences.keys();
    let ghost first = scoring::lengths_of(*lengths);
    let ghost lengths0 = lengths@;
    let ghost logprobs0 = logprobs@;
    for i in 0..n
        invariant
            n == names.len(),
            names == sequences.keys(),
            names.no_duplicates(),
            reached.keys() == names,
            forall|l: Seq<char>| #[trigger]
                sequences@.contains_key(l) ==> reached@[l] <= scoring::token_texts(
                    *sequences,
                )[l].len(),
            first == lengths0.map_values(|n: usize| n as nat),
            forall|l: Seq<char>| #[trigger]
                logprobs@.contains_key(l) <==> logprobs0.contains_key(l) || (further(
                    *reached,
                    first,
                    l,
                ) && names.take(i as int).contains(l)),
            forall|l: Seq<char>| #[trigger]
                lengths@.contains_key(l) <==> lengths0.contains_key(l) || (further(
                    *reached,
                    first,
                    l,
                ) && names.take(i as int).contains(l)),
            forall|l: Seq<char>| #[trigger]
                lengths@.contains_key(l) ==> lengths@[l] == if further(*reached, first, l)
                    && names.take(i as int).contains(l) {
                    reached@[l]
                } else {
                    lengths0[l]
                },
            forall|l: Seq<char>| #[trigger]
                logprobs@.contains_key(l) ==> logprobs@[l]@ == if further(*reached, first, l)
                    && names.take(i as int).contains(l) {
                    scoring::path_logprobs(
                        scoring::token_texts(*sequences)[l],
                        reached@[l] as nat,
                        scoring::maps_of(steps@),
                    )
                } else {
                    logprobs0[l]@
                },
    {
        let label = sequences.key_at(i);
        let seq = sequences.value_at(i);
        let new_length: usize = *reached.value_at(i);
        let old_length: usize = match lengths.get(label.as_str()) {
            Some(k) => *k,
            None => 0,
        };
        proof {
            assert(names.take(i + 1) =~= names.take(i as int).push(label@));
            label_map::lemma_distinct_push(names.take(i as int), label@);
            assert(!names.take(i as int).contains(label@));
            assert(names.contains(label@));
            assert(sequences@.contains_key(label@));
            assert(scoring::token_texts(*sequences)[label@] == text::texts(seq@));
            assert(old_length == scoring::resolved_of(first, label@));
            assert(reached@.contains_key(label@));
        }
        if new_length > old_length {
            logprobs.insert(label.clone(), scoring::read_path(seq.as_slice(), new_length, steps));
            lengths.insert(label.clone(), new_length);
        }
    }
    assert(names.take(n as int) =~= names);
}

/// Clusters have at least two labels, distinct and known.
proof fn lemma_clusters_wf(
    keys: Seq<Seq<char>>,
    tokens: Map<Seq<char>, Seq<Seq<char>>>,
    scored: Map<Seq<char>, nat>,
)
    requires
        keys.no_duplicates(),
    ensures
        forall|i: int|
            0 <= i < scoring::unresolved_clusters(keys, tokens, scored).len() ==> {
                let c = #[trigger] scoring::unresolved_clusters(keys, tokens, scored)[i];
                &&& c.labels.len() >= 2
                &&& c.labels.no_duplicates()
                &&& forall|l: Seq<char>| #[trigger] c.labels.contains(l) ==> keys.contains(l)
            },
{
    assert forall|i: int| 0 <= i < scoring::unresolved_clusters(keys, tokens, scored).len() implies {
        let c = #[trigger] scoring::unresolved_clusters(keys, tokens, scored)[i];
        &&& c.labels.len() >= 2
        &&& c.labels.no_duplicates()
        &&& forall|l: Seq<char>| #[trigger] c.labels.contains(l) ==> keys.contains(l)
    } by {
        scoring::law_cluster(keys, tokens, scored, i);
    }
}

/// What one more label adds to the beginnings.
proof fn lemma_label_paths(
    labels: Seq<Seq<char>>,
    tokens: Map<Seq<char>, Seq<Seq<char>>>,
    i: int,
)
    requires
        0 <= i < labels.len(),
    ensures
        forall|path: Seq<Seq<char>>| #[trigger]
            label_paths(labels.take(i + 1), tokens).contains(path) <==> label_paths(
                labels.take(i),
                tokens,
            ).contains(path) || (tokens.contains_key(labels[i]) && path.is_prefix_of(
                tokens[labels[i]],
            )),
{
    let before = labels.take(i);
    let after = labels.take(i + 1);
    assert(after =~= before.push(labels[i]));
    label_map::lemma_distinct_push(before, labels[i]);
    assert forall|path: Seq<Seq<char>>| #[trigger]
        label_paths(after, tokens).contains(path) <==> label_paths(before, tokens).contains(path)
        || (tokens.contains_key(labels[i]) && path.is_prefix_of(tokens[labels[i]])) by {
        if label_paths(before, tokens).contains(path) && path.len() > 0 {
            let l = choose|l: Seq<char>|
                #![trigger tokens[l]]
                before.contains(l) && tokens.contains_key(l) && path.is_prefix_of(tokens[l]);
            assert(after.contains(l) && tokens.contains_key(l) && path.is_prefix_of(tokens[l]));
        }
        if tokens.contains_key(labels[i]) && path.is_prefix_of(tokens[labels[i]]) {
            assert(after.contains(labels[i]));
        }
    }
}

// ---------------------------------------------------------------------------
// Laws of a run
// ---------------------------------------------------------------------------

/// A run starts in order, and stays so whatever the backend replies: clusters
/// have at least two distinct known labels, and no label is scored beyond its
/// tokens.
pub proof fn law_run_stays_in_order(
    run: RunView,
    winner: Seq<char>,
    emitted: Seq<base::TokenLogprobView>,
)
    requires
        run.wf(),
        run.scored_within(),
    ensures
        run.after_first(winner, emitted).wf(),
        run.after_first(winner, emitted).scored_within(),
        run.wants_call() ==> run.after_cluster(winner, emitted).wf(),
        run.wants_call() ==> run.after_cluster(winner, emitted).scored_within(),
{
    let first = run.after_first(winner, emitted);
    lemma_clusters_wf(run.known, run.tokens, first.lengths);
    assert forall|l: Seq<char>| #[trigger] first.lengths.contains_key(l) implies first.lengths[l]
        <= scoring::tokens_of(run.tokens, l).len() by {
        scoring::law_covered(
            scoring::tokens_of(run.tokens, l),
            scoring::tokens_of(run.tokens, winner),
        );
    }
    assert(first.logprobs.dom() =~= first.lengths.dom());
    if run.wants_call() {
        let next = run.after_cluster(winner, emitted);
        let labels = run.frontier[0].labels;
        let lengths = Map::new(
            |l: Seq<char>| labels.contains(l),
            |l: Seq<char>| run.cluster_length(l, winner),
        );
        lemma_clusters_wf(labels, cluster_tokens(run.tokens, labels), lengths);
        let rest = run.frontier.skip(1);
        assert forall|i: int| 0 <= i < next.frontier.len() implies {
            &&& (#[trigger] next.frontier[i]).labels.len() >= 2
            &&& next.frontier[i].labels.no_duplicates()
            &&& forall|l: Seq<char>| #[trigger]
                next.frontier[i].labels.contains(l) ==> run.known.contains(l)
        } by {
            if i < rest.len() {
                assert(next.frontier[i] == run.frontier[i + 1]);
            }
        }
        assert(next.logprobs.dom() =~= next.lengths.dom());
        assert forall|l: Seq<char>| #[trigger] next.lengths.contains_key(l) implies next.lengths[l]
            <= scoring::tokens_of(run.tokens, l).len() && next.logprobs[l].len()
            == next.lengths[l] by {
            if run.improves(l, winner) {
                scoring::law_covered(
                    run.tokens[l],
                    scoring::tokens_of(cluster_tokens(run.tokens, labels), winner),
                );
                assert(run.known.contains(l));
                assert(run.tokens.contains_key(l));
            } else {
                assert(run.lengths.contains_key(l));
            }
        }
    }
}

/// The label that the first call emits is scored whole, and is in no cluster.
pub proof fn law_first_call_resolves_winner(
    run: RunView,
    winner: Seq<char>,
    emitted: Seq<base::TokenLogprobView>,
)
    requires
        run.wf(),
        run.labels.contains(winner),
    ensures
        ({
            let next = run.after_first(winner, emitted);
            &&& next.lengths[winner] == scoring::tokens_of(run.tokens, winner).len()
            &&& forall|i: int|
                0 <= i < next.frontier.len() ==> !(
                #[trigger] next.frontier[i]).labels.contains(winner)
        }),
{
    let next = run.after_first(winner, emitted);
    let own = scoring::tokens_of(run.tokens, winner);
    scoring::law_covered(own, own);
    assert forall|i: int| 0 <= i < next.frontier.len() implies !(
    #[trigger] next.frontier[i]).labels.contains(winner) by {
        scoring::law_cluster(run.known, run.tokens, next.lengths, i);
    }
}

/// Where no label has more than one token, the first call resolves them all,
/// and no other call is made whatever the limit.
pub proof fn law_single_tokens_need_one_call(
    run: RunView,
    winner: Seq<char>,
    emitted: Seq<base::TokenLogprobView>,
)
    requires
        run.wf(),
        forall|l: Seq<char>| #[trigger] run.tokens.contains_key(l) ==> run.tokens[l].len() <= 1,
        forall|l: Seq<char>| #[trigger] run.known.contains(l) ==> run.labels.contains(l),
    ensures
        !run.after_first(winner, emitted).wants_call(),
        run.after_first(winner, emitted).calls == 1,
        forall|l: Seq<char>| #[trigger]
            run.labels.contains(l) ==> run.after_first(winner, emitted).lengths[l]
                == scoring::tokens_of(run.tokens, l).len(),
{
    let next = run.after_first(winner, emitted);
    assert forall|l: Seq<char>| #[trigger] run.labels.contains(l) implies next.lengths[l]
        == scoring::tokens_of(run.tokens, l).len() by {
        scoring::law_covered(
            scoring::tokens_of(run.tokens, l),
            scoring::tokens_of(run.tokens, winner),
        );
    }
    if next.frontier.len() > 0 {
        scoring::law_cluster(run.known, run.tokens, next.lengths, 0);
        let l = next.frontier[0].labels[0];
        assert(next.frontier[0].labels.contains(l));
        assert(run.tokens.contains_key(l));
    }
}

/// A call over a cluster changes what is known of labels of that cluster only,
/// and never scores less of a label than before.
pub proof fn law_cluster_call_is_local(
    run: RunView,
    winner: Seq<char>,
    emitted: Seq<base::TokenLogprobView>,
    label: Seq<char>,
)
    requires
        run.wants_call(),
        run.lengths.contains_key(label),
        run.logprobs.contains_key(label),
    ensures
        run.after_cluster(winner, emitted).lengths.contains_key(label),
        run.after_cluster(winner, emitted).lengths[label] >= run.lengths[label],
        !run.frontier[0].labels.contains(label) ==> run.after_cluster(
            winner,
            emitted,
        ).lengths[label] == run.lengths[label] && run.after_cluster(
            winner,
            emitted,
        ).logprobs[label] == run.logprobs[label],
{
}

/// The limit on calls holds after every call that was wanted; the first call
/// is always made.
pub proof fn law_calls_within_limit(
    run: RunView,
    winner: Seq<char>,
    emitted: Seq<base::TokenLogprobView>,
    limit: nat,
)
    requires
        run.max_calls == Some(limit),
    ensures
        run.after_first(winner, emitted).calls == 1,
        run.after_first(winner, emitted).max_calls == run.max_calls,
        run.wants_call() ==> run.after_cluster(winner, emitted).calls <= limit,
        run.wants_call() ==> run.after_cluster(winner, emitted).max_calls == run.max_calls,
        limit <= 1 ==> !run.after_first(winner, emitted).wants_call(),
{
}

/// The calls that are still needed at most: one less than its labels for each
/// cluster.
pub open spec fn pending(frontier: Seq<scoring::ClusterView>) -> int {
    scoring::member_count(frontier) - frontier.len()
}

/// Clusters of two labels or more leave at least as many calls as there are
/// clusters.
proof fn lemma_pending(frontier: Seq<scoring::ClusterView>)
    requires
        forall|i: int| 0 <= i < frontier.len() ==> (#[trigger] frontier[i]).labels.len() >= 2,
    ensures
        pending(frontier) >= frontier.len(),
    decreases frontier.len(),
{
    if frontier.len() > 0 {
        let rest = frontier.drop_last();
        assert forall|i: int| 0 <= i < rest.len() implies (#[trigger] rest[i]).labels.len() >= 2 by {
            assert(rest[i] == frontier[i]);
        }
        lemma_pending(rest);
        assert(frontier[frontier.len() - 1] == frontier.last());
    }
}

/// The labels of two lists of clusters together.
proof fn lemma_member_count_add(a: Seq<scoring::ClusterView>, b: Seq<scoring::ClusterView>)
    ensures
        scoring::member_count(a + b) == scoring::member_count(a) + scoring::member_count(b),
    decreases b.len(),
{
    if b.len() == 0 {
        assert(a + b =~= a);
    } else {
        lemma_member_count_add(a, b.drop_last());
        assert((a + b).drop_last() =~= a + b.drop_last());
    }
}

/// Where the first call emits one of the known labels, then without a limit a
/// run over `n` of them needs at most `n - 1` calls, or one.
pub proof fn law_first_call_bounds_run(
    run: RunView,
    winner: Seq<char>,
    emitted: Seq<base::TokenLogprobView>,
)
    requires
        run.wf(),
        run.known.contains(winner),
        run.labels.contains(winner),
    ensures
        ({
            let next = run.after_first(winner, emitted);
            next.calls + pending(next.frontier) <= if run.known.len() <= 1 {
                1
            } else {
                run.known.len() - 1
            }
        }),
{
    let next = run.after_first(winner, emitted);
    law_first_call_resolves_winner(run, winner, emitted);
    assert(run.tokens.contains_key(winner));
    assert(!scoring::is_unresolved(run.tokens, next.lengths, winner));
    scoring::law_clusters_shrink(run.known, run.tokens, next.lengths);
    lemma_clusters_wf(run.known, run.tokens, next.lengths);
    lemma_pending(next.frontier);
    if next.frontier.len() == 0 {
        assert(scoring::member_count(next.frontier) == 0);
    }
}

/// Where a call over a cluster emits one of its labels, the calls made and
/// those still needed do not grow together: each call brings a run without a
/// limit nearer its end.
pub proof fn law_cluster_call_brings_end_nearer(
    run: RunView,
    winner: Seq<char>,
    emitted: Seq<base::TokenLogprobView>,
)
    requires
        run.wf(),
        run.wants_call(),
        run.frontier[0].labels.contains(winner),
    ensures
        ({
            let next = run.after_cluster(winner, emitted);
            &&& 0 <= pending(next.frontier) < pending(run.frontier)
            &&& next.calls + pending(next.frontier) <= run.calls + pending(run.frontier)
        }),
{
    let next = run.after_cluster(winner, emitted);
    let labels = run.frontier[0].labels;
    let tokens = cluster_tokens(run.tokens, labels);
    let lengths = Map::new(
        |l: Seq<char>| labels.contains(l),
        |l: Seq<char>| run.cluster_length(l, winner),
    );
    let found = scoring::unresolved_clusters(labels, tokens, lengths);
    let rest = run.frontier.skip(1);
    assert(run.frontier =~= seq![run.frontier[0]] + rest);
    lemma_member_count_add(seq![run.frontier[0]], rest);
    reveal_with_fuel(scoring::member_count, 2);
    assert(seq![run.frontier[0]].drop_last() =~= Seq::<scoring::ClusterView>::empty());
    assert(scoring::member_count(seq![run.frontier[0]]) == labels.len());
    lemma_member_count_add(rest, found);
    scoring::law_covered(run.tokens[winner], run.tokens[winner]);
    assert(!scoring::is_unresolved(tokens, lengths, winner));
    scoring::law_clusters_shrink(labels, tokens, lengths);
    lemma_clusters_wf(labels, tokens, lengths);
    lemma_pending(found);
    assert forall|i: int| 0 <= i < rest.len() implies (#[trigger] rest[i]).labels.len() >= 2 by {
        assert(rest[i] == run.frontier[i + 1]);
    }
    lemma_pending(rest);
    if found.len() == 0 {
        assert(scoring::member_count(found) == 0);
    }
}

/// What a backend replies to a constrained call.
pub struct Reply {
    pub winner: Seq<char>,
    pub emitted: Seq<base::TokenLogprobView>,
}

/// After the replies to a number of calls over clusters.
pub open spec fn after_replies(run: RunView, replies: Seq<Reply>) -> RunView
    decreases replies.len(),
{
    if replies.len() == 0 {
        run
    } else {
        after_replies(run, replies.drop_last()).after_cluster(
            replies.last().winner,
            replies.last().emitted,
        )
    }
}

/// Whether each reply answers a call that was wanted, with a label of the
/// cluster that the call was constrained to.
pub open spec fn conforming(run: RunView, replies: Seq<Reply>) -> bool
    decreases replies.len(),
{
    replies.len() > 0 ==> {
        let before = after_replies(run, replies.drop_last());
        &&& conforming(run, replies.drop_last())
        &&& before.wants_call()
        &&& before.frontier[0].labels.contains(replies.last().winner)
    }
}

/// Whatever a backend that keeps to the labels replies, a run over `n` labels
/// makes at most `n - 1` calls, and at most as many as the limit, but always
/// the first one.
pub proof fn law_run_is_bounded(
    run: RunView,
    winner: Seq<char>,
    emitted: Seq<base::TokenLogprobView>,
    replies: Seq<Reply>,
)
    requires
        run.wf(),
        run.scored_within(),
        run.known.contains(winner),
        run.labels.contains(winner),
        conforming(run.after_first(winner, emitted), replies),
    ensures
        after_replies(run.after_first(winner, emitted), replies).calls <= if run.known.len() <= 1 {
            1
        } else {
            run.known.len() - 1
        },
        run.max_calls matches Some(m) ==> after_replies(
            run.after_first(winner, emitted),
            replies,
        ).calls <= if m <= 1 {
            1
        } else {
            m
        },
{
    let first = run.after_first(winner, emitted);
    law_first_call_bounds_run(run, winner, emitted);
    law_run_stays_in_order(run, winner, emitted);
    lemma_replies(first, replies);
}

/// The calls made and those still needed do not grow together over replies.
proof fn lemma_replies(run: RunView, replies: Seq<Reply>)
    requires
        run.wf(),
        run.scored_within(),
        conforming(run, replies),
    ensures
        after_replies(run, replies).wf(),
        after_replies(run, replies).scored_within(),
        pending(after_replies(run, replies).frontier) >= 0,
        after_replies(run, replies).calls + pending(after_replies(run, replies).frontier)
            <= run.calls + pending(run.frontier),
        after_replies(run, replies).max_calls == run.max_calls,
        run.max_calls matches Some(m) ==> after_replies(run, replies).calls <= run.calls
            || after_replies(run, replies).calls <= m,
    decreases replies.len(),
{
    if replies.len() == 0 {
        lemma_pending(run.frontier);
    } else {
        let before = after_replies(run, replies.drop_last());
        lemma_replies(run, replies.drop_last());
        law_run_stays_in_order(before, replies.last().winner, replies.last().emitted);
        law_cluster_call_brings_end_nearer(before, replies.last().winner, replies.last().emitted);
    }
}

/// Where the backend emits the tokens of a label, each of them is among the
/// candidates of its position: the emitted label is scored on evidence alone.
pub proof fn law_emitted_label_has_evidence(
    run: RunView,
    label: Seq<char>,
    emitted: Seq<base::TokenLogprobView>,
    i: int,
)
    requires
        run.labels.contains(label),
        run.tokens.contains_key(label),
        emitted.len() == run.tokens[label].len(),
        forall|j: int|
            0 <= j < emitted.len() ==> (#[trigger] emitted[j]).token == run.tokens[label][j],
        0 <= i < emitted.len(),
    ensures
        classifier::followed(run.paths(), emitted.take(i)) == run.tokens[label].take(i),
        classifier::step_maps(run.paths(), emitted)[i].contains_key(run.tokens[label][i]),
{
    lemma_followed(run, label, emitted, i);
    let path = run.tokens[label].take(i);
    let longer = path.push(run.tokens[label][i]);
    assert(longer =~= run.tokens[label].take(i + 1));
    assert(longer.is_prefix_of(run.tokens[label]));
    assert(emitted[i].token == run.tokens[label][i]);
}

/// Emitting the tokens of a label follows the label.
proof fn lemma_followed(
    run: RunView,
    label: Seq<char>,
    emitted: Seq<base::TokenLogprobView>,
    i: int,
)
    requires
        run.labels.contains(label),
        run.tokens.contains_key(label),
        emitted.len() == run.tokens[label].len(),
        forall|j: int|
            0 <= j < emitted.len() ==> (#[trigger] emitted[j]).token == run.tokens[label][j],
        0 <= i <= emitted.len(),
    ensures
        classifier::followed(run.paths(), emitted.take(i)) == run.tokens[label].take(i),
    decreases i,
{
    if i == 0 {
        assert(run.tokens[label].take(0) =~= Seq::<Seq<char>>::empty());
    } else {
        lemma_followed(run, label, emitted, i - 1);
        assert(emitted.take(i).drop_last() =~= emitted.take(i - 1));
        let longer = run.tokens[label].take(i - 1).push(run.tokens[label][i - 1]);
        assert(longer =~= run.tokens[label].take(i));
        assert(longer.is_prefix_of(run.tokens[label]));
        assert(emitted[i - 1].token == run.tokens[label][i - 1]);
    }
}

} // verus!
