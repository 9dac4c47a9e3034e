//! What an adaptive run knows after each call, and where it has it from: how
//! far a call scores each label, which log probability each token gets, and
//! which labels are asked about next.

use crate::adaptive;
use crate::backends::base;
use crate::classifier;
use crate::scalar::Scalar;
use crate::scoring;
use crate::types::Coverage;
use vstd::prelude::*;

verus! {

// ---------------------------------------------------------------------------
// The paths of the labels
// ---------------------------------------------------------------------------

/// Whether a path spells the first tokens of a label.
pub open spec fn begins(path: Seq<Seq<char>>, tokens: Seq<Seq<char>>) -> bool {
    path.len() <= tokens.len() && forall|i: int|
        0 <= i < path.len() ==> #[trigger] path[i] == tokens[i]
}

/// The paths of a run are those that begin a label that is offered and has
/// tokens, and the empty path.
pub proof fn law_paths_begin_labels(run: adaptive::RunView, path: Seq<Seq<char>>)
    ensures
        run.paths().contains(path) <==> path.len() == 0 || exists|l: Seq<char>|
            #![trigger run.tokens[l]]
            run.labels.contains(l) && run.tokens.contains_key(l) && begins(path, run.tokens[l]),
{
    assert forall|l: Seq<char>| #[trigger] begins(path, run.tokens[l]) <==> path.is_prefix_of(
        run.tokens[l],
    ) by {
        if begins(path, run.tokens[l]) {
            assert(path =~= run.tokens[l].subrange(0, path.len() as int));
        }
        if path.is_prefix_of(run.tokens[l]) {
            let start = run.tokens[l].subrange(0, path.len() as int);
            assert forall|i: int| 0 <= i < path.len() implies #[trigger] path[i]
                == run.tokens[l][i] by {
                assert(start[i] == run.tokens[l][i]);
            }
        }
    }
    if run.paths().contains(path) && path.len() > 0 {
        let l = choose|l: Seq<char>|
            #![trigger run.tokens[l]]
            run.labels.contains(l) && run.tokens.contains_key(l) && path.is_prefix_of(
                run.tokens[l],
            );
        assert(begins(path, run.tokens[l]));
    }
    if exists|l: Seq<char>|
        #![trigger run.tokens[l]]
        run.labels.contains(l) && run.tokens.contains_key(l) && begins(path, run.tokens[l]) {
        let l = choose|l: Seq<char>|
            #![trigger run.tokens[l]]
            run.labels.contains(l) && run.tokens.contains_key(l) && begins(path, run.tokens[l]);
        assert(path.is_prefix_of(run.tokens[l]));
    }
}

// ---------------------------------------------------------------------------
// What a reply says of a token
// ---------------------------------------------------------------------------

/// The log probability that a position reports for a token: that of the
/// candidate, or that of the emitted token where it is this one, or negative
/// infinity.
pub open spec fn reported(t: base::TokenLogprobView, token: Seq<char>) -> Scalar {
    if t.top_logprobs.contains_key(token) {
        t.top_logprobs[token]
    } else if t.token == token {
        t.logprob
    } else {
        Scalar { bits: 0xFFF0_0000_0000_0000 }
    }
}

/// Where a reply emitted the tokens before position `i` of a label, the log
/// probability read for the token there is the one that the reply reports for
/// it at that position.
pub proof fn law_label_is_read_off_the_reply(
    run: adaptive::RunView,
    emitted: Seq<base::TokenLogprobView>,
    label: Seq<char>,
    n: nat,
    i: int,
)
    requires
        run.labels.contains(label),
        run.tokens.contains_key(label),
        0 <= i < n <= run.tokens[label].len(),
        i < emitted.len(),
        forall|j: int|
            0 <= j < i ==> (#[trigger] emitted[j]).token == run.tokens[label][j],
    ensures
        scoring::path_logprobs(
            run.tokens[label],
            n,
            classifier::step_maps(run.paths(), emitted),
        )[i] == reported(emitted[i], run.tokens[label][i]),
{
    let toks = run.tokens[label];
    let before = emitted.take(i);
    let path = toks.take(i);
    assert forall|k: int| 0 <= k <= toks.len() implies run.paths().contains(
        #[trigger] toks.take(k),
    ) by {
        law_paths_begin_labels(run, toks.take(k));
        assert(begins(toks.take(k), toks));
    }
    assert forall|k: int| 0 <= k < path.len() implies #[trigger] path[k] == before[k].token by {
        assert(emitted[k].token == toks[k]);
    }
    assert forall|k: int| 0 < k <= path.len() implies run.paths().contains(
        #[trigger] path.take(k),
    ) by {
        assert(path.take(k) =~= toks.take(k));
    }
    classifier::law_known_path_is_followed(run.paths(), before, path);
    assert(path.push(toks[i]) =~= toks.take(i + 1));
    assert(run.paths().contains(toks.take(i + 1)));
    classifier::law_candidates_are_reported(run.paths(), emitted, i, toks[i]);
    scoring::law_path_is_read_position_by_position(
        toks,
        n,
        classifier::step_maps(run.paths(), emitted),
    );
}

// ---------------------------------------------------------------------------
// The first call
// ---------------------------------------------------------------------------

/// The first call says something of every label offered and of no other. Of a
/// label it scores exactly the tokens before which the label agrees with the
/// one emitted, each by one log probability, and of the emitted label all. The
/// labels, their tokens and the limit stay what they are, and one call is made.
pub proof fn law_first_call_scores_every_label(
    run: adaptive::RunView,
    winner: Seq<char>,
    emitted: Seq<base::TokenLogprobView>,
    label: Seq<char>,
    i: int,
)
    ensures
        ({
            let next = run.after_first(winner, emitted);
            let own = scoring::tokens_of(run.tokens, label);
            let winning = scoring::tokens_of(run.tokens, winner);
            &&& next.lengths.contains_key(label) <==> run.labels.contains(label)
            &&& next.logprobs.contains_key(label) <==> run.labels.contains(label)
            &&& run.labels.contains(label) ==> next.lengths[label] <= own.len()
                && next.logprobs[label].len() == next.lengths[label]
            &&& run.labels.contains(label) && 0 <= i < own.len() ==> (i < next.lengths[label]
                <==> scoring::agree_below(own, winning, i))
            &&& next.calls == 1
            &&& next.labels == run.labels && next.known == run.known && next.tokens == run.tokens
                && next.max_calls == run.max_calls
        }),
{
    let own = scoring::tokens_of(run.tokens, label);
    let winning = scoring::tokens_of(run.tokens, winner);
    scoring::law_covered(own, winning);
    if 0 <= i < own.len() {
        scoring::law_scored_tokens_follow_shared_ones(own, winning, i);
    }
}

/// Where the first call emits the tokens of the label that it names, every
/// token that it scores of any label has the log probability that the reply
/// reports for this token at its position.
pub proof fn law_first_call_reads_the_reply(
    run: adaptive::RunView,
    winner: Seq<char>,
    emitted: Seq<base::TokenLogprobView>,
    label: Seq<char>,
    i: int,
)
    requires
        run.labels.contains(label),
        run.tokens.contains_key(label),
        run.tokens.contains_key(winner),
        forall|j: int|
            0 <= j < run.tokens[winner].len() && j < emitted.len() ==> (
            #[trigger] emitted[j]).token == run.tokens[winner][j],
        0 <= i < run.after_first(winner, emitted).lengths[label],
        i < emitted.len(),
    ensures
        run.after_first(winner, emitted).logprobs[label][i] == reported(
            emitted[i],
            run.tokens[label][i],
        ),
{
    let own = run.tokens[label];
    let winning = run.tokens[winner];
    law_first_call_scores_every_label(run, winner, emitted, label, i);
    assert forall|j: int| 0 <= j < i implies (#[trigger] emitted[j]).token == own[j] by {
        assert(own[j] == winning[j]);
    }
    law_label_is_read_off_the_reply(run, emitted, label, run.first_length(label, winner), i);
}

/// Two labels are left together by the first call exactly where both have
/// tokens that are not scored and are scored on the same tokens.
pub proof fn law_first_call_leaves_labels_together(
    run: adaptive::RunView,
    winner: Seq<char>,
    emitted: Seq<base::TokenLogprobView>,
    a: Seq<char>,
    b: Seq<char>,
)
    requires
        run.wf(),
        run.known.contains(a),
        run.known.contains(b),
        run.labels.contains(a),
        run.labels.contains(b),
        a != b,
    ensures
        together(run.after_first(winner, emitted), a, b) <==> alike(
            run.tokens,
            run.after_first(winner, emitted).lengths,
            a,
            b,
        ),
{
    let next = run.after_first(winner, emitted);
    let found = scoring::unresolved_clusters(run.known, run.tokens, next.lengths);
    assert(next.frontier == found);
    assert(scoring::resolved_of(next.lengths, a) == next.lengths[a]);
    assert(scoring::resolved_of(next.lengths, b) == next.lengths[b]);
    if together(next, a, b) {
        let i = choose|i: int|
            0 <= i < next.frontier.len() && (#[trigger] next.frontier[i]).labels.contains(a)
                && next.frontier[i].labels.contains(b);
        let c = next.frontier[i];
        scoring::law_cluster(run.known, run.tokens, next.lengths, i);
        assert(c.labels.contains(a) && c.labels.contains(b));
        assert(scoring::scored_prefix(run.tokens, next.lengths, a) == scoring::scored_prefix(
            run.tokens,
            next.lengths,
            b,
        ));
        assert(alike(run.tokens, next.lengths, a, b));
    }
    if alike(run.tokens, next.lengths, a, b) {
        scoring::law_clusters_complete(run.known, run.tokens, next.lengths, a, b);
        let i = choose|i: int|
            0 <= i < found.len() && (#[trigger] found[i]).labels.contains(a)
                && found[i].labels.contains(b);
        assert(next.frontier[i].labels.contains(a));
        assert(together(next, a, b));
    }
}

/// Whether two labels are in one cluster.
pub open spec fn together(run: adaptive::RunView, a: Seq<char>, b: Seq<char>) -> bool {
    exists|i: int|
        0 <= i < run.frontier.len() && (#[trigger] run.frontier[i]).labels.contains(a)
            && run.frontier[i].labels.contains(b)
}

/// Whether neither of two labels is scored whole, and both are scored on the
/// same tokens.
pub open spec fn alike(
    tokens: Map<Seq<char>, Seq<Seq<char>>>,
    lengths: Map<Seq<char>, nat>,
    a: Seq<char>,
    b: Seq<char>,
) -> bool {
    &&& lengths[a] < tokens[a].len()
    &&& lengths[b] < tokens[b].len()
    &&& tokens[a].take(lengths[a] as int) == tokens[b].take(lengths[b] as int)
}

// ---------------------------------------------------------------------------
// Calls over clusters
// ---------------------------------------------------------------------------

/// Another call is wanted exactly where a cluster is left and the limit, if
/// there is one, is not reached.
pub proof fn law_call_is_wanted_within_the_limit(run: adaptive::RunView)
    ensures
        run.frontier.len() == 0 ==> !run.wants_call(),
        run.frontier.len() > 0 && run.max_calls is None ==> run.wants_call(),
        run.frontier.len() > 0 && run.max_calls is Some ==> (run.wants_call() <==> run.calls
            < run.max_calls->0),
{
}

/// A call over a cluster is one call more. It scores of each label of the
/// cluster what was scored before and the tokens before which the label agrees
/// with the one emitted, each by one log probability. Labels, tokens and limit
/// stay what they are, and so does what is known of any other label.
pub proof fn law_cluster_call_scores_its_labels(
    run: adaptive::RunView,
    winner: Seq<char>,
    emitted: Seq<base::TokenLogprobView>,
    label: Seq<char>,
    i: int,
)
    requires
        run.wf(),
        run.scored_within(),
        run.wants_call(),
    ensures
        ({
            let next = run.after_cluster(winner, emitted);
            let cluster = run.frontier[0].labels;
            let own = run.tokens[label];
            let winning = if cluster.contains(winner) {
                run.tokens[winner]
            } else {
                Seq::empty()
            };
            &&& next.calls == run.calls + 1
            &&& next.labels == run.labels && next.known == run.known && next.tokens == run.tokens
                && next.max_calls == run.max_calls
            &&& run.lengths.contains_key(label) ==> next.lengths.contains_key(label)
                && next.logprobs.contains_key(label)
            &&& cluster.contains(label) && run.lengths.contains_key(label) && 0 <= i < own.len()
                ==> (i < next.lengths[label] <==> i < run.lengths[label] || scoring::agree_below(
                own,
                winning,
                i,
            ))
            &&& next.lengths.contains_key(label) ==> next.logprobs[label].len()
                == next.lengths[label]
            &&& !cluster.contains(label) ==> (next.lengths.contains_key(label)
                <==> run.lengths.contains_key(label)) && (run.lengths.contains_key(label)
                ==> next.lengths[label] == run.lengths[label] && next.logprobs[label]
                == run.logprobs[label])
        }),
{
    let cluster = run.frontier[0].labels;
    let own = run.tokens[label];
    let winning = if cluster.contains(winner) {
        run.tokens[winner]
    } else {
        Seq::empty()
    };
    adaptive::law_run_stays_in_order(run, winner, emitted);
    assert(scoring::tokens_of(adaptive::cluster_tokens(run.tokens, cluster), winner) == winning);
    assert(run.lengths.dom() == run.logprobs.dom());
    assert(run.lengths.contains_key(label) <==> run.logprobs.contains_key(label)) by {
        assert(run.lengths.dom().contains(label) == run.logprobs.dom().contains(label));
    }
    if cluster.contains(label) && 0 <= i < own.len() {
        scoring::law_scored_tokens_follow_shared_ones(own, winning, i);
    }
}

/// Where a call over a cluster emits the tokens of the label that it names, and
/// this is one of the cluster, then a label of which it scores more than before
/// has for each token the log probability that the reply reports for this token
/// at its position; a label of which it does not keeps what it had.
pub proof fn law_cluster_call_reads_the_reply(
    run: adaptive::RunView,
    winner: Seq<char>,
    emitted: Seq<base::TokenLogprobView>,
    label: Seq<char>,
    i: int,
)
    requires
        run.wf(),
        run.scored_within(),
        run.wants_call(),
        run.frontier[0].labels.contains(label),
        run.frontier[0].labels.contains(winner),
        run.labels.contains(label),
        run.lengths.contains_key(label),
        forall|j: int|
            0 <= j < run.tokens[winner].len() && j < emitted.len() ==> (
            #[trigger] emitted[j]).token == run.tokens[winner][j],
        0 <= i < run.after_cluster(winner, emitted).lengths[label],
        i < emitted.len(),
    ensures
        ({
            let next = run.after_cluster(winner, emitted);
            &&& next.lengths[label] > run.lengths[label] ==> next.logprobs[label][i] == reported(
                emitted[i],
                run.tokens[label][i],
            )
            &&& next.lengths[label] == run.lengths[label] ==> next.logprobs[label]
                == run.logprobs[label]
        }),
{
    let next = run.after_cluster(winner, emitted);
    let own = run.tokens[label];
    let winning = run.tokens[winner];
    law_cluster_call_scores_its_labels(run, winner, emitted, label, i);
    assert(run.known.contains(label));
    assert(run.tokens.contains_key(label));
    assert(run.logprobs.contains_key(label)) by {
        assert(run.lengths.dom().contains(label) == run.logprobs.dom().contains(label));
    }
    if next.lengths[label] > run.lengths[label] {
        assert(run.improves(label, winner));
        scoring::law_covered(own, winning);
        let n = run.cluster_length(label, winner);
        assert(n == scoring::covered(own, winning));
        scoring::law_scored_tokens_follow_shared_ones(own, winning, i);
        assert forall|j: int| 0 <= j < i implies (#[trigger] emitted[j]).token == own[j] by {
            assert(own[j] == winning[j]);
        }
        law_label_is_read_off_the_reply(run, emitted, label, n, i);
    }
}

/// The label of a cluster that a call over the cluster emits is scored whole.
pub proof fn law_cluster_call_resolves_its_winner(
    run: adaptive::RunView,
    winner: Seq<char>,
    emitted: Seq<base::TokenLogprobView>,
)
    requires
        run.wf(),
        run.scored_within(),
        run.wants_call(),
        run.frontier[0].labels.contains(winner),
    ensures
        scoring::resolved_of(run.after_cluster(winner, emitted).lengths, winner)
            == run.tokens[winner].len(),
{
    let own = run.tokens[winner];
    scoring::law_covered(own, own);
    assert(run.known.contains(winner));
    assert(run.tokens.contains_key(winner));
    assert(run.cluster_length(winner, winner) == own.len());
    if run.lengths.contains_key(winner) {
        assert(run.lengths[winner] <= own.len());
    }
}

/// A call over a cluster takes that cluster off the front. The clusters behind
/// it stay, in order; those that the call leaves come behind them, and each of
/// their labels is one of the cluster asked about, is not scored whole by the
/// call, and shares its scored tokens with the others.
pub proof fn law_cluster_call_moves_the_frontier(
    run: adaptive::RunView,
    winner: Seq<char>,
    emitted: Seq<base::TokenLogprobView>,
    i: int,
)
    requires
        run.wf(),
        run.wants_call(),
        0 <= i < run.after_cluster(winner, emitted).frontier.len(),
    ensures
        ({
            let next = run.after_cluster(winner, emitted);
            &&& next.frontier.len() >= run.frontier.len() - 1
            &&& i < run.frontier.len() - 1 ==> next.frontier[i] == run.frontier[i + 1]
            &&& i >= run.frontier.len() - 1 ==> next.frontier[i].labels.len() >= 2 && forall|
                a: Seq<char>,
            | #[trigger]
                next.frontier[i].labels.contains(a) ==> run.frontier[0].labels.contains(a)
                    && run.cluster_length(a, winner) < run.tokens[a].len() && run.cluster_length(
                    a,
                    winner,
                ) == next.frontier[i].resolved_length
        }),
{
    let asked = run.frontier[0].labels;
    let rest = run.frontier.len() - 1;
    if i >= rest {
        let tokens = adaptive::cluster_tokens(run.tokens, asked);
        let lengths = Map::new(
            |l: Seq<char>| asked.contains(l),
            |l: Seq<char>| run.cluster_length(l, winner),
        );
        scoring::law_cluster(asked, tokens, lengths, i - rest);
    }
}

/// Two labels of the cluster asked about that the call does not score whole and
/// scores on the same tokens are left together.
pub proof fn law_cluster_call_leaves_labels_together(
    run: adaptive::RunView,
    winner: Seq<char>,
    emitted: Seq<base::TokenLogprobView>,
    a: Seq<char>,
    b: Seq<char>,
)
    requires
        run.wf(),
        run.wants_call(),
        run.frontier[0].labels.contains(a),
        run.frontier[0].labels.contains(b),
        a != b,
        run.cluster_length(a, winner) < run.tokens[a].len(),
        run.cluster_length(b, winner) < run.tokens[b].len(),
        run.tokens[a].take(run.cluster_length(a, winner) as int) == run.tokens[b].take(
            run.cluster_length(b, winner) as int,
        ),
    ensures
        exists|i: int|
            0 <= i < run.after_cluster(winner, emitted).frontier.len() && (
            #[trigger] run.after_cluster(winner, emitted).frontier[i]).labels.contains(a)
                && run.after_cluster(winner, emitted).frontier[i].labels.contains(b),
{
    let next = run.after_cluster(winner, emitted);
    let asked = run.frontier[0].labels;
    let tokens = adaptive::cluster_tokens(run.tokens, asked);
    let lengths = Map::new(
        |l: Seq<char>| asked.contains(l),
        |l: Seq<char>| run.cluster_length(l, winner),
    );
    scoring::law_clusters_complete(asked, tokens, lengths, a, b);
    let found = scoring::unresolved_clusters(asked, tokens, lengths);
    let k = choose|k: int|
        0 <= k < found.len() && (#[trigger] found[k]).labels.contains(a)
            && found[k].labels.contains(b);
    assert(next.frontier[run.frontier.len() - 1 + k] == found[k]);
}

// ---------------------------------------------------------------------------
// What is reported in the end
// ---------------------------------------------------------------------------

/// A coverage says of every label offered, and of no other, how many of its
/// tokens are scored and how many it has; of a label that is scored to no
/// extent, none, and of a label without tokens, none of none.
pub proof fn law_coverage_counts_tokens(
    coverage: Map<Seq<char>, Coverage>,
    run: adaptive::RunView,
    label: Seq<char>,
)
    requires
        adaptive::is_coverage_of(coverage, run),
    ensures
        coverage.contains_key(label) <==> run.labels.contains(label),
        run.labels.contains(label) && run.lengths.contains_key(label) ==> coverage[label].scored
            == run.lengths[label],
        run.labels.contains(label) && !run.lengths.contains_key(label) ==> coverage[label].scored
            == 0,
        run.labels.contains(label) && run.tokens.contains_key(label) ==> coverage[label].total
            == run.tokens[label].len(),
        run.labels.contains(label) && !run.tokens.contains_key(label) ==> coverage[label].total
            == 0,
{
}

/// A run starts without a call, a score or a cluster.
pub proof fn law_run_starts_empty(
    labels: Seq<Seq<char>>,
    known: Seq<Seq<char>>,
    tokens: Map<Seq<char>, Seq<Seq<char>>>,
    max_calls: Option<nat>,
)
    ensures
        ({
            let run = adaptive::RunView::started(labels, known, tokens, max_calls);
            &&& run.labels == labels && run.known == known && run.tokens == tokens
            &&& run.max_calls == max_calls
            &&& run.calls == 0 && run.frontier.len() == 0
            &&& forall|l: Seq<char>| !#[trigger] run.lengths.contains_key(l)
            &&& forall|l: Seq<char>| !#[trigger] run.logprobs.contains_key(l)
        }),
{
}

} // verus!
