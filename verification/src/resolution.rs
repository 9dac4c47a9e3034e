//! What an adaptive run comes to: labels that no call has told apart are
//! waiting in a common cluster, so a run that has no cluster left has told all
//! labels apart.

use crate::adaptive;
use crate::backends::base;
use crate::scoring;
use vstd::prelude::*;

verus! {

/// Whether some token of `label` is still to be scored.
pub open spec fn is_open(run: adaptive::RunView, label: Seq<char>) -> bool {
    run.known.contains(label) && scoring::is_unresolved(run.tokens, run.lengths, label)
}

/// The tokens that `label` is scored on.
pub open spec fn scored_on(run: adaptive::RunView, label: Seq<char>) -> Seq<Seq<char>> {
    scoring::scored_prefix(run.tokens, run.lengths, label)
}

/// Two labels that no call has told apart: neither is scored to its end, and
/// both are scored on the same tokens.
pub open spec fn ambiguous(run: adaptive::RunView, a: Seq<char>, b: Seq<char>) -> bool {
    a != b && is_open(run, a) && is_open(run, b) && scored_on(run, a) == scored_on(run, b)
}

/// Whether two labels are in a common cluster of the frontier.
pub open spec fn awaited(run: adaptive::RunView, a: Seq<char>, b: Seq<char>) -> bool {
    exists|i: int|
        0 <= i < run.frontier.len() && (#[trigger] run.frontier[i]).labels.contains(a)
            && run.frontier[i].labels.contains(b)
}

/// Every ambiguity is waiting for a call.
pub open spec fn ambiguities_await(run: adaptive::RunView) -> bool {
    forall|a: Seq<char>, b: Seq<char>| #[trigger] ambiguous(run, a, b) ==> awaited(run, a, b)
}

/// A label that begins with the scored tokens of an open label is scored as
/// far as that label.
pub open spec fn levelled(run: adaptive::RunView) -> bool {
    forall|a: Seq<char>, b: Seq<char>|
        #![trigger is_open(run, a), run.known.contains(b)]
        is_open(run, a) && run.known.contains(b) && scored_on(run, a).is_prefix_of(run.tokens[b])
            ==> scoring::resolved_of(run.lengths, b) == scoring::resolved_of(run.lengths, a)
}

/// A cluster of the frontier holds open labels, all scored on the same tokens,
/// and no label is in two clusters.
pub open spec fn clusters_fit(run: adaptive::RunView) -> bool {
    &&& forall|i: int, l: Seq<char>|
        0 <= i < run.frontier.len() && #[trigger] run.frontier[i].labels.contains(l) ==> is_open(
            run,
            l,
        )
    &&& forall|i: int, a: Seq<char>, b: Seq<char>|
        0 <= i < run.frontier.len() && #[trigger] run.frontier[i].labels.contains(a)
            && #[trigger] run.frontier[i].labels.contains(b) ==> scored_on(run, a) == scored_on(
            run,
            b,
        )
    &&& forall|i: int, j: int, l: Seq<char>|
        0 <= i < run.frontier.len() && 0 <= j < run.frontier.len()
            && #[trigger] run.frontier[i].labels.contains(l)
            && #[trigger] run.frontier[j].labels.contains(l) ==> i == j
}

/// The frontier is exactly what is still to be told apart.
pub open spec fn accounted(run: adaptive::RunView) -> bool {
    &&& clusters_fit(run)
    &&& levelled(run)
    &&& ambiguities_await(run)
    &&& forall|l: Seq<char>| #[trigger] run.known.contains(l) ==> run.lengths.contains_key(l)
}

/// One call scores labels that it does not tell apart equally far.
proof fn lemma_same_call(a: Seq<Seq<char>>, b: Seq<Seq<char>>, winning: Seq<Seq<char>>)
    requires
        scoring::covered(a, winning) < a.len(),
        a.take(scoring::covered(a, winning) as int).is_prefix_of(b),
    ensures
        scoring::covered(b, winning) == scoring::covered(a, winning),
{
    let d = scoring::divergence(a, winning);
    let p = a.take(scoring::covered(a, winning) as int);
    scoring::lemma_divergence(a, winning);
    assert forall|i: int| 0 <= i <= d implies #[trigger] b[i] == a[i] by {
        assert(p[i] == b.subrange(0, p.len() as int)[i]);
    }
    assert forall|i: int| 0 <= i < d implies #[trigger] b[i] == winning[i] by {
        assert(b[i] == a[i]);
        assert(a[i] == winning[i]);
    }
    assert(b[d as int] == a[d as int]);
    scoring::lemma_divergence_is(b, winning, d);
}

/// After the first call, whatever label it emits, the frontier is exactly what
/// is still to be told apart.
pub proof fn law_first_call_accounts(
    run: adaptive::RunView,
    winner: Seq<char>,
    emitted: Seq<base::TokenLogprobView>,
)
    requires
        run.wf(),
        forall|l: Seq<char>| #[trigger] run.known.contains(l) ==> run.labels.contains(l),
    ensures
        accounted(run.after_first(winner, emitted)),
{
    let next = run.after_first(winner, emitted);
    let won = scoring::tokens_of(run.tokens, winner);
    assert forall|l: Seq<char>| #[trigger] run.known.contains(l) implies next.lengths.contains_key(l)
        && next.lengths[l] == scoring::covered(run.tokens[l], won) by {
        assert(run.labels.contains(l));
        assert(run.tokens.contains_key(l));
    }
    assert forall|i: int, l: Seq<char>|
        0 <= i < next.frontier.len() && #[trigger] next.frontier[i].labels.contains(l) implies is_open(
        next,
        l,
    ) by {
        scoring::law_cluster(run.known, run.tokens, next.lengths, i);
    }
    assert forall|i: int, a: Seq<char>, b: Seq<char>|
        0 <= i < next.frontier.len() && #[trigger] next.frontier[i].labels.contains(a)
            && #[trigger] next.frontier[i].labels.contains(b) implies scored_on(next, a)
        == scored_on(next, b) by {
        scoring::law_cluster(run.known, run.tokens, next.lengths, i);
    }
    assert forall|i: int, j: int, l: Seq<char>|
        0 <= i < next.frontier.len() && 0 <= j < next.frontier.len()
            && #[trigger] next.frontier[i].labels.contains(l)
            && #[trigger] next.frontier[j].labels.contains(l) implies i == j by {
        scoring::law_clusters_disjoint(run.known, run.tokens, next.lengths, i, j, l);
    }
    assert forall|a: Seq<char>, b: Seq<char>|
        #![trigger is_open(next, a), next.known.contains(b)]
        is_open(next, a) && next.known.contains(b) && scored_on(next, a).is_prefix_of(
            next.tokens[b],
        ) implies scoring::resolved_of(next.lengths, b) == scoring::resolved_of(
        next.lengths,
        a,
    ) by {
        assert(run.known.contains(a) && run.known.contains(b));
        lemma_same_call(run.tokens[a], run.tokens[b], won);
    }
    assert forall|a: Seq<char>, b: Seq<char>| #[trigger] ambiguous(next, a, b) implies awaited(
        next,
        a,
        b,
    ) by {
        scoring::law_clusters_complete(run.known, run.tokens, next.lengths, a, b);
        let found = scoring::unresolved_clusters(run.known, run.tokens, next.lengths);
        let i = choose|i: int|
            0 <= i < found.len() && (#[trigger] found[i]).labels.contains(a)
                && found[i].labels.contains(b);
        assert(next.frontier[i].labels.contains(a));
    }
}

/// A call over a cluster that emits one of its labels scores more of each
/// label of the cluster than was scored before.
proof fn lemma_cluster_call_improves(run: adaptive::RunView, winner: Seq<char>, label: Seq<char>)
    requires
        run.wf(),
        accounted(run),
        run.wants_call(),
        run.frontier[0].labels.contains(winner),
        run.frontier[0].labels.contains(label),
    ensures
        run.improves(label, winner),
{
    let a = run.tokens[label];
    let w = run.tokens[winner];
    let k = scoring::resolved_of(run.lengths, label);
    assert(is_open(run, label) && is_open(run, winner));
    assert(scored_on(run, label) == scored_on(run, winner));
    assert(scored_on(run, label).len() == k);
    assert(scored_on(run, winner).len() == scoring::resolved_of(run.lengths, winner));
    assert forall|i: int| 0 <= i < k implies #[trigger] a[i] == w[i] by {
        assert(scored_on(run, label)[i] == scored_on(run, winner)[i]);
    }
    scoring::lemma_divergence(a, w);
    let d = scoring::divergence(a, w);
    if d < k {
        assert(a[d as int] == w[d as int]);
    }
    let tokens = adaptive::cluster_tokens(run.tokens, run.frontier[0].labels);
    assert(scoring::tokens_of(tokens, winner) == w);
}

/// A call over a cluster that emits one of its labels keeps the frontier
/// exactly what is still to be told apart.
pub proof fn law_cluster_call_accounts(
    run: adaptive::RunView,
    winner: Seq<char>,
    emitted: Seq<base::TokenLogprobView>,
)
    requires
        run.wf(),
        accounted(run),
        run.wants_call(),
        run.frontier[0].labels.contains(winner),
    ensures
        accounted(run.after_cluster(winner, emitted)),
{
    let next = run.after_cluster(winner, emitted);
    let labels = run.frontier[0].labels;
    let tokens = adaptive::cluster_tokens(run.tokens, labels);
    let lengths = Map::new(
        |l: Seq<char>| labels.contains(l),
        |l: Seq<char>| run.cluster_length(l, winner),
    );
    let found = scoring::unresolved_clusters(labels, tokens, lengths);
    let rest = run.frontier.skip(1);
    let won = run.tokens[winner];
    assert(scoring::tokens_of(tokens, winner) == won);
    // Labels of the cluster are scored anew, the others as before.
    assert forall|l: Seq<char>| #[trigger] labels.contains(l) implies {
        &&& next.lengths.contains_key(l)
        &&& next.lengths[l] == scoring::covered(run.tokens[l], won)
        &&& next.lengths[l] == lengths[l]
        &&& next.lengths[l] > scoring::resolved_of(run.lengths, l)
        &&& run.known.contains(l)
        &&& is_open(run, l)
    } by {
        lemma_cluster_call_improves(run, winner, l);
        assert(run.frontier[0].labels.contains(l));
    }
    assert forall|l: Seq<char>| !labels.contains(l) implies #[trigger] scoring::resolved_of(
        next.lengths,
        l,
    ) == scoring::resolved_of(run.lengths, l) by {
    }
    // What is said of the clusters found, said of the run.
    assert forall|g: int, l: Seq<char>|
        0 <= g < found.len() && #[trigger] found[g].labels.contains(l) implies {
        &&& labels.contains(l)
        &&& is_open(next, l)
        &&& scored_on(next, l) == scoring::scored_prefix(tokens, lengths, l)
    } by {
        scoring::law_cluster(labels, tokens, lengths, g);
        assert(labels.contains(l));
    }
    // Which cluster of the old frontier one of the rest is.
    assert forall|i: int, l: Seq<char>|
        0 <= i < rest.len() && #[trigger] next.frontier[i].labels.contains(l) implies {
        &&& run.frontier[i + 1].labels.contains(l)
        &&& !labels.contains(l)
        &&& is_open(run, l)
    } by {
        assert(next.frontier[i] == run.frontier[i + 1]);
        if labels.contains(l) {
            assert(run.frontier[0].labels.contains(l));
        }
    }
    assert forall|i: int, l: Seq<char>|
        rest.len() <= i < next.frontier.len() && #[trigger] next.frontier[i].labels.contains(
            l,
        ) implies found[i - rest.len()].labels.contains(l) by {
        assert(next.frontier[i] == found[i - rest.len()]);
    }
    assert forall|i: int, l: Seq<char>|
        0 <= i < next.frontier.len() && #[trigger] next.frontier[i].labels.contains(l) implies is_open(
        next,
        l,
    ) by {
        if i < rest.len() {
            assert(scoring::resolved_of(next.lengths, l) == scoring::resolved_of(run.lengths, l));
        } else {
            assert(found[i - rest.len()].labels.contains(l));
        }
    }
    assert forall|i: int, a: Seq<char>, b: Seq<char>|
        0 <= i < next.frontier.len() && #[trigger] next.frontier[i].labels.contains(a)
            && #[trigger] next.frontier[i].labels.contains(b) implies scored_on(next, a)
        == scored_on(next, b) by {
        if i < rest.len() {
            assert(run.frontier[i + 1].labels.contains(a));
            assert(run.frontier[i + 1].labels.contains(b));
            assert(scoring::resolved_of(next.lengths, a) == scoring::resolved_of(run.lengths, a));
            assert(scoring::resolved_of(next.lengths, b) == scoring::resolved_of(run.lengths, b));
        } else {
            scoring::law_cluster(labels, tokens, lengths, i - rest.len());
            assert(found[i - rest.len()].labels.contains(a));
            assert(found[i - rest.len()].labels.contains(b));
        }
    }
    assert forall|i: int, j: int, l: Seq<char>|
        0 <= i < next.frontier.len() && 0 <= j < next.frontier.len()
            && #[trigger] next.frontier[i].labels.contains(l)
            && #[trigger] next.frontier[j].labels.contains(l) implies i == j by {
        if i < rest.len() && j < rest.len() {
            assert(run.frontier[i + 1].labels.contains(l));
            assert(run.frontier[j + 1].labels.contains(l));
        } else if i >= rest.len() && j >= rest.len() {
            assert(found[i - rest.len()].labels.contains(l));
            assert(found[j - rest.len()].labels.contains(l));
            scoring::law_clusters_disjoint(
                labels,
                tokens,
                lengths,
                i - rest.len(),
                j - rest.len(),
                l,
            );
        } else if i < rest.len() {
            assert(found[j - rest.len()].labels.contains(l));
        } else {
            assert(found[i - rest.len()].labels.contains(l));
        }
    }
    assert forall|a: Seq<char>, b: Seq<char>|
        #![trigger is_open(next, a), next.known.contains(b)]
        is_open(next, a) && next.known.contains(b) && scored_on(next, a).is_prefix_of(
            next.tokens[b],
        ) implies scoring::resolved_of(next.lengths, b) == scoring::resolved_of(
        next.lengths,
        a,
    ) && (labels.contains(a) <==> labels.contains(b)) by {
        lemma_levelled(run, next, labels, won, a, b);
    }
    assert forall|a: Seq<char>, b: Seq<char>| #[trigger] ambiguous(next, a, b) implies awaited(
        next,
        a,
        b,
    ) by {
        assert(scored_on(next, a).is_prefix_of(next.tokens[b])) by {
            assert(scored_on(next, b) =~= next.tokens[b].subrange(
                0,
                scored_on(next, b).len() as int,
            ));
        }
        lemma_levelled(run, next, labels, won, a, b);
        if labels.contains(a) {
            assert(labels.contains(b));
            assert(scoring::scored_prefix(tokens, lengths, a) == scored_on(next, a));
            assert(scoring::scored_prefix(tokens, lengths, b) == scored_on(next, b));
            scoring::law_clusters_complete(labels, tokens, lengths, a, b);
            let g = choose|g: int|
                0 <= g < found.len() && (#[trigger] found[g]).labels.contains(a)
                    && found[g].labels.contains(b);
            assert(next.frontier[rest.len() + g] == found[g]);
            assert(next.frontier[rest.len() + g].labels.contains(a));
        } else {
            assert(scoring::resolved_of(next.lengths, a) == scoring::resolved_of(run.lengths, a));
            assert(scoring::resolved_of(next.lengths, b) == scoring::resolved_of(run.lengths, b));
            assert(ambiguous(run, a, b));
            let i = choose|i: int|
                0 <= i < run.frontier.len() && (#[trigger] run.frontier[i]).labels.contains(a)
                    && run.frontier[i].labels.contains(b);
            assert(i > 0);
            assert(next.frontier[i - 1] == run.frontier[i]);
            assert(next.frontier[i - 1].labels.contains(a));
        }
    }
    assert forall|l: Seq<char>| #[trigger] next.known.contains(l) implies next.lengths.contains_key(
        l,
    ) by {
        assert(run.known.contains(l));
    }
}

/// After a call over a cluster, a label that begins with the scored tokens of
/// an open label is scored as far, and is in the cluster where that label is.
proof fn lemma_levelled(
    run: adaptive::RunView,
    next: adaptive::RunView,
    labels: Seq<Seq<char>>,
    won: Seq<Seq<char>>,
    a: Seq<char>,
    b: Seq<char>,
)
    requires
        run.wf(),
        accounted(run),
        run.frontier.len() > 0,
        labels == run.frontier[0].labels,
        next.known == run.known,
        next.tokens == run.tokens,
        forall|l: Seq<char>| #[trigger]
            labels.contains(l) ==> {
                &&& next.lengths.contains_key(l)
                &&& next.lengths[l] == scoring::covered(run.tokens[l], won)
                &&& next.lengths[l] > scoring::resolved_of(run.lengths, l)
                &&& is_open(run, l)
            },
        forall|l: Seq<char>|
            !labels.contains(l) ==> #[trigger] scoring::resolved_of(next.lengths, l)
                == scoring::resolved_of(run.lengths, l),
        is_open(next, a),
        next.known.contains(b),
        scored_on(next, a).is_prefix_of(next.tokens[b]),
    ensures
        scoring::resolved_of(next.lengths, b) == scoring::resolved_of(next.lengths, a),
        labels.contains(a) <==> labels.contains(b),
{
    let ta = run.tokens[a];
    let tb = run.tokens[b];
    let p = scored_on(next, a);
    let n = scoring::resolved_of(next.lengths, a);
    assert(p.len() == n);
    assert(run.known.contains(a) && run.known.contains(b));
    if labels.contains(a) {
        let q = scored_on(run, a);
        let k = scoring::resolved_of(run.lengths, a);
        assert(is_open(run, a));
        assert(tb.len() >= n);
        assert forall|i: int| 0 <= i < n implies #[trigger] tb[i] == ta[i] by {
            assert(p[i] == tb.subrange(0, p.len() as int)[i]);
        }
        assert(q.is_prefix_of(tb)) by {
            assert(q =~= tb.subrange(0, q.len() as int));
        }
        assert(scoring::resolved_of(run.lengths, b) == k);
        assert(is_open(run, b));
        assert(scored_on(run, b) =~= q);
        if a != b {
            assert(ambiguous(run, a, b));
            let i = choose|i: int|
                0 <= i < run.frontier.len() && (#[trigger] run.frontier[i]).labels.contains(a)
                    && run.frontier[i].labels.contains(b);
            assert(run.frontier[0].labels.contains(a));
            assert(i == 0);
        }
        assert(labels.contains(b));
        lemma_same_call(ta, tb, won);
    } else {
        assert(scoring::resolved_of(next.lengths, a) == scoring::resolved_of(run.lengths, a));
        assert(scored_on(run, a) == p);
        assert(is_open(run, a));
        assert(scoring::resolved_of(run.lengths, b) == n);
        if labels.contains(b) {
            assert(is_open(run, b));
            assert(scored_on(run, b) =~= p) by {
                assert forall|i: int| 0 <= i < n implies #[trigger] scored_on(run, b)[i] == p[i] by {
                    assert(p[i] == tb.subrange(0, p.len() as int)[i]);
                }
            }
            assert(ambiguous(run, a, b));
            let i = choose|i: int|
                0 <= i < run.frontier.len() && (#[trigger] run.frontier[i]).labels.contains(a)
                    && run.frontier[i].labels.contains(b);
            assert(run.frontier[0].labels.contains(b));
            assert(i == 0);
        }
    }
}

/// A run whose replies keep to the labels asked for, and that has no cluster
/// left, has told all labels apart: no two of them are open and scored on the
/// same tokens.
pub proof fn law_ended_run_tells_labels_apart(
    run: adaptive::RunView,
    winner: Seq<char>,
    emitted: Seq<base::TokenLogprobView>,
    replies: Seq<adaptive::Reply>,
    a: Seq<char>,
    b: Seq<char>,
)
    requires
        run.wf(),
        run.scored_within(),
        forall|l: Seq<char>| #[trigger] run.known.contains(l) ==> run.labels.contains(l),
        adaptive::conforming(run.after_first(winner, emitted), replies),
        adaptive::after_replies(run.after_first(winner, emitted), replies).frontier.len() == 0,
    ensures
        !ambiguous(adaptive::after_replies(run.after_first(winner, emitted), replies), a, b),
{
    adaptive::law_run_stays_in_order(run, winner, emitted);
    law_first_call_accounts(run, winner, emitted);
    lemma_replies_account(run.after_first(winner, emitted), replies);
}

/// Replies that keep to the labels asked for keep the account.
proof fn lemma_replies_account(run: adaptive::RunView, replies: Seq<adaptive::Reply>)
    requires
        run.wf(),
        run.scored_within(),
        accounted(run),
        adaptive::conforming(run, replies),
    ensures
        adaptive::after_replies(run, replies).wf(),
        adaptive::after_replies(run, replies).scored_within(),
        accounted(adaptive::after_replies(run, replies)),
    decreases replies.len(),
{
    if replies.len() > 0 {
        let before = adaptive::after_replies(run, replies.drop_last());
        lemma_replies_account(run, replies.drop_last());
        adaptive::law_run_stays_in_order(before, replies.last().winner, replies.last().emitted);
        law_cluster_call_accounts(before, replies.last().winner, replies.last().emitted);
    }
}

} // verus!
