//! What an adaptive run does to the probabilities: a cluster call shares out
//! anew what the labels of its cluster have, so the total of every group of
//! labels that the first call left together stays what it was.

use crate::adaptive;
use crate::backends::base;
use crate::scalar::Scalar;
use crate::scoring;
use vstd::prelude::*;

verus! {

// ---------------------------------------------------------------------------
// Clusters within clusters
// ---------------------------------------------------------------------------

/// Whether `outer` holds all labels of `inner`.
pub open spec fn holds_all(outer: Seq<Seq<char>>, inner: Seq<Seq<char>>) -> bool {
    forall|l: Seq<char>| #[trigger] inner.contains(l) ==> outer.contains(l)
}

/// Whether each reply answers a call that was wanted, whatever it says.
pub open spec fn wanted(run: adaptive::RunView, replies: Seq<adaptive::Reply>) -> bool
    decreases replies.len(),
{
    replies.len() > 0 ==> {
        &&& wanted(run, replies.drop_last())
        &&& adaptive::after_replies(run, replies.drop_last()).wants_call()
    }
}

/// Replies that keep to the labels asked for answer calls that were wanted.
pub proof fn law_conforming_replies_were_wanted(
    run: adaptive::RunView,
    replies: Seq<adaptive::Reply>,
)
    requires
        adaptive::conforming(run, replies),
    ensures
        wanted(run, replies),
    decreases replies.len(),
{
    if replies.len() > 0 {
        law_conforming_replies_were_wanted(run, replies.drop_last());
    }
}

/// A run stays in order over replies.
proof fn lemma_in_order(run: adaptive::RunView, replies: Seq<adaptive::Reply>)
    requires
        run.wf(),
        run.scored_within(),
        wanted(run, replies),
    ensures
        adaptive::after_replies(run, replies).wf(),
        adaptive::after_replies(run, replies).scored_within(),
        adaptive::after_replies(run, replies).known == run.known,
    decreases replies.len(),
{
    if replies.len() > 0 {
        let before = adaptive::after_replies(run, replies.drop_last());
        lemma_in_order(run, replies.drop_last());
        adaptive::law_run_stays_in_order(before, replies.last().winner, replies.last().emitted);
    }
}

/// Clusters nest: whatever the backend replies, the labels of every cluster
/// that a run comes to were together in one cluster before. A label that is in
/// no cluster after the first call is in none later.
pub proof fn law_clusters_nest(run: adaptive::RunView, replies: Seq<adaptive::Reply>, i: int)
    requires
        run.wf(),
        run.scored_within(),
        wanted(run, replies),
        0 <= i < adaptive::after_replies(run, replies).frontier.len(),
    ensures
        exists|j: int|
            0 <= j < run.frontier.len() && #[trigger] holds_all(
                run.frontier[j].labels,
                adaptive::after_replies(run, replies).frontier[i].labels,
            ),
    decreases replies.len(),
{
    let labels = adaptive::after_replies(run, replies).frontier[i].labels;
    if replies.len() == 0 {
        assert(holds_all(run.frontier[i].labels, labels));
    } else {
        let before = adaptive::after_replies(run, replies.drop_last());
        let winner = replies.last().winner;
        lemma_in_order(run, replies.drop_last());
        let rest = before.frontier.len() - 1;
        let from: int = if i < rest {
            i + 1
        } else {
            0
        };
        assert(holds_all(before.frontier[from].labels, labels)) by {
            let asked = before.frontier[0].labels;
            if i >= rest {
                scoring::law_cluster(
                    asked,
                    adaptive::cluster_tokens(before.tokens, asked),
                    Map::new(
                        |l: Seq<char>| asked.contains(l),
                        |l: Seq<char>| before.cluster_length(l, winner),
                    ),
                    i - rest,
                );
            }
        }
        law_clusters_nest(run, replies.drop_last(), from);
        let j = choose|j: int|
            0 <= j < run.frontier.len() && #[trigger] holds_all(
                run.frontier[j].labels,
                before.frontier[from].labels,
            );
        assert(holds_all(run.frontier[j].labels, labels));
    }
}

// ---------------------------------------------------------------------------
// Probabilities over a run
// ---------------------------------------------------------------------------

/// The probabilities once the shares of a number of cluster calls were given
/// out, in order.
pub open spec fn shared_out(
    probabilities: Map<Seq<char>, Scalar>,
    shares: Seq<Map<Seq<char>, Scalar>>,
) -> Map<Seq<char>, Scalar>
    decreases shares.len(),
{
    if shares.len() == 0 {
        probabilities
    } else {
        shared_out(probabilities, shares.drop_last()).union_prefer_right(shares.last())
    }
}

/// The labels that the call at position `k` is constrained to.
pub open spec fn asked(run: adaptive::RunView, replies: Seq<adaptive::Reply>, k: int) -> Seq<
    Seq<char>,
> {
    adaptive::after_replies(run, replies.take(k)).frontier[0].labels
}

/// Whether each call gives shares to labels of its own cluster only.
pub open spec fn fitting(
    run: adaptive::RunView,
    replies: Seq<adaptive::Reply>,
    shares: Seq<Map<Seq<char>, Scalar>>,
) -> bool {
    &&& shares.len() == replies.len()
    &&& forall|k: int, l: Seq<char>|
        0 <= k < shares.len() && #[trigger] shares[k].contains_key(l) ==> asked(
            run,
            replies,
            k,
        ).contains(l)
}

/// What holds of some calls holds of all of them but the last.
proof fn lemma_fitting_before(
    run: adaptive::RunView,
    replies: Seq<adaptive::Reply>,
    shares: Seq<Map<Seq<char>, Scalar>>,
)
    requires
        replies.len() > 0,
        fitting(run, replies, shares),
    ensures
        fitting(run, replies.drop_last(), shares.drop_last()),
        forall|k: int|
            0 <= k < replies.len() - 1 ==> #[trigger] asked(run, replies.drop_last(), k) == asked(
                run,
                replies,
                k,
            ),
        asked(run, replies, replies.len() - 1) == adaptive::after_replies(
            run,
            replies.drop_last(),
        ).frontier[0].labels,
{
    let earlier = replies.drop_last();
    assert forall|k: int| 0 <= k < replies.len() - 1 implies #[trigger] asked(run, earlier, k)
        == asked(run, replies, k) by {
        assert(earlier.take(k) =~= replies.take(k));
    }
    assert(replies.take(replies.len() - 1) =~= earlier);
    assert forall|k: int, l: Seq<char>|
        0 <= k < shares.len() - 1 && #[trigger] shares.drop_last()[k].contains_key(l) implies asked(
        run,
        earlier,
        k,
    ).contains(l) by {
        assert(shares[k].contains_key(l));
        assert(asked(run, earlier, k) == asked(run, replies, k));
    }
}

/// Whether a label has the same probability in two distributions, or none in
/// both.
pub open spec fn same_at(
    a: Map<Seq<char>, Scalar>,
    b: Map<Seq<char>, Scalar>,
    label: Seq<char>,
) -> bool {
    &&& a.contains_key(label) == b.contains_key(label)
    &&& a.contains_key(label) ==> a[label] == b[label]
}

/// A label that is in no cluster has its probability for good: no later call
/// touches it.
pub proof fn law_settled_label_keeps_probability(
    run: adaptive::RunView,
    replies: Seq<adaptive::Reply>,
    probabilities: Map<Seq<char>, Scalar>,
    shares: Seq<Map<Seq<char>, Scalar>>,
    label: Seq<char>,
)
    requires
        run.wf(),
        run.scored_within(),
        wanted(run, replies),
        fitting(run, replies, shares),
        forall|j: int|
            0 <= j < run.frontier.len() ==> !(#[trigger] run.frontier[j]).labels.contains(label),
    ensures
        same_at(probabilities, shared_out(probabilities, shares), label),
    decreases replies.len(),
{
    if replies.len() > 0 {
        let earlier = replies.drop_last();
        lemma_fitting_before(run, replies, shares);
        law_settled_label_keeps_probability(
            run,
            earlier,
            probabilities,
            shares.drop_last(),
            label,
        );
        law_clusters_nest(run, earlier, 0);
        let last = replies.len() - 1;
        assert(!asked(run, replies, last).contains(label));
        assert(!shares[last].contains_key(label));
    }
}

/// How much a label counts; nothing where it has no probability.
pub open spec fn weight_of(
    label: Seq<char>,
    weight: spec_fn(Scalar) -> int,
    probabilities: Map<Seq<char>, Scalar>,
) -> int {
    if probabilities.contains_key(label) {
        weight(probabilities[label])
    } else {
        0
    }
}

/// The total of some labels, where `weight` says how much a probability counts,
/// such as its exact value in units of the least double.
pub open spec fn total(
    labels: Seq<Seq<char>>,
    weight: spec_fn(Scalar) -> int,
    probabilities: Map<Seq<char>, Scalar>,
) -> int
    decreases labels.len(),
{
    if labels.len() == 0 {
        0
    } else {
        total(labels.drop_last(), weight, probabilities) + weight_of(
            labels.last(),
            weight,
            probabilities,
        )
    }
}

/// The sum of the weights of some probabilities.
pub open spec fn weight_sum(values: Seq<Scalar>, weight: spec_fn(Scalar) -> int) -> int {
    values.fold_left(0int, |sum: int, x: Scalar| sum + weight(x))
}

/// What a cluster call shares out is what its labels have: the masses of some
/// labels sum to the total of these labels, whatever a probability counts.
pub proof fn law_masses_sum_to_total(
    labels: Seq<Seq<char>>,
    weight: spec_fn(Scalar) -> int,
    probabilities: Map<Seq<char>, Scalar>,
)
    ensures
        weight_sum(scoring::masses(probabilities, labels), weight) == total(
            labels,
            weight,
            probabilities,
        ),
    decreases labels.len(),
{
    reveal(Seq::filter);
    let masses = scoring::masses(probabilities, labels);
    if labels.len() > 0 {
        let rest = labels.drop_last();
        law_masses_sum_to_total(rest, weight, probabilities);
        if probabilities.contains_key(labels.last()) {
            assert(masses =~= scoring::masses(probabilities, rest).push(
                probabilities[labels.last()],
            ));
            assert(masses.drop_last() =~= scoring::masses(probabilities, rest));
        } else {
            assert(masses =~= scoring::masses(probabilities, rest));
        }
    } else {
        assert(masses =~= Seq::<Scalar>::empty());
    }
}

/// The total of two groups together is the sum of their totals, and that of one
/// label is what the label counts.
pub proof fn law_total_of_parts(
    a: Seq<Seq<char>>,
    b: Seq<Seq<char>>,
    label: Seq<char>,
    weight: spec_fn(Scalar) -> int,
    probabilities: Map<Seq<char>, Scalar>,
)
    ensures
        total(a + b, weight, probabilities) == total(a, weight, probabilities) + total(
            b,
            weight,
            probabilities,
        ),
        probabilities.contains_key(label) ==> total(seq![label], weight, probabilities) == weight(
            probabilities[label],
        ),
        !probabilities.contains_key(label) ==> total(seq![label], weight, probabilities) == 0,
    decreases b.len(),
{
    reveal_with_fuel(total, 2);
    assert(seq![label].drop_last() =~= Seq::<Seq<char>>::empty());
    if b.len() == 0 {
        assert(a + b =~= a);
    } else {
        law_total_of_parts(a, b.drop_last(), label, weight, probabilities);
        assert((a + b).drop_last() =~= a + b.drop_last());
    }
}

/// A label taken out takes its own weight with it.
proof fn lemma_total_remove(
    labels: Seq<Seq<char>>,
    i: int,
    weight: spec_fn(Scalar) -> int,
    probabilities: Map<Seq<char>, Scalar>,
)
    requires
        0 <= i < labels.len(),
    ensures
        total(labels, weight, probabilities) == total(labels.remove(i), weight, probabilities)
            + weight_of(labels[i], weight, probabilities),
    decreases labels.len(),
{
    if i == labels.len() - 1 {
        assert(labels.remove(i) =~= labels.drop_last());
    } else {
        lemma_total_remove(labels.drop_last(), i, weight, probabilities);
        assert(labels.remove(i).drop_last() =~= labels.drop_last().remove(i));
    }
}

/// The total of labels whose probabilities did not change did not change.
proof fn lemma_total_unchanged(
    labels: Seq<Seq<char>>,
    weight: spec_fn(Scalar) -> int,
    a: Map<Seq<char>, Scalar>,
    b: Map<Seq<char>, Scalar>,
)
    requires
        forall|l: Seq<char>| #[trigger] labels.contains(l) ==> same_at(a, b, l),
    ensures
        total(labels, weight, a) == total(labels, weight, b),
    decreases labels.len(),
{
    if labels.len() > 0 {
        let rest = labels.drop_last();
        assert forall|l: Seq<char>| #[trigger] rest.contains(l) implies same_at(a, b, l) by {
            assert(labels[rest.index_of(l)] == l);
            assert(labels.contains(l));
        }
        lemma_total_unchanged(rest, weight, a, b);
        assert(labels.contains(labels.last()));
    }
}

/// Where only labels of `inner` changed, the total of labels around them
/// changed as theirs did.
proof fn lemma_total_change(
    outer: Seq<Seq<char>>,
    inner: Seq<Seq<char>>,
    weight: spec_fn(Scalar) -> int,
    a: Map<Seq<char>, Scalar>,
    b: Map<Seq<char>, Scalar>,
)
    requires
        outer.no_duplicates(),
        inner.no_duplicates(),
        holds_all(outer, inner),
        forall|l: Seq<char>| #[trigger]
            outer.contains(l) && !inner.contains(l) ==> same_at(a, b, l),
    ensures
        total(outer, weight, b) - total(outer, weight, a) == total(inner, weight, b) - total(
            inner,
            weight,
            a,
        ),
    decreases inner.len(),
{
    if inner.len() == 0 {
        lemma_total_unchanged(outer, weight, a, b);
    } else {
        let x = inner.last();
        assert(inner.contains(x));
        assert(outer.contains(x));
        let i = outer.index_of(x);
        let around = outer.remove(i);
        let within = inner.drop_last();
        lemma_total_remove(outer, i, weight, a);
        lemma_total_remove(outer, i, weight, b);
        assert(around.no_duplicates());
        assert forall|l: Seq<char>| #[trigger] within.contains(l) implies around.contains(l) by {
            let k = within.index_of(l);
            assert(inner[k] == l);
            assert(l != x);
            assert(inner.contains(l));
            let p = outer.index_of(l);
            if p < i {
                assert(around[p] == l);
            } else {
                assert(around[p - 1] == l);
            }
        }
        assert forall|l: Seq<char>| #[trigger]
            around.contains(l) && !within.contains(l) implies same_at(a, b, l) by {
            let p = around.index_of(l);
            let q: int = if p < i {
                p
            } else {
                p + 1
            };
            assert(outer[q] == l);
            assert(outer.contains(l));
            assert(l != x);
            if inner.contains(l) {
                let k = inner.index_of(l);
                assert(within[k] == l);
            }
        }
        lemma_total_change(around, within, weight, a, b);
    }
}

/// By how much the call at position `k` changes the total of its cluster.
pub open spec fn change(
    run: adaptive::RunView,
    replies: Seq<adaptive::Reply>,
    probabilities: Map<Seq<char>, Scalar>,
    shares: Seq<Map<Seq<char>, Scalar>>,
    weight: spec_fn(Scalar) -> int,
    k: int,
) -> int {
    total(asked(run, replies, k), weight, shared_out(probabilities, shares.take(k + 1))) - total(
        asked(run, replies, k),
        weight,
        shared_out(probabilities, shares.take(k)),
    )
}

/// Whether no call changes the total of its cluster by more than `slack`, which
/// is what the rounding of one call amounts to; none in exact arithmetic.
pub open spec fn locked_within(
    run: adaptive::RunView,
    replies: Seq<adaptive::Reply>,
    probabilities: Map<Seq<char>, Scalar>,
    shares: Seq<Map<Seq<char>, Scalar>>,
    weight: spec_fn(Scalar) -> int,
    slack: int,
) -> bool {
    forall|k: int|
        0 <= k < replies.len() ==> -slack <= #[trigger] change(
            run,
            replies,
            probabilities,
            shares,
            weight,
            k,
        ) <= slack
}

/// Whether `labels` hold each cluster whole or nothing of it.
pub open spec fn undivided(labels: Seq<Seq<char>>, frontier: Seq<scoring::ClusterView>) -> bool {
    forall|j: int|
        0 <= j < frontier.len() ==> holds_all(labels, (#[trigger] frontier[j]).labels) || forall|
            l: Seq<char>,
        | #[trigger]
            frontier[j].labels.contains(l) ==> !labels.contains(l)
}

/// Where each cluster call keeps the total of its cluster to within `slack`,
/// the total of any labels that take in each cluster whole or not at all stays
/// what it was, to within `slack` for each call. In exact arithmetic, where
/// `slack` is zero, it does not change.
pub proof fn law_totals_are_locked(
    run: adaptive::RunView,
    replies: Seq<adaptive::Reply>,
    probabilities: Map<Seq<char>, Scalar>,
    shares: Seq<Map<Seq<char>, Scalar>>,
    weight: spec_fn(Scalar) -> int,
    slack: int,
    labels: Seq<Seq<char>>,
)
    requires
        run.wf(),
        run.scored_within(),
        wanted(run, replies),
        fitting(run, replies, shares),
        locked_within(run, replies, probabilities, shares, weight, slack),
        labels.no_duplicates(),
        undivided(labels, run.frontier),
    ensures
        -(replies.len() * slack) <= total(labels, weight, shared_out(probabilities, shares)) - total(
            labels,
            weight,
            probabilities,
        ) <= replies.len() * slack,
    decreases replies.len(),
{
    if replies.len() > 0 {
        let n = replies.len() as int;
        let earlier = replies.drop_last();
        let given = shares.drop_last();
        lemma_fitting_before(run, replies, shares);
        assert forall|k: int| 0 <= k < earlier.len() implies -slack <= #[trigger] change(
            run,
            earlier,
            probabilities,
            given,
            weight,
            k,
        ) <= slack by {
            assert(asked(run, earlier, k) == asked(run, replies, k));
            assert(given.take(k) =~= shares.take(k));
            assert(given.take(k + 1) =~= shares.take(k + 1));
            assert(-slack <= change(run, replies, probabilities, shares, weight, k) <= slack);
        }
        law_totals_are_locked(run, earlier, probabilities, given, weight, slack, labels);
        lemma_in_order(run, earlier);
        law_clusters_nest(run, earlier, 0);
        let cluster = asked(run, replies, n - 1);
        let j = choose|j: int|
            0 <= j < run.frontier.len() && #[trigger] holds_all(run.frontier[j].labels, cluster);
        let a = shared_out(probabilities, given);
        let b = shared_out(probabilities, shares);
        assert(shares.take(n - 1) =~= given);
        assert(shares.take(n) =~= shares);
        assert(-slack <= change(run, replies, probabilities, shares, weight, n - 1) <= slack);
        assert forall|l: Seq<char>| !cluster.contains(l) implies #[trigger] same_at(a, b, l) by {
            assert(!shares[n - 1].contains_key(l));
        }
        if holds_all(labels, run.frontier[j].labels) {
            assert(holds_all(labels, cluster));
            lemma_total_change(labels, cluster, weight, a, b);
        } else {
            lemma_total_unchanged(labels, weight, a, b);
        }
        assert(n * slack == (n - 1) * slack + slack) by (nonlinear_arith);
    }
}

/// The totals of a run are locked by its first call. Of every group of labels
/// that the first call left together, and of all labels, the total stays what
/// it was after the first call, to within the rounding of the calls made since;
/// every other label, the first winner with them, keeps its probability as it
/// is. A run that is limited to one call has the same groups and ends there.
pub proof fn law_first_call_locks_totals(
    run: adaptive::RunView,
    winner: Seq<char>,
    emitted: Seq<base::TokenLogprobView>,
    replies: Seq<adaptive::Reply>,
    probabilities: Map<Seq<char>, Scalar>,
    shares: Seq<Map<Seq<char>, Scalar>>,
    weight: spec_fn(Scalar) -> int,
    slack: int,
)
    requires
        run.wf(),
        run.scored_within(),
        run.labels.contains(winner),
        wanted(run.after_first(winner, emitted), replies),
        fitting(run.after_first(winner, emitted), replies, shares),
        locked_within(
            run.after_first(winner, emitted),
            replies,
            probabilities,
            shares,
            weight,
            slack,
        ),
    ensures
        ({
            let first = run.after_first(winner, emitted);
            let after = shared_out(probabilities, shares);
            let bound = replies.len() * slack;
            &&& forall|j: int|
                0 <= j < first.frontier.len() ==> -bound <= #[trigger] total(
                    first.frontier[j].labels,
                    weight,
                    after,
                ) - total(first.frontier[j].labels, weight, probabilities) <= bound
            &&& -bound <= total(run.known, weight, after) - total(run.known, weight, probabilities)
                <= bound
            &&& forall|l: Seq<char>|
                (forall|j: int|
                    0 <= j < first.frontier.len() ==> !(
                    #[trigger] first.frontier[j]).labels.contains(l)) ==> #[trigger] same_at(
                    probabilities,
                    after,
                    l,
                )
            &&& same_at(probabilities, after, winner)
        }),
        ({
            let limited = adaptive::RunView { max_calls: Some(1), ..run }.after_first(
                winner,
                emitted,
            );
            &&& limited.frontier == run.after_first(winner, emitted).frontier
            &&& limited.logprobs == run.after_first(winner, emitted).logprobs
            &&& !limited.wants_call()
        }),
{
    let first = run.after_first(winner, emitted);
    let after = shared_out(probabilities, shares);
    let bound = replies.len() * slack;
    adaptive::law_run_stays_in_order(run, winner, emitted);
    adaptive::law_first_call_resolves_winner(run, winner, emitted);
    assert forall|j: int| 0 <= j < first.frontier.len() implies -bound <= #[trigger] total(
        first.frontier[j].labels,
        weight,
        after,
    ) - total(first.frontier[j].labels, weight, probabilities) <= bound by {
        let group = first.frontier[j].labels;
        assert forall|i: int| 0 <= i < first.frontier.len() implies holds_all(
            group,
            (#[trigger] first.frontier[i]).labels,
        ) || forall|l: Seq<char>| #[trigger]
            first.frontier[i].labels.contains(l) ==> !group.contains(l) by {
            assert forall|l: Seq<char>| #[trigger]
                first.frontier[i].labels.contains(l) && i != j implies !group.contains(l) by {
                if group.contains(l) {
                    scoring::law_clusters_disjoint(run.known, run.tokens, first.lengths, i, j, l);
                }
            }
        }
        law_totals_are_locked(
            first,
            replies,
            probabilities,
            shares,
            weight,
            slack,
            group,
        );
    }
    assert(undivided(run.known, first.frontier));
    law_totals_are_locked(first, replies, probabilities, shares, weight, slack, run.known);
    assert forall|l: Seq<char>|
        (forall|j: int|
            0 <= j < first.frontier.len() ==> !(#[trigger] first.frontier[j]).labels.contains(
                l,
            )) implies #[trigger] same_at(probabilities, after, l) by {
        law_settled_label_keeps_probability(first, replies, probabilities, shares, l);
    }
    law_settled_label_keeps_probability(first, replies, probabilities, shares, winner);
    let limited = adaptive::RunView { max_calls: Some(1), ..run }.after_first(winner, emitted);
    assert(limited.lengths =~= first.lengths);
    assert(limited.logprobs =~= first.logprobs);
}

} // verus!
