//! Sequences that were made by leaving elements out.

use vstd::prelude::*;

verus! {

/// Whether `picks` are positions of a sequence of length `n`, in order, none
/// twice.
pub open spec fn ascending(picks: Seq<int>, n: int) -> bool {
    &&& forall|i: int| 0 <= i < picks.len() ==> 0 <= #[trigger] picks[i] < n
    &&& forall|i: int, j: int| 0 <= i < j < picks.len() ==> picks[i] < picks[j]
}

/// Whether `kept` is what stands in `all` at the positions `picks`, and these
/// are the positions of the elements to keep.
pub open spec fn picked_at<A>(
    all: Seq<A>,
    kept: Seq<A>,
    keep: spec_fn(A) -> bool,
    picks: Seq<int>,
) -> bool {
    &&& picks.len() == kept.len()
    &&& ascending(picks, all.len() as int)
    &&& forall|i: int| 0 <= i < kept.len() ==> #[trigger] kept[i] == all[picks[i]]
    &&& forall|p: int| 0 <= p < all.len() ==> (keep(#[trigger] all[p]) <==> picks.contains(p))
}

/// Whether `kept` has the elements of `all` that are to be kept, each as often
/// as it stands there, in their order, and nothing else.
pub open spec fn picked<A>(all: Seq<A>, kept: Seq<A>, keep: spec_fn(A) -> bool) -> bool {
    exists|picks: Seq<int>| #[trigger] picked_at(all, kept, keep, picks)
}

/// The number of elements to keep.
pub open spec fn count_kept<A>(all: Seq<A>, keep: spec_fn(A) -> bool) -> nat {
    Set::new(|p: int| 0 <= p < all.len() && keep(all[p])).len()
}

/// Filtering keeps what is to be kept and nothing else.
pub proof fn lemma_filter_picks<A>(all: Seq<A>, keep: spec_fn(A) -> bool)
    ensures
        picked(all, all.filter(keep), keep),
    decreases all.len(),
{
    reveal(Seq::filter);
    if all.len() == 0 {
        assert(picked_at(all, all.filter(keep), keep, Seq::<int>::empty()));
    } else {
        let rest = all.drop_last();
        let last = all.len() - 1;
        lemma_filter_picks(rest, keep);
        let before = choose|picks: Seq<int>| #[trigger]
            picked_at(rest, rest.filter(keep), keep, picks);
        let picks = if keep(all.last()) {
            before.push(last)
        } else {
            before
        };
        let kept = all.filter(keep);
        assert forall|i: int| 0 <= i < kept.len() implies #[trigger] kept[i] == all[picks[i]] by {
            if i < before.len() {
                assert(rest.filter(keep)[i] == rest[before[i]]);
            }
        }
        assert forall|p: int| 0 <= p < all.len() implies (keep(#[trigger] all[p])
            <==> picks.contains(p)) by {
            if p < last {
                assert(rest[p] == all[p]);
                if before.contains(p) {
                    assert(picks[before.index_of(p)] == p);
                }
                if picks.contains(p) {
                    assert(before[picks.index_of(p)] == p);
                }
            } else {
                if keep(all[p]) {
                    assert(picks[before.len() as int] == p);
                }
                if before.contains(p) {
                    assert(before[before.index_of(p)] == p);
                }
            }
        }
        assert(picked_at(all, kept, keep, picks));
    }
}

/// As many elements are picked as are to be kept; where all are, nothing
/// changes.
pub proof fn lemma_picked_count<A>(all: Seq<A>, kept: Seq<A>, keep: spec_fn(A) -> bool)
    requires
        picked(all, kept, keep),
    ensures
        kept.len() == count_kept(all, keep),
        kept.len() <= all.len(),
        (forall|p: int| 0 <= p < all.len() ==> keep(#[trigger] all[p])) ==> kept == all,
{
    let picks = choose|picks: Seq<int>| #[trigger] picked_at(all, kept, keep, picks);
    let positions = Set::new(|p: int| 0 <= p < all.len() && keep(all[p]));
    assert(picks.no_duplicates());
    picks.unique_seq_to_set();
    assert forall|p: int| picks.to_set().contains(p) <==> positions.contains(p) by {
        if picks.contains(p) {
            assert(picks[picks.index_of(p)] == p);
            assert(keep(all[p]));
        }
        if positions.contains(p) {
            assert(keep(all[p]));
        }
    }
    assert(picks.to_set() =~= positions);
    lemma_ascending(picks, all.len() as int);
    if forall|p: int| 0 <= p < all.len() ==> keep(#[trigger] all[p]) {
        let every = Seq::new(all.len(), |i: int| i);
        every.unique_seq_to_set();
        assert forall|p: int| every.to_set().contains(p) <==> positions.contains(p) by {
            if 0 <= p < all.len() {
                assert(every[p] == p);
                assert(keep(all[p]));
            }
        }
        assert(every.to_set() =~= positions);
        assert(kept =~= all);
    }
}

/// As many positions as there are, in order, are all positions in turn.
proof fn lemma_ascending(picks: Seq<int>, n: int)
    requires
        ascending(picks, n),
        n >= 0,
    ensures
        picks.len() <= n,
        forall|i: int| 0 <= i < picks.len() ==> i <= #[trigger] picks[i] <= n - picks.len() + i,
    decreases picks.len(),
{
    if picks.len() > 0 {
        let rest = picks.drop_last();
        let last = picks.last();
        assert forall|i: int| 0 <= i < rest.len() implies 0 <= #[trigger] rest[i] < last by {
            assert(picks[i] < picks[picks.len() - 1]);
        }
        lemma_ascending(rest, last);
        assert forall|i: int| 0 <= i < picks.len() implies i <= #[trigger] picks[i] <= n
            - picks.len() + i by {
            if i < rest.len() {
                assert(rest[i] == picks[i]);
            }
        }
    }
}

} // verus!
