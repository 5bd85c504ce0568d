//! The distributor's guarantees across whole runs, stated over the ghost
//! model and proved once and for all.

use vstd::prelude::*;

use crate::distributor::Distributor;
use crate::model::{
    after_publish, after_take, current, delivered, distinct_ids, fresh_sub, has_sub, indices_ok,
    lemma_sub_index_unique, sub_index, sub_ok, SubscriptionModel,
};

verus! {

/// `sub` picks entries of `of` at strictly increasing positions, all at or
/// after `from`: an order-preserving subsequence without duplicated
/// positions.
pub open spec fn is_ordered_subsequence(sub: Seq<Seq<u32>>, of: Seq<Seq<u32>>, from: nat) -> bool {
    exists|idx: Seq<nat>|
        {
            &&& idx.len() == sub.len()
            &&& #[trigger] indices_ok(idx, from, of.len() as nat)
            &&& forall|k: int| 0 <= k < sub.len() ==> #[trigger] sub[k] == of[idx[k] as int]
        }
}

/// The pull path is linearizable with publish: after the k-th publish of the
/// run `snaps` and before the (k+1)-th, the history is the first k entries
/// of `snaps`, and the pull path returns exactly the k-th snapshot.
pub proof fn lemma_snapshot_after_kth_publish(d: Distributor, snaps: Seq<Seq<u32>>, k: int)
    requires
        1 <= k <= snaps.len(),
        d.history() == snaps.take(k),
    ensures
        current(d.history()) == snaps[k - 1],
{
    assert(snaps.take(k)[k - 1] == snaps[k - 1]);
}

/// A run in which the consumer keeps up: each publish is followed by a take
/// before the next publish. `history` is the history at the start of the
/// run; each entry of `snaps` is published in turn.
pub open spec fn run_prompt(
    s: SubscriptionModel,
    history: Seq<Seq<u32>>,
    snaps: Seq<Seq<u32>>,
) -> SubscriptionModel
    decreases snaps.len(),
{
    if snaps.len() == 0 {
        s
    } else {
        run_prompt(
            after_take(after_publish(s, snaps[0]), (history.len() + 1) as nat),
            history.push(snaps[0]),
            snaps.drop_first(),
        )
    }
}

/// The positions c, c + 1, ..., c + n - 1.
pub open spec fn consecutive_from(c: nat, n: nat) -> Seq<nat> {
    Seq::new(n, |i: int| (c + i) as nat)
}

proof fn lemma_run_prompt_received(
    s: SubscriptionModel,
    history: Seq<Seq<u32>>,
    snaps: Seq<Seq<u32>>,
)
    requires
        s.pending is None,
    ensures
        ({
            let t = run_prompt(s, history, snaps);
            &&& t.id == s.id
            &&& t.created_at == s.created_at
            &&& t.pending is None
            &&& t.received == s.received + consecutive_from(
                history.len() as nat,
                snaps.len() as nat,
            )
        }),
    decreases snaps.len(),
{
    if snaps.len() == 0 {
        assert(s.received + consecutive_from(history.len() as nat, 0nat) =~= s.received);
    } else {
        let s1 = after_take(after_publish(s, snaps[0]), (history.len() + 1) as nat);
        assert(s1.received == s.received.push(history.len() as nat));
        lemma_run_prompt_received(s1, history.push(snaps[0]), snaps.drop_first());
        let t = run_prompt(s, history, snaps);
        assert(t.received == s1.received + consecutive_from(
            (history.len() + 1) as nat,
            (snaps.len() - 1) as nat,
        ));
        assert(t.received =~= s.received + consecutive_from(
            history.len() as nat,
            snaps.len() as nat,
        ));
    }
}

/// A subscription created before any of `snaps` are published, consuming
/// promptly after every publish, receives every published snapshot, in
/// publish order, with no duplicates and no gaps.
pub proof fn lemma_prompt_consumer_receives_all(
    id: u64,
    history: Seq<Seq<u32>>,
    snaps: Seq<Seq<u32>>,
)
    ensures
        ({
            let t = run_prompt(fresh_sub(id, history.len() as nat), history, snaps);
            delivered(t, history + snaps) == snaps
        }),
{
    let s0 = fresh_sub(id, history.len() as nat);
    lemma_run_prompt_received(s0, history, snaps);
    let t = run_prompt(s0, history, snaps);
    assert(t.received =~= consecutive_from(history.len() as nat, snaps.len() as nat));
    assert forall|k: int| 0 <= k < snaps.len() implies #[trigger] delivered(t, history + snaps)[k]
        == snaps[k] by {
        assert(t.received[k] == history.len() + k);
        assert((history + snaps)[history.len() + k] == snaps[k]);
    }
    assert(delivered(t, history + snaps) =~= snaps);
}

/// However many publishes a subscription slept through, what it consumed is
/// an order-preserving subsequence of the published history, wholly after
/// its creation: entries are dropped, never reordered and never replayed.
pub proof fn lemma_stalled_consumer_sees_subsequence(
    s: SubscriptionModel,
    history: Seq<Seq<u32>>,
)
    requires
        sub_ok(s, history),
    ensures
        is_ordered_subsequence(delivered(s, history), history, s.created_at),
{
    let d = delivered(s, history);
    assert(d.len() == s.received.len());
    assert(indices_ok(s.received, s.created_at, history.len() as nat));
    assert forall|k: int| 0 <= k < d.len() implies #[trigger] d[k] == history[s.received[k] as int]
        by {}
}

/// Unsubscribing one consumer has no observable effect on another: the
/// other's subscription is still live, with exactly the state it had.
pub proof fn lemma_unsubscribe_preserves_others(
    subs: Seq<SubscriptionModel>,
    id: u64,
    other: u64,
)
    requires
        distinct_ids(subs),
        has_sub(subs, id),
        has_sub(subs, other),
        other != id,
    ensures
        ({
            let rest = subs.remove(sub_index(subs, id));
            &&& has_sub(rest, other)
            &&& rest[sub_index(rest, other)] == subs[sub_index(subs, other)]
        }),
{
    let i = sub_index(subs, id);
    let j = sub_index(subs, other);
    assert(0 <= i < subs.len() && subs[i].id == id);
    assert(0 <= j < subs.len() && subs[j].id == other);
    let rest = subs.remove(i);
    assert forall|a: int, b: int| 0 <= a < b < rest.len() implies #[trigger] rest[a].id
        != #[trigger] rest[b].id by {
        let a0 = if a < i {
            a
        } else {
            a + 1
        };
        let b0 = if b < i {
            b
        } else {
            b + 1
        };
        assert(rest[a] == subs[a0]);
        assert(rest[b] == subs[b0]);
    }
    let j2 = if j < i {
        j
    } else {
        j - 1
    };
    assert(rest[j2] == subs[j]);
    lemma_sub_index_unique(rest, other, j2);
}

} // verus!
