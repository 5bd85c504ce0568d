//! Ghost model of the distributor: the history of published snapshots and
//! each subscription's progress through it.

use vstd::prelude::*;

verus! {

/// Ghost record of one subscription's progress through the publish history.
pub ghost struct SubscriptionModel {
    /// The handle under which the distributor knows the subscription.
    pub id: u64,
    /// Length of the publish history at the moment the subscription was
    /// created; nothing published before that point is ever delivered to it.
    pub created_at: nat,
    /// Indices into the publish history of the snapshots already handed to
    /// the consumer, in the order they were handed out.
    pub received: Seq<nat>,
    /// The snapshot published but not yet handed to the consumer, if any:
    /// the one-element mailbox that a new publish overwrites.
    pub pending: Option<Seq<u32>>,
}

/// What the pull path returns: the last published snapshot, or the empty
/// sequence before the first publish.
pub open spec fn current(history: Seq<Seq<u32>>) -> Seq<u32> {
    if history.len() == 0 {
        Seq::<u32>::empty()
    } else {
        history.last()
    }
}

/// The index record is strictly increasing and stays within
/// `[created_at, hlen)`.
pub open spec fn indices_ok(received: Seq<nat>, created_at: nat, hlen: nat) -> bool {
    &&& forall|k: int| 0 <= k < received.len() ==> created_at <= #[trigger] received[k] < hlen
    &&& forall|k: int, l: int|
        0 <= k < l < received.len() ==> #[trigger] received[k] < #[trigger] received[l]
}

/// Everything the distributor maintains of one subscription, relative to the
/// history it has published so far: the record of received snapshots is a
/// strictly increasing run of history positions at or after the
/// subscription's creation, and a pending snapshot is always the most
/// recently published one, not yet recorded as received.
pub open spec fn sub_ok(s: SubscriptionModel, history: Seq<Seq<u32>>) -> bool {
    &&& s.created_at <= history.len()
    &&& indices_ok(s.received, s.created_at, history.len() as nat)
    &&& match s.pending {
        Some(p) => {
            &&& history.len() > 0
            &&& p == history.last()
            &&& s.created_at < history.len()
            &&& (s.received.len() == 0 || s.received.last() + 1 < history.len())
        },
        None => true,
    }
}

/// The snapshots a subscription has been handed, in the order received.
pub open spec fn delivered(s: SubscriptionModel, history: Seq<Seq<u32>>) -> Seq<Seq<u32>> {
    s.received.map(|_k: int, idx: nat| history[idx as int])
}

/// A subscription as a publish leaves it: the mailbox holds the new
/// snapshot, whatever it held before.
pub open spec fn after_publish(s: SubscriptionModel, snap: Seq<u32>) -> SubscriptionModel {
    SubscriptionModel { pending: Some(snap), ..s }
}

/// A subscription as a successful take leaves it, `hlen` being the length of
/// the history at the time: the mailbox is empty, and the last history
/// position is recorded as received.
pub open spec fn after_take(s: SubscriptionModel, hlen: nat) -> SubscriptionModel {
    SubscriptionModel { pending: None, received: s.received.push((hlen - 1) as nat), ..s }
}

/// A subscription as `subscribe` creates it: nothing received, nothing
/// pending; it starts with the publish after its creation.
pub open spec fn fresh_sub(id: u64, hlen: nat) -> SubscriptionModel {
    SubscriptionModel { id, created_at: hlen, received: Seq::<nat>::empty(), pending: None }
}

/// Some subscription in `subs` carries the handle `id`.
pub open spec fn has_sub(subs: Seq<SubscriptionModel>, id: u64) -> bool {
    exists|i: int| 0 <= i < subs.len() && #[trigger] subs[i].id == id
}

/// The position of the subscription carrying `id` (unique when the handles
/// are distinct).
pub open spec fn sub_index(subs: Seq<SubscriptionModel>, id: u64) -> int {
    choose|i: int| 0 <= i < subs.len() && #[trigger] subs[i].id == id
}

/// No two subscriptions share a handle.
pub open spec fn distinct_ids(subs: Seq<SubscriptionModel>) -> bool {
    forall|i: int, j: int|
        0 <= i < j < subs.len() ==> #[trigger] subs[i].id != #[trigger] subs[j].id
}

/// With distinct handles, `sub_index` names exactly the position that
/// carries the handle.
pub proof fn lemma_sub_index_unique(subs: Seq<SubscriptionModel>, id: u64, i: int)
    requires
        distinct_ids(subs),
        0 <= i < subs.len(),
        subs[i].id == id,
    ensures
        has_sub(subs, id),
        sub_index(subs, id) == i,
{
    assert(has_sub(subs, id));
    let j = sub_index(subs, id);
    assert(0 <= j < subs.len() && subs[j].id == id);
    if i < j {
        assert(subs[i].id != subs[j].id);
    }
    if j < i {
        assert(subs[j].id != subs[i].id);
    }
}

/// A publish keeps every subscription well-formed: the new mailbox content
/// is exactly the new last entry of the grown history.
pub proof fn lemma_after_publish_ok(s: SubscriptionModel, history: Seq<Seq<u32>>, snap: Seq<u32>)
    requires
        sub_ok(s, history),
    ensures
        sub_ok(after_publish(s, snap), history.push(snap)),
{
    let h2 = history.push(snap);
    assert(h2.last() == snap);
    assert forall|k: int| 0 <= k < s.received.len() implies s.created_at <= #[trigger] s.received[k]
        < h2.len() by {
        assert(s.received[k] < history.len());
    }
    if s.received.len() > 0 {
        assert(s.received.last() < history.len());
    }
}

/// A take keeps the subscription well-formed and extends its record by the
/// position of the history's last entry.
pub proof fn lemma_after_take_ok(s: SubscriptionModel, history: Seq<Seq<u32>>)
    requires
        sub_ok(s, history),
        s.pending is Some,
    ensures
        sub_ok(after_take(s, history.len() as nat), history),
{
    let t = after_take(s, history.len() as nat);
    let last: nat = (history.len() - 1) as nat;
    assert(t.received == s.received.push(last));
    assert forall|k: int| 0 <= k < t.received.len() implies s.created_at <= #[trigger] t.received[k]
        < history.len() by {
        if k < s.received.len() {
            assert(t.received[k] == s.received[k]);
        } else {
            assert(t.received[k] == last);
        }
    }
    assert forall|k: int, l: int| 0 <= k < l < t.received.len() implies #[trigger] t.received[k]
        < #[trigger] t.received[l] by {
        if l < s.received.len() {
            assert(t.received[k] == s.received[k]);
            assert(t.received[l] == s.received[l]);
        } else {
            assert(t.received[l] == last);
            assert(t.received[k] == s.received[k]);
            if k < s.received.len() - 1 {
                assert(s.received[k] < s.received[s.received.len() - 1]);
            }
            assert(s.received.last() + 1 < history.len());
        }
    }
}

} // verus!
