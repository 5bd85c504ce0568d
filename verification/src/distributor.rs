//! The distributor: the latest-snapshot cell for the pull path, and a
//! one-element mailbox per subscription for the push path.

use vstd::pervasive::VecAdditionalExecFns;
use vstd::prelude::*;

use crate::model::{
    after_publish, after_take, current, distinct_ids, fresh_sub, has_sub, lemma_after_publish_ok,
    lemma_after_take_ok, lemma_sub_index_unique, sub_index, sub_ok, SubscriptionModel,
};
use crate::snapshot::{copy_readings, Snapshot};

verus! {

/// One live consumer's registration: its handle, its mailbox, and the ghost
/// record of what it has been handed.
struct Subscription {
    id: u64,
    slot: Option<Snapshot>,
    created_at: Ghost<nat>,
    received: Ghost<Seq<nat>>,
}

impl Subscription {
    spec fn model(self) -> SubscriptionModel {
        SubscriptionModel {
            id: self.id,
            created_at: self.created_at@,
            received: self.received@,
            pending: match self.slot {
                Some(s) => Some(s@),
                None => None,
            },
        }
    }
}

/// Holds the most recently published snapshot and fans each publish out to
/// every live subscription. Exactly one writer publishes; any number of
/// readers pull or subscribe. No subscription, however slow, can delay a
/// publish: a full mailbox is overwritten, never waited on.
pub struct Distributor {
    latest: Vec<u32>,
    subs: Vec<Subscription>,
    next_id: u64,
    hist: Ghost<Seq<Seq<u32>>>,
}

impl Distributor {
    /// Every snapshot published so far, in publish order.
    pub closed spec fn history(self) -> Seq<Seq<u32>> {
        self.hist@
    }

    /// The model of each live subscription, in registration order.
    pub closed spec fn subs(self) -> Seq<SubscriptionModel> {
        self.subs@.map(|_i: int, s: Subscription| s.model())
    }

    /// Fresh handles are still available (the creation counter has room).
    pub closed spec fn ids_available(self) -> bool {
        self.next_id < u64::MAX
    }

    /// Well-formedness: the pull cell mirrors the history, every
    /// subscription is consistent with the history, and handles are unique
    /// and below the creation counter.
    pub closed spec fn wf(self) -> bool {
        &&& self.latest@ == current(self.hist@)
        &&& forall|i: int| 0 <= i < self.subs().len() ==> sub_ok(#[trigger] self.subs()[i], self.hist@)
        &&& forall|i: int| 0 <= i < self.subs().len() ==> (#[trigger] self.subs()[i].id) < self.next_id
        &&& distinct_ids(self.subs())
    }

    /// What well-formedness gives a caller at the model level.
    pub proof fn lemma_wf_models(self)
        requires
            self.wf(),
        ensures
            distinct_ids(self.subs()),
            forall|i: int|
                0 <= i < self.subs().len() ==> sub_ok(#[trigger] self.subs()[i], self.history()),
    {
    }

    /// A distributor with no history and no subscriptions; the pull path
    /// returns the empty sequence until the first publish.
    pub fn new() -> (d: Distributor)
        ensures
            d.wf(),
            d.history() == Seq::<Seq<u32>>::empty(),
            d.subs() == Seq::<SubscriptionModel>::empty(),
            d.ids_available(),
    {
        let d = Distributor {
            latest: Vec::new(),
            subs: Vec::new(),
            next_id: 0,
            hist: Ghost(Seq::empty()),
        };
        proof {
            assert(d.subs() =~= Seq::<SubscriptionModel>::empty());
        }
        d
    }

    /// The pull path: a copy of the most recently published snapshot, or an
    /// empty one before the first publish. Never waits and never fails.
    pub fn snapshot(&self) -> (r: Snapshot)
        requires
            self.wf(),
        ensures
            r@ == current(self.history()),
    {
        Snapshot::new(copy_readings(&self.latest))
    }

    /// Publishes one snapshot: overwrites the latest-snapshot cell, then
    /// offers the snapshot to every subscription's mailbox, overwriting
    /// whatever a slow consumer had not yet taken. No subscription state can
    /// make this fail, and nothing is reordered: the snapshot becomes the
    /// last entry of the history and the pending entry of every mailbox.
    pub fn publish(&mut self, snap: Snapshot)
        requires
            old(self).wf(),
        ensures
            final(self).wf(),
            final(self).history() == old(self).history().push(snap@),
            final(self).subs().len() == old(self).subs().len(),
            forall|i: int|
                0 <= i < old(self).subs().len() ==> final(self).subs()[i] == after_publish(
                    old(self).subs()[i],
                    snap@,
                ),
            final(self).ids_available() == old(self).ids_available(),
    {
        let ghost sv: Seq<u32> = snap@;
        let readings = snap.into_readings();
        let mut i: usize = 0;
        while i < self.subs.len()
            invariant
                i <= self.subs.len(),
                self.subs@.len() == old(self).subs@.len(),
                forall|j: int|
                    0 <= j < i ==> (#[trigger] self.subs@[j]).model() == after_publish(
                        old(self).subs@[j].model(),
                        sv,
                    ),
                forall|j: int| i <= j < self.subs@.len() ==> self.subs@[j] == old(self).subs@[j],
                readings@ == sv,
                self.latest@ == old(self).latest@,
                self.hist@ == old(self).hist@,
                self.next_id == old(self).next_id,
            decreases self.subs.len() - i,
        {
            let filled = Snapshot::new(copy_readings(&readings));
            let id = self.subs[i].id;
            let ghost ca: nat = self.subs@[i as int].created_at@;
            let ghost rc: Seq<nat> = self.subs@[i as int].received@;
            let updated = Subscription {
                id,
                slot: Some(filled),
                created_at: Ghost(ca),
                received: Ghost(rc),
            };
            self.subs.set(i, updated);
            i += 1;
        }
        self.latest = readings;
        self.hist = Ghost(self.hist@.push(sv));
        proof {
            assert forall|j: int| 0 <= j < old(self).subs().len() implies #[trigger] self.subs()[j]
                == after_publish(old(self).subs()[j], sv) by {
                assert(self.subs()[j] == self.subs@[j].model());
                assert(old(self).subs()[j] == old(self).subs@[j].model());
            }
            assert forall|j: int| 0 <= j < self.subs().len() implies sub_ok(
                #[trigger] self.subs()[j],
                self.hist@,
            ) by {
                lemma_after_publish_ok(old(self).subs()[j], old(self).hist@, sv);
            }
            assert forall|j: int| 0 <= j < self.subs().len() implies (#[trigger] self.subs()[j].id)
                < self.next_id by {
                assert(self.subs()[j].id == old(self).subs()[j].id);
            }
            assert forall|j: int, k: int| 0 <= j < k < self.subs().len() implies #[trigger] self
                .subs()[j].id != #[trigger] self.subs()[k].id by {
                assert(self.subs()[j].id == old(self).subs()[j].id);
                assert(self.subs()[k].id == old(self).subs()[k].id);
            }
        }
    }

    /// Registers a new consumer and returns its handle. The subscription
    /// starts with an empty mailbox and an empty record: it receives nothing
    /// that was published before this call, and its handle is distinct from
    /// every live one.
    pub fn subscribe(&mut self) -> (id: u64)
        requires
            old(self).wf(),
            old(self).ids_available(),
        ensures
            final(self).wf(),
            final(self).history() == old(self).history(),
            final(self).subs() == old(self).subs().push(
                fresh_sub(id, old(self).history().len() as nat),
            ),
            !has_sub(old(self).subs(), id),
    {
        let id = self.next_id;
        self.next_id = self.next_id + 1;
        let sub = Subscription {
            id,
            slot: None,
            created_at: Ghost(self.hist@.len() as nat),
            received: Ghost(Seq::<nat>::empty()),
        };
        self.subs.push(sub);
        proof {
            let ghost target = old(self).subs().push(
                fresh_sub(id, old(self).hist@.len() as nat),
            );
            assert forall|j: int| 0 <= j < self.subs().len() implies #[trigger] self.subs()[j]
                == target[j] by {
                if j < old(self).subs@.len() {
                    assert(self.subs@[j] == old(self).subs@[j]);
                }
            }
            assert(self.subs() =~= target);
            assert forall|j: int| 0 <= j < old(self).subs().len() implies (#[trigger] old(
                self,
            ).subs()[j].id) != id by {}
            assert(!has_sub(old(self).subs(), id));
            assert forall|j: int| 0 <= j < self.subs().len() implies sub_ok(
                #[trigger] self.subs()[j],
                self.hist@,
            ) by {}
        }
        id
    }

    /// Takes the pending snapshot for the subscription carrying `id`, if
    /// there is one; the mailbox is empty afterwards. Returns `None`,
    /// changing nothing, when the mailbox is empty or the handle is unknown.
    /// Whatever it hands out is the most recently published snapshot.
    pub fn take(&mut self, id: u64) -> (r: Option<Snapshot>)
        requires
            old(self).wf(),
        ensures
            final(self).wf(),
            final(self).history() == old(self).history(),
            final(self).ids_available() == old(self).ids_available(),
            (if has_sub(old(self).subs(), id) {
                let i = sub_index(old(self).subs(), id);
                match old(self).subs()[i].pending {
                    Some(p) => {
                        &&& (r matches Some(s) && s@ == p)
                        &&& p == old(self).history().last()
                        &&& final(self).subs() == old(self).subs().update(
                            i,
                            after_take(old(self).subs()[i], old(self).history().len() as nat),
                        )
                    },
                    None => r is None && final(self).subs() == old(self).subs(),
                }
            } else {
                r is None && final(self).subs() == old(self).subs()
            }),
    {
        let mut i: usize = 0;
        while i < self.subs.len()
            invariant
                i <= self.subs.len(),
                *self == *old(self),
                old(self).wf(),
                forall|j: int| 0 <= j < i ==> (#[trigger] self.subs@[j].id) != id,
            decreases self.subs.len() - i,
        {
            if self.subs[i].id == id {
                proof {
                    assert(old(self).subs()[i as int] == old(self).subs@[i as int].model());
                    lemma_sub_index_unique(old(self).subs(), id, i as int);
                }
                let sub = self.subs.remove(i);
                let Subscription { id: sid, slot, created_at, received } = sub;
                let ghost m = old(self).subs()[i as int];
                match slot {
                    Some(s) => {
                        let replaced = Subscription {
                            id: sid,
                            slot: None,
                            created_at,
                            received: Ghost(received@.push((self.hist@.len() - 1) as nat)),
                        };
                        self.subs.insert(i, replaced);
                        proof {
                            let hlen = old(self).hist@.len() as nat;
                            assert(self.subs@ =~= old(self).subs@.update(
                                i as int,
                                self.subs@[i as int],
                            ));
                            assert(self.subs@[i as int].model() == after_take(m, hlen));
                            assert forall|j: int| 0 <= j < self.subs().len() implies #[trigger] self
                                .subs()[j] == old(self).subs().update(
                                i as int,
                                after_take(m, hlen),
                            )[j] by {
                                assert(self.subs()[j] == self.subs@[j].model());
                                if j != i as int {
                                    assert(self.subs@[j] == old(self).subs@[j]);
                                }
                            }
                            assert(self.subs() =~= old(self).subs().update(
                                i as int,
                                after_take(m, hlen),
                            ));
                            lemma_after_take_ok(m, old(self).hist@);
                            assert forall|j: int| 0 <= j < self.subs().len() implies sub_ok(
                                #[trigger] self.subs()[j],
                                self.hist@,
                            ) by {
                                if j != i as int {
                                    assert(self.subs()[j] == old(self).subs()[j]);
                                }
                            }
                            assert forall|j: int, k: int|
                                0 <= j < k < self.subs().len() implies #[trigger] self.subs()[j].id
                                != #[trigger] self.subs()[k].id by {
                                assert(self.subs()[j].id == old(self).subs()[j].id);
                                assert(self.subs()[k].id == old(self).subs()[k].id);
                            }
                            assert forall|j: int|
                                0 <= j < self.subs().len() implies (#[trigger] self.subs()[j].id)
                                < self.next_id by {
                                assert(self.subs()[j].id == old(self).subs()[j].id);
                            }
                        }
                        return Some(s);
                    },
                    None => {
                        let replaced = Subscription { id: sid, slot: None, created_at, received };
                        self.subs.insert(i, replaced);
                        proof {
                            assert(self.subs@ =~= old(self).subs@);
                        }
                        return None;
                    },
                }
            }
            i += 1;
        }
        proof {
            assert forall|j: int| 0 <= j < old(self).subs().len() implies (#[trigger] old(
                self,
            ).subs()[j].id) != id by {
                assert(old(self).subs()[j] == old(self).subs@[j].model());
            }
            assert(!has_sub(old(self).subs(), id));
        }
        None
    }

    /// Removes the subscription carrying `id`, releasing its mailbox; no
    /// further snapshot is delivered to it. Every other subscription keeps
    /// its state and its relative order, and the history and the pull path
    /// are untouched. Returns whether the handle was live.
    pub fn unsubscribe(&mut self, id: u64) -> (found: bool)
        requires
            old(self).wf(),
        ensures
            final(self).wf(),
            final(self).history() == old(self).history(),
            final(self).ids_available() == old(self).ids_available(),
            found == has_sub(old(self).subs(), id),
            final(self).subs() == (if has_sub(old(self).subs(), id) {
                old(self).subs().remove(sub_index(old(self).subs(), id))
            } else {
                old(self).subs()
            }),
    {
        let mut i: usize = 0;
        while i < self.subs.len()
            invariant
                i <= self.subs.len(),
                *self == *old(self),
                old(self).wf(),
                forall|j: int| 0 <= j < i ==> (#[trigger] self.subs@[j].id) != id,
            decreases self.subs.len() - i,
        {
            if self.subs[i].id == id {
                proof {
                    assert(old(self).subs()[i as int] == old(self).subs@[i as int].model());
                    lemma_sub_index_unique(old(self).subs(), id, i as int);
                }
                let _removed = self.subs.remove(i);
                proof {
                    assert forall|j: int| 0 <= j < self.subs().len() implies #[trigger] self.subs()[j]
                        == old(self).subs().remove(i as int)[j] by {
                        assert(self.subs()[j] == self.subs@[j].model());
                        if j < i as int {
                            assert(self.subs@[j] == old(self).subs@[j]);
                        } else {
                            assert(self.subs@[j] == old(self).subs@[j + 1]);
                        }
                    }
                    assert(self.subs() =~= old(self).subs().remove(i as int));
                    assert forall|j: int| 0 <= j < self.subs().len() implies sub_ok(
                        #[trigger] self.subs()[j],
                        self.hist@,
                    ) by {
                        if j < i as int {
                            assert(self.subs()[j] == old(self).subs()[j]);
                        } else {
                            assert(self.subs()[j] == old(self).subs()[j + 1]);
                        }
                    }
                    assert forall|j: int|
                        0 <= j < self.subs().len() implies (#[trigger] self.subs()[j].id)
                        < self.next_id by {
                        if j < i as int {
                            assert(self.subs()[j] == old(self).subs()[j]);
                        } else {
                            assert(self.subs()[j] == old(self).subs()[j + 1]);
                        }
                    }
                    assert forall|j: int, k: int|
                        0 <= j < k < self.subs().len() implies #[trigger] self.subs()[j].id
                        != #[trigger] self.subs()[k].id by {
                        let j0 = if j < i as int { j } else { j + 1 };
                        let k0 = if k < i as int { k } else { k + 1 };
                        assert(self.subs()[j] == old(self).subs()[j0]);
                        assert(self.subs()[k] == old(self).subs()[k0]);
                    }
                }
                return true;
            }
            i += 1;
        }
        proof {
            assert forall|j: int| 0 <= j < old(self).subs().len() implies (#[trigger] old(
                self,
            ).subs()[j].id) != id by {
                assert(old(self).subs()[j] == old(self).subs@[j].model());
            }
            assert(!has_sub(old(self).subs(), id));
        }
        false
    }

    /// Whether `subscribe` may be called: a fresh handle is still available.
    /// The counter is 64-bit, so in any real run this holds.
    pub fn can_subscribe(&self) -> (r: bool)
        ensures
            r == self.ids_available(),
    {
        self.next_id < u64::MAX
    }
}

} // verus!
