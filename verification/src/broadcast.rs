//! The keyed registry of queues.

use crate::faucet::Faucet;
use crate::faucet::FaucetState;
use crate::faucet::Step;
use crate::join_stream;
use crate::join_stream::JoinStream;
use crate::join_stream::Subscription;
use crate::key::obeys_key_equality;
use crate::registration::distinct;
use crate::registration::has_key;
use crate::registration::keys_at;
use crate::registration::lemma_one_more_slot;
use crate::registration::lemma_push;
use crate::registration::lemma_queue_at;
use crate::registration::lemma_remove;
use crate::registration::lemma_same_keys;
use crate::registration::lemma_update;
use crate::registration::nodes_at;
use crate::registration::queues_of;
use crate::registration::rejections;
use crate::registration::slot_of;
use crate::registration::Registration;
use crate::scope::below;
use crate::scope::lemma_cancel_all_among_children;
use crate::scope::lemma_cancel_all_of_none;
use crate::scope::lemma_cancel_all_one_more;
use crate::scope::lemma_parent_is_above;
use crate::scope::CancellationTree;
use crate::scope::Scope;
use crate::scope::TreeState;
use vstd::prelude::*;

verus! {

/// What a registry is, as a mathematical value.
#[verifier::reject_recursive_types(Id)]
pub struct BroadcastState<Id, T> {
    /// The queue registered under each key.
    pub queues: Map<Id, FaucetState<T>>,
    /// Whether the registry's scope is cancelled.
    pub cancelled: bool,
    /// The keys handed to the join stream so far, oldest first.
    pub announced: Seq<Id>,
    /// How many keys the join stream keeps for a subscriber that lags.
    pub backlog: nat,
}

impl<Id, T> BroadcastState<Id, T> {
    /// A queue is registered under `id`.
    pub open spec fn registered(self, id: Id) -> bool {
        self.queues.contains_key(id)
    }

    /// Every registered queue is well formed, and its scope lies below the
    /// registry's: once the registry is cancelled, so is each queue.
    pub open spec fn wf(self) -> bool {
        &&& forall|id: Id| self.registered(id) ==> (#[trigger] self.queues[id]).wf()
        &&& self.cancelled ==> forall|id: Id|
            self.registered(id) ==> (#[trigger] self.queues[id]).cancelled
    }

    /// A registry that was just made.
    pub open spec fn fresh(cancelled: bool) -> Self {
        BroadcastState { queues: Map::empty(), cancelled, announced: Seq::empty(), backlog: 1 }
    }

    /// Without the queue of `id`, if there was one.
    pub open spec fn kicked(self, id: Id) -> Self {
        BroadcastState { queues: self.queues.remove(id), ..self }
    }

    /// The registry after its scope is cancelled: every queue is ended, and
    /// keeps what it has buffered.
    pub open spec fn ended(self) -> Self {
        BroadcastState {
            queues: self.queues.map_values(|queue: FaucetState<T>| queue.ended()),
            cancelled: true,
            ..self
        }
    }
}

impl<Id: Clone, T: Clone> BroadcastState<Id, T> {
    /// `after` is `before` and, behind it, one clone of `id`.
    pub open spec fn announces(before: Seq<Id>, id: Id, after: Seq<Id>) -> bool {
        &&& after.len() == before.len() + 1
        &&& after.drop_last() == before
        &&& cloned(id, after.last())
    }

    /// What a get-or-join does. `handed` is the queue of `id` as the caller
    /// first sees it: the registered one, or a fresh one of the given capacity
    /// that is born cancelled when the registry is. Only a fresh one is
    /// announced. `left` is that queue as the caller leaves it, and `after`
    /// the registry from then on.
    pub open spec fn get_or_join(
        self,
        id: Id,
        capacity: nat,
        handed: FaucetState<T>,
        left: FaucetState<T>,
        after: Self,
    ) -> bool {
        &&& self.registered(id) ==> handed == self.queues[id] && after.announced == self.announced
        &&& !self.registered(id) ==> handed == FaucetState::<T>::fresh(capacity, self.cancelled)
            && Self::announces(self.announced, id, after.announced)
        &&& after.queues == self.queues.insert(id, left)
        &&& after.cancelled == self.cancelled
        &&& after.backlog == self.backlog
    }

    /// What delivery to one key does. An unknown key changes nothing. A queue
    /// that accepts receives a clone of `value`. One that does not is evicted
    /// and ended.
    pub open spec fn push_or_kick(
        self,
        id: Id,
        value: T,
        after: Self,
        evicted: Option<FaucetState<T>>,
    ) -> bool {
        &&& after.cancelled == self.cancelled
        &&& after.announced == self.announced
        &&& after.backlog == self.backlog
        &&& !self.registered(id) ==> after.queues == self.queues && evicted.is_none()
        &&& self.registered(id) && self.queues[id].accepts() ==> {
            &&& evicted.is_none()
            &&& after.registered(id)
            &&& self.queues[id].receives(value, after.queues[id])
            &&& after.queues == self.queues.insert(id, after.queues[id])
        }
        &&& self.registered(id) && !self.queues[id].accepts() ==> {
            &&& evicted == Some(self.queues[id].ended())
            &&& after.queues == self.queues.remove(id)
        }
    }

    /// What delivery to every key does. The keys whose queue accepts stay, and
    /// each of these queues receives a clone of `value`. The others are
    /// evicted, each once, with their queues ended.
    pub open spec fn push_all_or_kick(
        self,
        value: T,
        after: Self,
        evicted: Seq<(Id, FaucetState<T>)>,
    ) -> bool {
        &&& after.cancelled == self.cancelled
        &&& after.announced == self.announced
        &&& after.backlog == self.backlog
        &&& forall|id: Id| #[trigger]
            after.registered(id) <==> self.registered(id) && self.queues[id].accepts()
        &&& forall|id: Id| #[trigger]
            after.registered(id) ==> self.queues[id].receives(value, after.queues[id])
        &&& forall|k: int|
            0 <= k < evicted.len() ==> {
                &&& self.registered((#[trigger] evicted[k]).0)
                &&& !self.queues[evicted[k].0].accepts()
                &&& evicted[k].1 == self.queues[evicted[k].0].ended()
            }
        &&& forall|id: Id|
            #![trigger self.registered(id)]
            self.registered(id) && !self.queues[id].accepts() ==> exists|k: int|
                0 <= k < evicted.len() && (#[trigger] evicted[k]).0 == id
        &&& forall|j: int, k: int|
            0 <= j < k < evicted.len() ==> (#[trigger] evicted[j]).0 != (#[trigger] evicted[k]).0
    }

}

/// The evicted queue, if there is one, as a mathematical value while the
/// tree of scopes is `scopes`.
pub open spec fn eviction<T>(evicted: Option<Faucet<T>>, scopes: TreeState) -> Option<
    FaucetState<T>,
> {
    match evicted {
        Some(faucet) => Some(faucet.state(scopes)),
        None => None,
    }
}

/// The evicted queues as mathematical values, each beside its key.
pub open spec fn evictions<Id, T>(evicted: Seq<(Id, Faucet<T>)>, scopes: TreeState) -> Seq<
    (Id, FaucetState<T>),
> {
    Seq::new(evicted.len(), |k: int| (evicted[k].0, evicted[k].1.state(scopes)))
}

/// The nodes of the evicted queues.
pub open spec fn evicted_nodes<Id, T>(evicted: Seq<(Id, Faucet<T>)>) -> Set<int> {
    Set::new(
        |node: int|
            exists|k: int| 0 <= k < evicted.len() && (#[trigger] evicted[k]).1.scope().node() == node,
    )
}

/// A registry from keys to queues, one queue per key.
///
/// It owns the queues. Its scope is a node of a [`CancellationTree`], and the
/// scope of every queue it makes is a child of that node: the registry and its
/// queues are cancelled as soon as the registry's scope or a scope above it
/// is, and a queue made afterwards is born cancelled.
#[verifier::reject_recursive_types(Id)]
#[verifier::reject_recursive_types(T)]
pub struct Broadcast<Id, T> {
    joined: JoinStream<Id>,
    receivers: Vec<Registration<Id, T>>,
    completion: Scope,
}

impl<Id: PartialEq + Clone, T: Clone> Broadcast<Id, T> {
    /// The queue registered under each key.
    pub closed spec fn faucets(&self) -> Map<Id, Faucet<T>> {
        queues_of(self.receivers@)
    }

    /// The registry's scope.
    pub closed spec fn scope(&self) -> Scope {
        self.completion
    }

    /// The keys handed to the join stream so far, oldest first.
    pub closed spec fn announced(&self) -> Seq<Id> {
        self.joined.sent()
    }

    /// How many keys the join stream keeps for a subscriber that lags.
    pub closed spec fn backlog(&self) -> nat {
        self.joined.depth()
    }

    /// What the registry is while the tree of scopes is `scopes`.
    pub open spec fn state(&self, scopes: TreeState) -> BroadcastState<Id, T> {
        BroadcastState {
            queues: self.faucets().map_values(|faucet: Faucet<T>| faucet.state(scopes)),
            cancelled: scopes.cancelled[self.scope().node()],
            announced: self.announced(),
            backlog: self.backlog(),
        }
    }

    /// No key is registered twice, and keys are compared as
    /// [`obeys_key_equality`] says.
    pub closed spec fn wf(&self) -> bool {
        &&& obeys_key_equality::<Id>()
        &&& distinct(self.receivers@)
    }

    /// The registry fits the tree `scopes`: its scope is a node of the tree,
    /// and the scopes of its queues are children of that node, each queue
    /// with a node of its own.
    pub open spec fn inv(&self, scopes: TreeState) -> bool {
        &&& self.wf()
        &&& scopes.wf()
        &&& scopes.contains(self.scope().node())
        &&& forall|id: Id| #[trigger]
            self.faucets().contains_key(id) ==> {
                &&& scopes.contains(self.faucets()[id].scope().node())
                &&& scopes.parents[self.faucets()[id].scope().node()] == Some(self.scope().node())
            }
        &&& forall|a: Id, b: Id|
            #![trigger self.faucets()[a], self.faucets()[b]]
            self.faucets().contains_key(a) && self.faucets().contains_key(b) && a != b
                ==> self.faucets()[a].scope().node() != self.faucets()[b].scope().node()
    }

    /// Creates an empty registry whose scope is a new child of `cancellation`:
    /// the registry is cancelled as soon as `cancellation` or a scope above it
    /// is. Its join stream keeps one key for a subscriber that lags.
    ///
    /// The key type has to meet [`obeys_key_equality`], which says for which
    /// types a verified caller can show that: the integer types, `bool`, and
    /// tuples and `Option`s of these, but not text.
    pub fn new_with_cancellation(scopes: &mut CancellationTree, cancellation: Scope) -> (broadcast:
        Self)
        requires
            obeys_key_equality::<Id>(),
            old(scopes)@.wf(),
            old(scopes)@.contains(cancellation.node()),
        ensures
            final(scopes)@ == old(scopes)@.with_child(cancellation.node()),
            broadcast.scope().node() == old(scopes)@.parents.len(),
            broadcast.inv(final(scopes)@),
            broadcast.faucets() == Map::<Id, Faucet<T>>::empty(),
            broadcast.announced() == Seq::<Id>::empty(),
            broadcast.backlog() == 1,
            broadcast.state(final(scopes)@) == BroadcastState::<Id, T>::fresh(
                old(scopes)@.cancelled[cancellation.node()],
            ),
    {
        let broadcast = Broadcast {
            joined: join_stream::open(1),
            receivers: Vec::new(),
            completion: scopes.child(cancellation),
        };
        proof {
            assert(broadcast.faucets() =~= Map::<Id, Faucet<T>>::empty());
            assert(broadcast.state(scopes@).queues =~= Map::empty());
        }
        broadcast
    }

    /// A new subscription to the join stream, opened behind the keys
    /// announced so far: the first key it can yield is the next one
    /// announced.
    ///
    /// What it yields then is the channel's doing: with a backlog of one, a
    /// subscriber that lags is told how many keys it missed and is given the
    /// latest.
    pub fn on_joined(&self) -> (subscription: Subscription<Id>)
        ensures
            subscription.since() == self.announced().len(),
    {
        join_stream::subscribe(&self.joined)
    }

    fn find(&self, id: &Id) -> (slot: Option<usize>)
        requires
            self.wf(),
        ensures
            match slot {
                Some(i) => i < self.receivers@.len() && self.receivers@[i as int].id == *id,
                None => !has_key(self.receivers@, *id),
            },
    {
        let mut i: usize = 0;
        while i < self.receivers.len()
            invariant
                self.wf(),
                i <= self.receivers@.len(),
                forall|j: int| 0 <= j < i ==> self.receivers@[j].id != *id,
            decreases self.receivers@.len() - i,
        {
            if self.receivers[i].id == *id {
                return Some(i);
            }
            i += 1;
        }
        None
    }

    /// The queue registered under `id`, if there is one.
    pub fn get(&self, id: &Id) -> (faucet: Option<&Faucet<T>>)
        requires
            self.wf(),
        ensures
            match faucet {
                Some(faucet) => self.faucets().contains_key(*id) && *faucet == self.faucets()[*id],
                None => !self.faucets().contains_key(*id),
            },
    {
        match self.find(id) {
            Some(i) => {
                proof {
                    lemma_queue_at(self.receivers@, i as int);
                }
                Some(&self.receivers[i].faucet)
            },
            None => None,
        }
    }

    /// Evicts `id`: its queue leaves the registry, is ended, and is handed to
    /// the caller to be drained. Nothing happens when `id` is not registered.
    pub fn kick(&mut self, scopes: &mut CancellationTree, id: &Id) -> (evicted: Option<Faucet<T>>)
        requires
            old(self).inv(old(scopes)@),
        ensures
            final(self).inv(final(scopes)@),
            final(self).faucets() == old(self).faucets().remove(*id),
            final(self).scope() == old(self).scope(),
            evicted == (if old(self).faucets().contains_key(*id) {
                Some(old(self).faucets()[*id])
            } else {
                None
            }),
            final(scopes)@ == (if old(self).faucets().contains_key(*id) {
                old(scopes)@.cancel(old(self).faucets()[*id].scope().node())
            } else {
                old(scopes)@
            }),
            final(self).state(final(scopes)@) == old(self).state(old(scopes)@).kicked(*id),
            eviction(evicted, final(scopes)@) == (if old(self).faucets().contains_key(*id) {
                Some(old(self).state(old(scopes)@).queues[*id].ended())
            } else {
                None
            }),
    {
        match self.find(id) {
            Some(i) => {
                proof {
                    lemma_queue_at(self.receivers@, i as int);
                    lemma_remove(self.receivers@, i as int);
                }
                let entry = self.receivers.remove(i);
                entry.faucet.end(scopes);
                proof {
                    Self::lemma_eviction_spares_the_rest(
                        *old(self),
                        old(scopes)@,
                        set![entry.faucet.scope().node()],
                    );
                    lemma_cancel_all_one_more(
                        old(scopes)@,
                        Set::empty(),
                        entry.faucet.scope().node(),
                    );
                    assert(self.state(scopes@).queues =~= old(self).state(old(scopes)@).kicked(
                        *id,
                    ).queues);
                }
                Some(entry.faucet)
            },
            None => {
                proof {
                    assert(self.faucets().remove(*id) =~= self.faucets());
                    assert(self.state(scopes@).queues =~= old(self).state(old(scopes)@).kicked(
                        *id,
                    ).queues);
                }
                None
            },
        }
    }

    /// The queue of `id`, registered first if there was none.
    ///
    /// A new queue has the capacity `max_len`, which has to be positive and at
    /// most `usize::MAX / 8`, and
    /// its scope is a new child of the registry's scope; a clone of `id` is
    /// published on the join stream. A registered queue is handed out as it
    /// is, finished or not, and `max_len` is ignored. Whatever the caller does
    /// to the queue through the reference is done to the registered queue.
    pub fn get_or_join(&mut self, scopes: &mut CancellationTree, id: Id, max_len: usize) -> (faucet:
        &mut Faucet<T>)
        requires
            old(self).inv(old(scopes)@),
            0 < max_len <= usize::MAX / 8 || old(self).faucets().contains_key(id),
        ensures
            final(self).wf(),
            final(self).scope() == old(self).scope(),
            final(scopes)@ == (if old(self).faucets().contains_key(id) {
                old(scopes)@
            } else {
                old(scopes)@.with_child(old(self).scope().node())
            }),
            final(scopes)@.wf(),
            old(self).faucets().contains_key(id) ==> *faucet == old(self).faucets()[id],
            !old(self).faucets().contains_key(id) ==> faucet.scope().node() == old(
                scopes,
            )@.parents.len(),
            final(self).faucets() == old(self).faucets().insert(id, *final(faucet)),
            final(faucet).scope() == faucet.scope() ==> final(self).inv(final(scopes)@),
            old(self).state(old(scopes)@).get_or_join(
                id,
                max_len as nat,
                faucet.state(final(scopes)@),
                final(faucet).state(final(scopes)@),
                final(self).state(final(scopes)@),
            ),
    {
        let slot = match self.find(&id) {
            Some(i) => i,
            None => {
                let completion = scopes.child(self.completion);
                let faucet = Faucet::new_with_cancellation(max_len, completion);
                let sent = id.clone();
                let entry = Registration { id, faucet };
                proof {
                    lemma_push(self.receivers@, entry);
                }
                self.receivers.push(entry);
                join_stream::announce(&mut self.joined, sent);
                self.receivers.len() - 1
            },
        };
        proof {
            let entries = self.receivers@;
            let handed = entries[slot as int].faucet;
            let before = old(scopes)@;
            let now = scopes@;
            let start = old(self).state(before);
            lemma_queue_at(entries, slot as int);
            assert(queues_of(entries) =~= old(self).faucets().insert(id, handed));
            if !old(self).faucets().contains_key(id) {
                assert(self.announced().drop_last() =~= old(self).announced());
            } else {
                lemma_queue_at(old(self).receivers@, slot as int);
            }
            // Whatever queue the caller leaves in the slot overwrites the key.
            assert forall|entry: Registration<Id, T>| entry.id == entries[slot as int].id implies {
                &&& distinct(#[trigger] entries.update(slot as int, entry))
                &&& queues_of(entries.update(slot as int, entry)) == old(self).faucets().insert(
                    id,
                    entry.faucet,
                )
                &&& queues_of(entries.update(slot as int, entry)).map_values(
                    |faucet: Faucet<T>| faucet.state(now),
                ) == start.queues.insert(id, entry.faucet.state(now))
            } by {
                lemma_update(entries, slot as int, entry);
                let left = queues_of(entries.update(slot as int, entry));
                assert(left =~= old(self).faucets().insert(id, entry.faucet));
                assert(left.map_values(|faucet: Faucet<T>| faucet.state(now))
                    =~= start.queues.insert(id, entry.faucet.state(now))) by {
                    assert forall|other: Id| left.contains_key(other) && other != id implies left[other].state(
                        now,
                    ) == old(self).faucets()[other].state(before) by {
                        assert(old(self).faucets().contains_key(other));
                    }
                }
            }
        }
        &mut self.receivers[slot].faucet
    }

    /// Delivers a clone of `value` to the queue of `id` without waiting. A
    /// queue that does not take it, being full or finished, is evicted as by
    /// [`Broadcast::kick`] and handed to the caller. Nothing happens when `id`
    /// is not registered.
    pub fn push_or_kick(&mut self, scopes: &mut CancellationTree, id: &Id, value: &T) -> (evicted:
        Option<Faucet<T>>)
        requires
            old(self).inv(old(scopes)@),
        ensures
            final(self).inv(final(scopes)@),
            final(self).scope() == old(self).scope(),
            final(scopes)@ == (match evicted {
                Some(faucet) => old(scopes)@.cancel(faucet.scope().node()),
                None => old(scopes)@,
            }),
            old(self).state(old(scopes)@).push_or_kick(
                *id,
                *value,
                final(self).state(final(scopes)@),
                eviction(evicted, final(scopes)@),
            ),
    {
        match self.find(id) {
            Some(i) => {
                proof {
                    lemma_queue_at(self.receivers@, i as int);
                }
                let copy = value.clone();
                let delivery = self.receivers[i].faucet.try_push(&*scopes, copy);
                proof {
                    let before = old(self).receivers@;
                    assert(self.receivers@ =~= before.update(i as int, self.receivers@[i as int]));
                    lemma_update(before, i as int, self.receivers@[i as int]);
                    lemma_queue_at(self.receivers@, i as int);
                    assert(self.state(scopes@).queues =~= old(self).state(scopes@).queues.insert(
                        *id,
                        self.receivers@[i as int].faucet.state(scopes@),
                    ));
                    assert(self.inv(scopes@)) by {
                        assert forall|other: Id| #[trigger]
                            self.faucets().contains_key(other) implies self.faucets()[other].scope()
                            == old(self).faucets()[other].scope() && old(
                            self,
                        ).faucets().contains_key(other) by {}
                    }
                }
                if delivery.is_err() {
                    proof {
                        // A refused push leaves the queue, and so the registry, as it was.
                        assert(self.state(scopes@).queues =~= old(self).state(scopes@).queues);
                    }
                    self.kick(scopes, id)
                } else {
                    None
                }
            },
            None => {
                proof {
                    assert(self.state(scopes@).queues =~= old(self).state(scopes@).queues);
                }
                None
            },
        }
    }

    /// Offers a clone of `value` to every queue, and lists the slots whose
    /// queue did not take it.
    fn deliver_all(&mut self, scopes: &CancellationTree, value: &T) -> (rejected: Vec<usize>)
        requires
            old(self).inv(scopes@),
        ensures
            final(self).inv(scopes@),
            final(self).completion == old(self).completion,
            final(self).joined == old(self).joined,
            final(self).receivers@.len() == old(self).receivers@.len(),
            forall|j: int|
                0 <= j < old(self).receivers@.len() ==> {
                    let before = #[trigger] old(self).receivers@[j];
                    let after = final(self).receivers@[j];
                    &&& after.id == before.id
                    &&& after.faucet.scope() == before.faucet.scope()
                    &&& before.faucet.state(scopes@).accepts() ==> before.faucet.state(
                        scopes@,
                    ).receives(*value, after.faucet.state(scopes@))
                    &&& !before.faucet.state(scopes@).accepts() ==> after.faucet.state(scopes@)
                        == before.faucet.state(scopes@)
                },
            rejections(
                old(self).receivers@,
                rejected@,
                old(self).receivers@.len() as int,
                scopes@,
            ),
    {
        let mut rejected: Vec<usize> = Vec::new();
        let n = self.receivers.len();
        let mut i: usize = 0;
        while i < n
            invariant
                old(self).inv(scopes@),
                i <= n,
                n == self.receivers@.len(),
                n == old(self).receivers@.len(),
                self.completion == old(self).completion,
                self.joined == old(self).joined,
                forall|j: int|
                    0 <= j < n ==> (#[trigger] self.receivers@[j]).id == old(self).receivers@[j].id
                        && self.receivers@[j].faucet.scope() == old(
                        self,
                    ).receivers@[j].faucet.scope(),
                forall|j: int|
                    i <= j < n ==> (#[trigger] self.receivers@[j]).faucet.state(scopes@) == old(
                        self,
                    ).receivers@[j].faucet.state(scopes@),
                forall|j: int|
                    0 <= j < i ==> {
                        let before = #[trigger] old(self).receivers@[j];
                        let after = self.receivers@[j];
                        &&& before.faucet.state(scopes@).accepts() ==> before.faucet.state(
                            scopes@,
                        ).receives(*value, after.faucet.state(scopes@))
                        &&& !before.faucet.state(scopes@).accepts() ==> after.faucet.state(
                            scopes@,
                        ) == before.faucet.state(scopes@)
                    },
                rejections(old(self).receivers@, rejected@, i as int, scopes@),
            decreases n - i,
        {
            let ghost listed = rejected@;
            proof {
                lemma_queue_at(old(self).receivers@, i as int);
                assert(old(self).faucets().contains_key(old(self).receivers@[i as int].id));
            }
            let copy = value.clone();
            let delivery = self.receivers[i].faucet.try_push(scopes, copy);
            if delivery.is_err() {
                rejected.push(i);
            }
            proof {
                let before = old(self).receivers@;
                // Every refusal so far is listed: the earlier ones were, and this
                // one has just been added.
                assert forall|j: int|
                    0 <= j < i + 1 && !(#[trigger] before[j]).faucet.state(
                        scopes@,
                    ).accepts() implies exists|k: int|
                    0 <= k < rejected@.len() && #[trigger] rejected@[k] == j by {
                    if j < i {
                        let k = choose|k: int| 0 <= k < listed.len() && #[trigger] listed[k] == j;
                        assert(rejected@[k] == j);
                    } else {
                        assert(rejected@[listed.len() as int] == j);
                    }
                }
            }
            i += 1;
        }
        proof {
            Self::lemma_same_scopes_keep_the_fit(*old(self), *self, scopes@);
        }
        rejected
    }

    /// A registry whose entries have the keys and scopes of another's, slot
    /// by slot, fits the tree that the other fits.
    proof fn lemma_same_scopes_keep_the_fit(before: Self, after: Self, scopes: TreeState)
        requires
            before.inv(scopes),
            after.completion == before.completion,
            after.receivers@.len() == before.receivers@.len(),
            forall|j: int|
                0 <= j < before.receivers@.len() ==> (#[trigger] after.receivers@[j]).id
                    == before.receivers@[j].id && after.receivers@[j].faucet.scope()
                    == before.receivers@[j].faucet.scope(),
        ensures
            after.inv(scopes),
            forall|id: Id| before.faucets().contains_key(id) == after.faucets().contains_key(id),
            forall|id: Id|
                before.faucets().contains_key(id) ==> slot_of(before.receivers@, id) == slot_of(
                    after.receivers@,
                    id,
                ),
    {
        let a = before.receivers@;
        let b = after.receivers@;
        assert forall|j: int| 0 <= j < a.len() implies #[trigger] a[j].id == b[j].id by {
            assert(b[j].id == a[j].id);
        }
        lemma_same_keys(a, b);
        assert forall|id: Id| #[trigger] after.faucets().contains_key(id) implies after.faucets()[id].scope()
            == before.faucets()[id].scope() && before.faucets().contains_key(id) by {
            let j = slot_of(b, id);
            lemma_queue_at(b, j);
            lemma_queue_at(a, j);
            assert(b[j].faucet.scope() == a[j].faucet.scope());
        }
    }

    /// Removes the queues in the given slots, highest slot first, and ends
    /// them.
    fn evict(&mut self, scopes: &mut CancellationTree, rejected: Vec<usize>) -> (evicted: Vec<
        (Id, Faucet<T>),
    >)
        requires
            old(self).inv(old(scopes)@),
            forall|k: int|
                0 <= k < rejected@.len() ==> (#[trigger] rejected@[k]) < old(self).receivers@.len(),
            forall|k1: int, k2: int|
                0 <= k1 < k2 < rejected@.len() ==> (#[trigger] rejected@[k1]) < (
                #[trigger] rejected@[k2]),
        ensures
            final(self).inv(final(scopes)@),
            final(self).completion == old(self).completion,
            final(self).joined == old(self).joined,
            final(scopes)@ == old(scopes)@.cancel_all(
                nodes_at(old(self).receivers@, rejected@, 0),
            ),
            queues_of(final(self).receivers@) == queues_of(old(self).receivers@).remove_keys(
                keys_at(old(self).receivers@, rejected@, 0),
            ),
            evicted@.len() == rejected@.len(),
            forall|e: int|
                0 <= e < evicted@.len() ==> {
                    let slot = rejected@[rejected@.len() - 1 - e] as int;
                    &&& (#[trigger] evicted@[e]).0 == old(self).receivers@[slot].id
                    &&& evicted@[e].1 == old(self).receivers@[slot].faucet
                },
    {
        let ghost delivered = self.receivers@;
        let ghost start = scopes@;
        let ghost mut hi: int = self.receivers@.len() as int;
        let mut evicted: Vec<(Id, Faucet<T>)> = Vec::new();
        let mut k = rejected.len();
        proof {
            assert(keys_at(delivered, rejected@, k as int) =~= Set::empty());
            assert(nodes_at(delivered, rejected@, k as int) =~= Set::empty());
            assert(queues_of(delivered).remove_keys(Set::empty()) =~= queues_of(delivered));
            lemma_cancel_all_of_none(start);
        }
        while k > 0
            invariant
                old(self).inv(start),
                start == old(scopes)@,
                delivered == old(self).receivers@,
                distinct(delivered),
                k <= rejected@.len(),
                self.wf(),
                self.completion == old(self).completion,
                self.joined == old(self).joined,
                scopes@ == start.cancel_all(nodes_at(delivered, rejected@, k as int)),
                scopes@.wf(),
                0 <= hi <= self.receivers@.len(),
                hi <= delivered.len(),
                k > 0 ==> rejected@[k - 1] < hi,
                forall|j: int| 0 <= j < hi ==> #[trigger] self.receivers@[j] == delivered[j],
                forall|m: int|
                    0 <= m < rejected@.len() ==> (#[trigger] rejected@[m]) < delivered.len(),
                forall|k1: int, k2: int|
                    0 <= k1 < k2 < rejected@.len() ==> (#[trigger] rejected@[k1]) < (
                    #[trigger] rejected@[k2]),
                queues_of(self.receivers@) == queues_of(delivered).remove_keys(
                    keys_at(delivered, rejected@, k as int),
                ),
                evicted@.len() == rejected@.len() - k,
                forall|e: int|
                    0 <= e < evicted@.len() ==> {
                        let slot = rejected@[rejected@.len() - 1 - e] as int;
                        &&& (#[trigger] evicted@[e]).0 == delivered[slot].id
                        &&& evicted@[e].1 == delivered[slot].faucet
                    },
            decreases k,
        {
            k -= 1;
            let slot = rejected[k];
            proof {
                let entries = self.receivers@;
                let id = delivered[slot as int].id;
                let node = delivered[slot as int].faucet.scope().node();
                let later = keys_at(delivered, rejected@, k + 1);
                let later_nodes = nodes_at(delivered, rejected@, k + 1);
                assert(entries[slot as int] == delivered[slot as int]);
                lemma_remove(entries, slot as int);
                lemma_queue_at(delivered, slot as int);
                assert(old(self).faucets().contains_key(id));
                lemma_one_more_slot(delivered, rejected@, k as int);
                lemma_cancel_all_one_more(start, later_nodes, node);
                assert(queues_of(delivered).remove_keys(later).remove(id) =~= queues_of(
                    delivered,
                ).remove_keys(later.insert(id)));
                hi = slot as int;
            }
            let entry = self.receivers.remove(slot);
            entry.faucet.end(scopes);
            evicted.push((entry.id, entry.faucet));
        }
        proof {
            assert forall|id: Id| #[trigger] self.faucets().contains_key(id) implies old(
                self,
            ).faucets().contains_key(id) && self.faucets()[id] == old(self).faucets()[id] by {}
        }
        evicted
    }

    /// Delivers a clone of `value` to every queue without waiting. The keys
    /// whose queue did not take it are evicted once the whole round of
    /// deliveries is over, and handed to the caller with their queues.
    pub fn push_all_or_kick(&mut self, scopes: &mut CancellationTree, value: &T) -> (evicted: Vec<
        (Id, Faucet<T>),
    >)
        requires
            old(self).inv(old(scopes)@),
        ensures
            final(self).inv(final(scopes)@),
            final(self).scope() == old(self).scope(),
            final(scopes)@ == old(scopes)@.cancel_all(evicted_nodes(evicted@)),
            old(self).state(old(scopes)@).push_all_or_kick(
                *value,
                final(self).state(final(scopes)@),
                evictions(evicted@, final(scopes)@),
            ),
    {
        let rejected = self.deliver_all(&*scopes, value);
        let ghost middle = *self;
        let ghost delivered = self.receivers@;
        let ghost slots = rejected@;
        let evicted = self.evict(scopes, rejected);
        proof {
            let before = old(self).receivers@;
            let start = old(scopes)@;
            let now = scopes@;
            let gone = keys_at(delivered, slots, 0);
            let gone_nodes = nodes_at(delivered, slots, 0);
            let out = evictions(evicted@, now);
            Self::lemma_same_scopes_keep_the_fit(*old(self), middle, start);
            assert(gone_nodes =~= evicted_nodes(evicted@)) by {
                assert forall|node: int| gone_nodes.contains(node) implies evicted_nodes(
                    evicted@,
                ).contains(node) by {
                    let m = choose|m: int|
                        0 <= m < slots.len() && (#[trigger] slots[m]) < delivered.len()
                            && delivered[slots[m] as int].faucet.scope().node() == node;
                    assert(evicted@[slots.len() - 1 - m].1 == delivered[slots[m] as int].faucet);
                }
                assert forall|node: int| evicted_nodes(evicted@).contains(
                    node,
                ) implies gone_nodes.contains(node) by {
                    let e = choose|e: int|
                        0 <= e < evicted@.len() && (#[trigger] evicted@[e]).1.scope().node() == node;
                    let m = slots.len() - 1 - e;
                    assert(slots[m] < delivered.len());
                }
            }
            // The nodes that went are children of the registry's node.
            assert forall|a: int| gone_nodes.contains(a) implies start.contains(a)
                && #[trigger] start.parents[a] == Some(middle.scope().node()) by {
                let m = choose|m: int|
                    0 <= m < slots.len() && (#[trigger] slots[m]) < delivered.len()
                        && delivered[slots[m] as int].faucet.scope().node() == a;
                lemma_queue_at(delivered, slots[m] as int);
                assert(middle.faucets().contains_key(delivered[slots[m] as int].id));
            }
            Self::lemma_eviction_spares_the_rest(middle, start, gone_nodes);
            // A key is gone exactly when its queue refused, and then its node is gone too.
            assert forall|id: Id| has_key(before, id) implies (gone.contains(id) <==> !queues_of(
                before,
            )[id].state(start).accepts()) && (gone.contains(id) <==> gone_nodes.contains(
                queues_of(delivered)[id].scope().node(),
            )) by {
                let j = slot_of(before, id);
                lemma_queue_at(before, j);
                lemma_queue_at(delivered, j);
                if gone.contains(id) {
                    let m = choose|m: int|
                        0 <= m < slots.len() && (#[trigger] slots[m]) < delivered.len()
                            && delivered[slots[m] as int].id == id;
                    lemma_queue_at(delivered, slots[m] as int);
                }
                if !before[j].faucet.state(start).accepts() {
                    let k = choose|k: int| 0 <= k < slots.len() && #[trigger] slots[k] == j;
                    assert(slots[k] < delivered.len() && delivered[slots[k] as int].id == id);
                }
                if gone_nodes.contains(queues_of(delivered)[id].scope().node()) {
                    let m = choose|m: int|
                        0 <= m < slots.len() && (#[trigger] slots[m]) < delivered.len()
                            && delivered[slots[m] as int].faucet.scope().node() == queues_of(
                            delivered,
                        )[id].scope().node();
                    let other = delivered[slots[m] as int].id;
                    lemma_queue_at(delivered, slots[m] as int);
                    assert(middle.faucets().contains_key(other));
                    assert(middle.faucets().contains_key(id));
                    if other != id {
                        assert(middle.faucets()[other].scope().node() != middle.faucets()[id].scope().node());
                    }
                    assert(gone.contains(id));
                }
            }
            let first = old(self).state(start);
            let last = self.state(now);
            assert forall|id: Id| #[trigger]
                last.registered(id) <==> first.registered(id) && first.queues[id].accepts() by {}
            // A key that stays has received the value.
            assert forall|id: Id| #[trigger] last.registered(id) implies first.queues[id].receives(
                *value,
                last.queues[id],
            ) by {
                let j = slot_of(before, id);
                lemma_queue_at(before, j);
                lemma_queue_at(delivered, j);
                assert(middle.faucets().contains_key(id));
                assert(self.faucets()[id] == delivered[j].faucet);
            }
            // What is handed back was registered, refused, and is now ended.
            assert forall|k: int| 0 <= k < out.len() implies {
                &&& first.registered((#[trigger] out[k]).0)
                &&& !first.queues[out[k].0].accepts()
                &&& out[k].1 == first.queues[out[k].0].ended()
            } by {
                let slot = slots[slots.len() - 1 - k] as int;
                assert(evicted@[k].0 == delivered[slot].id);
                assert(evicted@[k].1 == delivered[slot].faucet);
                lemma_queue_at(before, slot);
                lemma_queue_at(delivered, slot);
                assert(middle.faucets().contains_key(delivered[slot].id));
                assert(gone.contains(delivered[slot].id));
            }
            // Every key whose queue refused is handed back.
            assert forall|id: Id|
                #![trigger first.registered(id)]
                first.registered(id) && !first.queues[id].accepts() implies exists|k: int|
                    0 <= k < out.len() && (#[trigger] out[k]).0 == id by {
                let j = slot_of(before, id);
                lemma_queue_at(before, j);
                let m = choose|m: int| 0 <= m < slots.len() && #[trigger] slots[m] == j;
                let k = slots.len() - 1 - m;
                assert(evicted@[k].0 == delivered[j].id);
                assert(out[k].0 == id);
            }
            // No key is handed back twice: the slots are distinct, and so are their keys.
            assert forall|j: int, k: int| 0 <= j < k < out.len() implies (#[trigger] out[j]).0 != (
            #[trigger] out[k]).0 by {
                let a = slots[slots.len() - 1 - j] as int;
                let b = slots[slots.len() - 1 - k] as int;
                assert(evicted@[j].0 == delivered[a].id);
                assert(evicted@[k].0 == delivered[b].id);
                assert(slots[slots.len() - 1 - k] < slots[slots.len() - 1 - j]);
                assert(delivered[b].id != delivered[a].id);
            }
        }
        evicted
    }

    /// Cancelling the scopes of some queues of a registry cancels these queues
    /// alone: the registry and its other queues are as they were.
    proof fn lemma_eviction_spares_the_rest(registry: Self, scopes: TreeState, gone: Set<int>)
        requires
            registry.inv(scopes),
            forall|a: int|
                gone.contains(a) ==> scopes.contains(a) && #[trigger] scopes.parents[a] == Some(
                    registry.scope().node(),
                ),
        ensures
            scopes.cancel_all(gone).cancelled[registry.scope().node()]
                == scopes.cancelled[registry.scope().node()],
            forall|id: Id| #[trigger]
                registry.faucets().contains_key(id) ==> {
                    let node = registry.faucets()[id].scope().node();
                    scopes.cancel_all(gone).cancelled[node] == (scopes.cancelled[node]
                        || gone.contains(node))
                },
    {
        let parent = registry.scope().node();
        assert forall|id: Id| #[trigger] registry.faucets().contains_key(id) implies {
            let node = registry.faucets()[id].scope().node();
            scopes.cancel_all(gone).cancelled[node] == (scopes.cancelled[node] || gone.contains(
                node,
            ))
        } by {
            lemma_cancel_all_among_children(
                scopes,
                parent,
                gone,
                registry.faucets()[id].scope().node(),
            );
        }
        assert forall|a: int| gone.contains(a) implies !below(scopes.parents, parent, a) by {
            lemma_parent_is_above(scopes, a, parent);
        }
    }

    /// Cancels the registry's scope, and with it the scope of every queue: the
    /// registered ones now, and each one made later from its first moment.
    pub fn end(&self, scopes: &mut CancellationTree)
        requires
            self.inv(old(scopes)@),
        ensures
            self.inv(final(scopes)@),
            final(scopes)@ == old(scopes)@.cancel(self.scope().node()),
            self.state(final(scopes)@) == self.state(old(scopes)@).ended(),
    {
        scopes.cancel(self.completion);
        proof {
            let before = old(scopes)@;
            let registry = self.scope().node();
            assert(below(before.parents, registry, registry));
            // Every queue lies below the registry's scope, and is reached.
            assert forall|id: Id| #[trigger]
                self.faucets().contains_key(id) implies scopes@.cancelled[self.faucets()[id]
                .scope().node()] by {
                assert(below(before.parents, self.faucets()[id].scope().node(), registry));
            }
            assert(self.state(scopes@).queues =~= self.state(before).ended().queues);
        }
    }

    /// Whether the registry's scope is cancelled, by itself or from above: one
    /// step of waiting for it.
    pub fn cancelled(&self, scopes: &CancellationTree) -> (step: Step<(), ()>)
        requires
            scopes@.contains(self.scope().node()),
        ensures
            step == (if self.state(scopes@).cancelled {
                Step::<(), ()>::Ready(())
            } else {
                Step::<(), ()>::Pending(())
            }),
    {
        if scopes.is_cancelled(self.completion) {
            Step::Ready(())
        } else {
            Step::Pending(())
        }
    }
}

} // verus!
