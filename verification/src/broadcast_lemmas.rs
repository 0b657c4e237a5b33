//! What holds of every registry, over runs of operations.

use crate::broadcast::Broadcast;
use crate::broadcast::BroadcastState;
use crate::faucet::Faucet;
use crate::faucet::FaucetState;
use crate::scope::below;
use crate::scope::lemma_below_is_transitive;
use crate::scope::lemma_tree_only_grows;
use crate::scope::TreeState;
use vstd::prelude::*;

verus! {

/// Cancellation from above reaches the queue. Once the queue's scope, or a
/// scope that it lies below, is cancelled, the queue is ended: cancelled, with
/// its buffer as it was.
pub proof fn lemma_cancel_above_ends_the_queue<T>(faucet: Faucet<T>, scopes: TreeState, node: int)
    requires
        scopes.wf(),
        scopes.contains(faucet.scope().node()),
        below(scopes.parents, faucet.scope().node(), node),
    ensures
        faucet.state(scopes.cancel(node)) == faucet.state(scopes).ended(),
{
}

/// Cancellation from above reaches the registry and every queue in it. Once
/// the registry's scope, or a scope that it lies below, is cancelled, the
/// registry is ended, and still fits the tree.
pub proof fn lemma_cancel_above_ends_the_registry<Id: PartialEq + Clone, T: Clone>(
    registry: Broadcast<Id, T>,
    scopes: TreeState,
    node: int,
)
    requires
        registry.inv(scopes),
        scopes.contains(node),
        below(scopes.parents, registry.scope().node(), node),
    ensures
        registry.inv(scopes.cancel(node)),
        registry.state(scopes.cancel(node)) == registry.state(scopes).ended(),
{
    lemma_tree_only_grows(scopes, node);
    assert forall|id: Id| #[trigger] registry.faucets().contains_key(id) implies scopes.cancel(
        node,
    ).cancelled[registry.faucets()[id].scope().node()] by {
        let queue = registry.faucets()[id].scope().node();
        assert(below(scopes.parents, registry.scope().node(), registry.scope().node()));
        assert(scopes.parents[queue] == Some(registry.scope().node()));
        assert(below(scopes.parents, queue, registry.scope().node()));
        lemma_below_is_transitive(scopes.parents, queue, registry.scope().node(), node);
    }
    assert(registry.state(scopes.cancel(node)).queues =~= registry.state(scopes).ended().queues);
}

/// The registry's scope covers its queues. In a registry that fits the tree,
/// every queue is cancelled once the registry is, and a queue that is well
/// formed by itself makes for a well-formed registry.
pub proof fn lemma_registry_scope_covers_queues<Id: PartialEq + Clone, T: Clone>(
    registry: Broadcast<Id, T>,
    scopes: TreeState,
)
    requires
        registry.inv(scopes),
    ensures
        registry.state(scopes).cancelled ==> forall|id: Id|
            registry.state(scopes).registered(id) ==> (#[trigger] registry.state(
                scopes,
            ).queues[id]).cancelled,
        (forall|id: Id|
            registry.state(scopes).registered(id) ==> (#[trigger] registry.state(
                scopes,
            ).queues[id]).wf()) ==> registry.state(scopes).wf(),
{
    assert forall|id: Id|
        registry.state(scopes).cancelled && registry.state(scopes).registered(id) implies (
    #[trigger] registry.state(scopes).queues[id]).cancelled by {
        assert(registry.faucets().contains_key(id));
    }
}

/// A registry that fits a tree fits every later state of the tree: making
/// scopes and cancelling scopes elsewhere does not undo the fit.
pub proof fn lemma_fit_survives<Id: PartialEq + Clone, T: Clone>(
    registry: Broadcast<Id, T>,
    scopes: TreeState,
    later: TreeState,
)
    requires
        registry.inv(scopes),
        later.wf(),
        later.extends(scopes),
    ensures
        registry.inv(later),
{
}

/// One key, one queue. A second get-or-join of a key hands out the queue
/// that the first one registered, as the first caller left it, and announces
/// nothing.
pub proof fn lemma_same_key_same_queue<Id: Clone, T: Clone>(
    start: BroadcastState<Id, T>,
    id: Id,
    first_capacity: nat,
    first_handed: FaucetState<T>,
    first_left: FaucetState<T>,
    between: BroadcastState<Id, T>,
    second_capacity: nat,
    second_handed: FaucetState<T>,
    second_left: FaucetState<T>,
    end: BroadcastState<Id, T>,
)
    requires
        start.get_or_join(id, first_capacity, first_handed, first_left, between),
        between.get_or_join(id, second_capacity, second_handed, second_left, end),
    ensures
        second_handed == first_left,
        end.announced == between.announced,
        end.queues == start.queues.insert(id, second_left),
{
    assert(between.registered(id));
    assert(end.queues =~= start.queues.insert(id, second_left));
}

/// A value pushed through one handle is seen through the other. When the
/// first caller of a get-or-join pushes a value that is taken, the second
/// caller for the same key finds it at the back of the queue.
pub proof fn lemma_push_is_seen_by_second_join<Id: Clone, T: Clone>(
    start: BroadcastState<Id, T>,
    id: Id,
    capacity: nat,
    handed: FaucetState<T>,
    value: T,
    between: BroadcastState<Id, T>,
    second_capacity: nat,
    second_handed: FaucetState<T>,
    second_left: FaucetState<T>,
    end: BroadcastState<Id, T>,
)
    requires
        start.get_or_join(id, capacity, handed, handed.try_push(value).0, between),
        handed.accepts(),
        between.get_or_join(id, second_capacity, second_handed, second_left, end),
    ensures
        second_handed.items == handed.items.push(value),
{
    assert(between.registered(id));
}

/// After an eviction the key starts anew. A get-or-join that follows a kick
/// of the same key hands out a fresh queue, empty and of the capacity asked
/// for, and announces the key once more.
pub proof fn lemma_join_after_kick_is_fresh<Id: Clone, T: Clone>(
    start: BroadcastState<Id, T>,
    id: Id,
    capacity: nat,
    handed: FaucetState<T>,
    left: FaucetState<T>,
    end: BroadcastState<Id, T>,
)
    requires
        start.kicked(id).get_or_join(id, capacity, handed, left, end),
    ensures
        handed == FaucetState::<T>::fresh(capacity, start.cancelled),
        BroadcastState::<Id, T>::announces(start.announced, id, end.announced),
        end.queues == start.queues.insert(id, left),
{
    assert(!start.kicked(id).registered(id));
    assert(end.queues =~= start.queues.insert(id, left));
}

/// Delivery to all evicts the full queues, and only them. In a registry
/// without a finished queue, the keys evicted are exactly those whose queue
/// was at capacity, and every other key stays registered and receives the
/// value.
pub proof fn lemma_push_all_evicts_exactly_the_full<Id: Clone, T: Clone>(
    start: BroadcastState<Id, T>,
    value: T,
    end: BroadcastState<Id, T>,
    evicted: Seq<(Id, FaucetState<T>)>,
)
    requires
        start.wf(),
        forall|id: Id| start.registered(id) ==> !(#[trigger] start.queues[id]).finished(),
        start.push_all_or_kick(value, end, evicted),
    ensures
        forall|id: Id|
            #![trigger start.registered(id)]
            start.registered(id) ==> {
                let queue = start.queues[id];
                let at_capacity = queue.items.len() == queue.capacity;
                &&& at_capacity <==> exists|k: int|
                    0 <= k < evicted.len() && (#[trigger] evicted[k]).0 == id
                &&& at_capacity <==> !end.registered(id)
                &&& !at_capacity ==> queue.receives(value, end.queues[id])
            },
        forall|k: int| 0 <= k < evicted.len() ==> start.registered((#[trigger] evicted[k]).0),
        forall|id: Id| end.registered(id) ==> #[trigger] start.registered(id),
{
    assert forall|id: Id| #![trigger start.registered(id)] start.registered(id) implies {
        let queue = start.queues[id];
        let at_capacity = queue.items.len() == queue.capacity;
        &&& at_capacity <==> exists|k: int|
            0 <= k < evicted.len() && (#[trigger] evicted[k]).0 == id
        &&& at_capacity <==> !end.registered(id)
        &&& !at_capacity ==> queue.receives(value, end.queues[id])
    } by {
        let queue = start.queues[id];
        // Well formed and not finished, a queue refuses exactly when it is full.
        assert(queue.wf() && !queue.finished());
        assert(queue.accepts() <==> queue.items.len() != queue.capacity);
        assert(end.registered(id) <==> queue.accepts());
        if exists|k: int| 0 <= k < evicted.len() && (#[trigger] evicted[k]).0 == id {
            let k = choose|k: int| 0 <= k < evicted.len() && (#[trigger] evicted[k]).0 == id;
            assert(!start.queues[evicted[k].0].accepts());
        }
    }
    assert forall|id: Id| end.registered(id) implies #[trigger] start.registered(id) by {
        assert(end.registered(id) <==> start.registered(id) && start.queues[id].accepts());
    }
}

/// Ending the registry reaches every queue. It and each registered queue
/// are cancelled from then on, with their buffers as they were; a queue
/// made afterwards is born cancelled.
pub proof fn lemma_end_reaches_every_queue<Id: Clone, T: Clone>(
    start: BroadcastState<Id, T>,
    id: Id,
    capacity: nat,
    handed: FaucetState<T>,
    left: FaucetState<T>,
    end: BroadcastState<Id, T>,
)
    requires
        start.ended().get_or_join(id, capacity, handed, left, end),
    ensures
        start.ended().cancelled,
        forall|other: Id|
            start.registered(other) ==> {
                &&& start.ended().registered(other)
                &&& (#[trigger] start.ended().queues[other]).cancelled
                &&& start.ended().queues[other].items == start.queues[other].items
            },
        handed.cancelled,
        end.cancelled,
{
    assert forall|other: Id| start.registered(other) implies {
        &&& start.ended().registered(other)
        &&& (#[trigger] start.ended().queues[other]).cancelled
        &&& start.ended().queues[other].items == start.queues[other].items
    } by {
        assert(start.ended().queues[other] == start.queues[other].ended());
    }
}

/// Evicting and ending are idempotent: a second kick of a key, or a second
/// end of the registry, changes nothing.
pub proof fn lemma_kick_and_end_are_idempotent<Id, T>(start: BroadcastState<Id, T>, id: Id)
    ensures
        start.kicked(id).kicked(id) == start.kicked(id),
        start.ended().ended() == start.ended(),
        !start.registered(id) ==> start.kicked(id) == start,
{
    assert(start.kicked(id).queues.remove(id) =~= start.kicked(id).queues);
    assert(start.ended().ended().queues =~= start.ended().queues);
    if !start.registered(id) {
        assert(start.queues.remove(id) =~= start.queues);
    }
}

/// A get-or-join keeps the registry well formed. The queue handed out is
/// well formed, and cancelled if the registry is; the registry stays well
/// formed when the caller leaves the queue well formed and does not revive a
/// cancelled one.
pub proof fn lemma_get_or_join_keeps_well_formed<Id: Clone, T: Clone>(
    start: BroadcastState<Id, T>,
    id: Id,
    capacity: nat,
    handed: FaucetState<T>,
    left: FaucetState<T>,
    end: BroadcastState<Id, T>,
)
    requires
        start.wf(),
        capacity > 0 || start.registered(id),
        start.get_or_join(id, capacity, handed, left, end),
        left.wf(),
        handed.cancelled ==> left.cancelled,
    ensures
        handed.wf(),
        start.cancelled ==> handed.cancelled,
        end.wf(),
{
    assert forall|other: Id| end.registered(other) implies (#[trigger] end.queues[other]).wf() && (
    end.cancelled ==> end.queues[other].cancelled) by {
        if other != id {
            assert(start.registered(other));
            assert(start.queues[other].wf());
        }
    }
}

/// Delivery to one key keeps the registry well formed.
pub proof fn lemma_push_or_kick_keeps_well_formed<Id: Clone, T: Clone>(
    start: BroadcastState<Id, T>,
    id: Id,
    value: T,
    end: BroadcastState<Id, T>,
    evicted: Option<FaucetState<T>>,
)
    requires
        start.wf(),
        start.push_or_kick(id, value, end, evicted),
    ensures
        end.wf(),
{
    assert forall|other: Id| end.registered(other) implies (#[trigger] end.queues[other]).wf() && (
    end.cancelled ==> end.queues[other].cancelled) by {
        if start.registered(id) && start.queues[id].accepts() && other == id {
            assert(start.queues[id].wf());
            assert(start.queues[id].receives(value, end.queues[id]));
        } else {
            assert(start.registered(other));
            assert(start.queues[other].wf());
        }
    }
}

/// Delivery to every key keeps the registry well formed.
pub proof fn lemma_push_all_or_kick_keeps_well_formed<Id: Clone, T: Clone>(
    start: BroadcastState<Id, T>,
    value: T,
    end: BroadcastState<Id, T>,
    evicted: Seq<(Id, FaucetState<T>)>,
)
    requires
        start.wf(),
        start.push_all_or_kick(value, end, evicted),
    ensures
        end.wf(),
{
    assert forall|other: Id| end.registered(other) implies (#[trigger] end.queues[other]).wf() && (
    end.cancelled ==> end.queues[other].cancelled) by {
        assert(start.registered(other) && start.queues[other].accepts());
        assert(start.queues[other].wf());
        assert(start.queues[other].receives(value, end.queues[other]));
    }
}

/// Evicting a key keeps the registry well formed.
pub proof fn lemma_kick_keeps_well_formed<Id, T>(start: BroadcastState<Id, T>, id: Id)
    requires
        start.wf(),
    ensures
        start.kicked(id).wf(),
{
    assert forall|other: Id| start.kicked(id).registered(other) implies (
    #[trigger] start.kicked(id).queues[other]).wf() && (start.cancelled ==> start.kicked(
        id,
    ).queues[other].cancelled) by {
        assert(start.registered(other));
        assert(start.queues[other].wf());
    }
}

/// Ending the registry keeps it well formed.
pub proof fn lemma_end_keeps_well_formed<Id, T>(start: BroadcastState<Id, T>)
    requires
        start.wf(),
    ensures
        start.ended().wf(),
{
    assert forall|other: Id| start.ended().registered(other) implies (
    #[trigger] start.ended().queues[other]).wf() && start.ended().queues[other].cancelled by {
        assert(start.registered(other));
        assert(start.queues[other].wf());
    }
}

} // verus!
