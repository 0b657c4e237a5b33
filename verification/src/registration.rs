//! The entries of the registry, kept in the order in which they joined, and
//! the map from keys to queues that they stand for.

use crate::faucet::Faucet;
use crate::scope::TreeState;
use vstd::prelude::*;

verus! {

/// One entry of the registry: a key and the queue registered under it.
#[verifier::reject_recursive_types(T)]
pub(crate) struct Registration<Id, T> {
    pub(crate) id: Id,
    pub(crate) faucet: Faucet<T>,
}

/// Some entry has the key `id`.
pub(crate) open spec fn has_key<Id, T>(entries: Seq<Registration<Id, T>>, id: Id) -> bool {
    exists|i: int| 0 <= i < entries.len() && #[trigger] entries[i].id == id
}

/// A slot that holds the key `id`: the only one, where keys are distinct.
pub(crate) open spec fn slot_of<Id, T>(entries: Seq<Registration<Id, T>>, id: Id) -> int {
    choose|i: int| 0 <= i < entries.len() && #[trigger] entries[i].id == id
}

/// No key occurs twice.
pub(crate) open spec fn distinct<Id, T>(entries: Seq<Registration<Id, T>>) -> bool {
    forall|i: int, j: int|
        0 <= i < j < entries.len() ==> #[trigger] entries[i].id != #[trigger] entries[j].id
}

/// The map from each key to its queue.
pub(crate) open spec fn queues_of<Id, T>(entries: Seq<Registration<Id, T>>) -> Map<Id, Faucet<T>> {
    Map::new(|id: Id| has_key(entries, id), |id: Id| entries[slot_of(entries, id)].faucet)
}

/// With distinct keys, the entry in slot `i` is the one found under its key.
pub(crate) proof fn lemma_queue_at<Id, T>(entries: Seq<Registration<Id, T>>, i: int)
    requires
        distinct(entries),
        0 <= i < entries.len(),
    ensures
        has_key(entries, entries[i].id),
        slot_of(entries, entries[i].id) == i,
        queues_of(entries).contains_key(entries[i].id),
        queues_of(entries)[entries[i].id] == entries[i].faucet,
{
}

/// A new key at the end is an insertion into the map.
pub(crate) proof fn lemma_push<Id, T>(entries: Seq<Registration<Id, T>>, entry: Registration<Id, T>)
    requires
        distinct(entries),
        !has_key(entries, entry.id),
    ensures
        distinct(entries.push(entry)),
        queues_of(entries.push(entry)) == queues_of(entries).insert(entry.id, entry.faucet),
{
    let after = entries.push(entry);
    assert(distinct(after));
    assert forall|id: Id| has_key(after, id) <==> (has_key(entries, id) || id == entry.id) by {
        if has_key(entries, id) {
            assert(after[slot_of(entries, id)].id == id);
        }
        if id == entry.id {
            assert(after[entries.len() as int].id == id);
        }
    }
    assert forall|id: Id| has_key(after, id) implies #[trigger] queues_of(after)[id] == queues_of(
        entries,
    ).insert(entry.id, entry.faucet)[id] by {
        let i = slot_of(after, id);
        lemma_queue_at(after, i);
        if i < entries.len() {
            lemma_queue_at(entries, i);
        }
    }
}

/// Taking an entry out is a removal of its key from the map.
pub(crate) proof fn lemma_remove<Id, T>(entries: Seq<Registration<Id, T>>, i: int)
    requires
        distinct(entries),
        0 <= i < entries.len(),
    ensures
        distinct(entries.remove(i)),
        !has_key(entries.remove(i), entries[i].id),
        queues_of(entries.remove(i)) == queues_of(entries).remove(entries[i].id),
{
    let after = entries.remove(i);
    assert(distinct(after));
    assert forall|id: Id| has_key(after, id) <==> (has_key(entries, id) && id != entries[i].id) by {
        if has_key(entries, id) && id != entries[i].id {
            let slot = slot_of(entries, id);
            assert(after[if slot < i { slot } else { slot - 1 }].id == id);
        }
    }
    assert forall|id: Id| has_key(after, id) implies #[trigger] queues_of(after)[id] == queues_of(
        entries,
    )[id] by {
        let slot = slot_of(after, id);
        lemma_queue_at(after, slot);
        lemma_queue_at(entries, if slot < i { slot } else { slot + 1 });
    }
}

/// Replacing the queue of an entry is an overwrite of its key in the map.
pub(crate) proof fn lemma_update<Id, T>(
    entries: Seq<Registration<Id, T>>,
    i: int,
    entry: Registration<Id, T>,
)
    requires
        distinct(entries),
        0 <= i < entries.len(),
        entry.id == entries[i].id,
    ensures
        distinct(entries.update(i, entry)),
        queues_of(entries.update(i, entry)) == queues_of(entries).insert(entry.id, entry.faucet),
{
    let after = entries.update(i, entry);
    assert(distinct(after));
    assert forall|id: Id| has_key(after, id) <==> has_key(entries, id) by {
        if has_key(entries, id) {
            assert(after[slot_of(entries, id)].id == id);
        }
    }
    lemma_queue_at(entries, i);
    assert forall|id: Id| has_key(after, id) implies #[trigger] queues_of(after)[id] == queues_of(
        entries,
    ).insert(entry.id, entry.faucet)[id] by {
        let slot = slot_of(after, id);
        lemma_queue_at(after, slot);
        lemma_queue_at(entries, slot);
    }
}

/// `rejected` lists, in rising order, exactly the slots below `upto` whose
/// queue does not accept while the tree of scopes is `scopes`.
pub(crate) open spec fn rejections<Id, T>(
    before: Seq<Registration<Id, T>>,
    rejected: Seq<usize>,
    upto: int,
    scopes: TreeState,
) -> bool {
    &&& forall|k: int|
        0 <= k < rejected.len() ==> (#[trigger] rejected[k]) < upto && !before[rejected[k] as int]
            .faucet.state(scopes).accepts()
    &&& forall|k1: int, k2: int|
        0 <= k1 < k2 < rejected.len() ==> (#[trigger] rejected[k1]) < (#[trigger] rejected[k2])
    &&& forall|j: int|
        0 <= j < upto && !(#[trigger] before[j]).faucet.state(scopes).accepts() ==> exists|k: int|
            0 <= k < rejected.len() && #[trigger] rejected[k] == j
}

/// The keys found in the slots that `slots` lists from position `from` on.
pub(crate) open spec fn keys_at<Id, T>(
    entries: Seq<Registration<Id, T>>,
    slots: Seq<usize>,
    from: int,
) -> Set<Id> {
    Set::new(
        |id: Id|
            exists|m: int|
                from <= m < slots.len() && (#[trigger] slots[m]) < entries.len()
                    && entries[slots[m] as int].id == id,
    )
}

/// The nodes of the queues found in the slots that `slots` lists from
/// position `from` on.
pub(crate) open spec fn nodes_at<Id, T>(
    entries: Seq<Registration<Id, T>>,
    slots: Seq<usize>,
    from: int,
) -> Set<int> {
    Set::new(
        |node: int|
            exists|m: int|
                from <= m < slots.len() && (#[trigger] slots[m]) < entries.len()
                    && entries[slots[m] as int].faucet.scope().node() == node,
    )
}

/// The keys in the slots listed from `k` on are those listed from `k + 1`
/// on and the key in slot `slots[k]`; and so for the nodes.
pub(crate) proof fn lemma_one_more_slot<Id, T>(
    entries: Seq<Registration<Id, T>>,
    slots: Seq<usize>,
    k: int,
)
    requires
        0 <= k < slots.len(),
        slots[k] < entries.len(),
    ensures
        keys_at(entries, slots, k) == keys_at(entries, slots, k + 1).insert(
            entries[slots[k] as int].id,
        ),
        nodes_at(entries, slots, k) == nodes_at(entries, slots, k + 1).insert(
            entries[slots[k] as int].faucet.scope().node(),
        ),
{
    let id = entries[slots[k] as int].id;
    let node = entries[slots[k] as int].faucet.scope().node();
    assert forall|other: Id| keys_at(entries, slots, k).contains(other) implies keys_at(
        entries,
        slots,
        k + 1,
    ).insert(id).contains(other) by {
        let m = choose|m: int|
            k <= m < slots.len() && (#[trigger] slots[m]) < entries.len()
                && entries[slots[m] as int].id == other;
        if m > k {
            assert(keys_at(entries, slots, k + 1).contains(other));
        }
    }
    assert(keys_at(entries, slots, k).contains(id));
    assert forall|other: Id| keys_at(entries, slots, k + 1).contains(other) implies keys_at(
        entries,
        slots,
        k,
    ).contains(other) by {
        let m = choose|m: int|
            k + 1 <= m < slots.len() && (#[trigger] slots[m]) < entries.len()
                && entries[slots[m] as int].id == other;
        assert(k <= m);
    }
    assert(keys_at(entries, slots, k) =~= keys_at(entries, slots, k + 1).insert(id));
    assert forall|other: int| nodes_at(entries, slots, k).contains(other) implies nodes_at(
        entries,
        slots,
        k + 1,
    ).insert(node).contains(other) by {
        let m = choose|m: int|
            k <= m < slots.len() && (#[trigger] slots[m]) < entries.len()
                && entries[slots[m] as int].faucet.scope().node() == other;
        if m > k {
            assert(nodes_at(entries, slots, k + 1).contains(other));
        }
    }
    assert(nodes_at(entries, slots, k).contains(node));
    assert forall|other: int| nodes_at(entries, slots, k + 1).contains(other) implies nodes_at(
        entries,
        slots,
        k,
    ).contains(other) by {
        let m = choose|m: int|
            k + 1 <= m < slots.len() && (#[trigger] slots[m]) < entries.len()
                && entries[slots[m] as int].faucet.scope().node() == other;
        assert(k <= m);
    }
    assert(nodes_at(entries, slots, k) =~= nodes_at(entries, slots, k + 1).insert(node));
}

/// Entries with the same keys in the same slots have the same keys, found in
/// the same slots.
pub(crate) proof fn lemma_same_keys<Id, T>(a: Seq<Registration<Id, T>>, b: Seq<Registration<Id, T>>)
    requires
        distinct(a),
        a.len() == b.len(),
        forall|j: int| 0 <= j < a.len() ==> #[trigger] a[j].id == b[j].id,
    ensures
        distinct(b),
        forall|id: Id| has_key(a, id) == has_key(b, id),
        forall|id: Id| has_key(a, id) ==> slot_of(a, id) == slot_of(b, id),
{
    assert forall|i: int, j: int| 0 <= i < j < b.len() implies #[trigger] b[i].id
        != #[trigger] b[j].id by {
        assert(a[i].id == b[i].id);
        assert(a[j].id == b[j].id);
    }
    assert forall|id: Id| has_key(a, id) == has_key(b, id) by {
        if has_key(a, id) {
            assert(b[slot_of(a, id)].id == id);
        }
        if has_key(b, id) {
            assert(a[slot_of(b, id)].id == id);
        }
    }
    assert forall|id: Id| has_key(a, id) implies slot_of(a, id) == slot_of(b, id) by {
        let i = slot_of(a, id);
        lemma_queue_at(a, i);
        lemma_queue_at(b, i);
    }
}

} // verus!
