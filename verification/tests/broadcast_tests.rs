use faucet::Broadcast;
use faucet::CancellationTree;
use faucet::Faucet;
use faucet::Step;
use tokio::sync::broadcast::error::TryRecvError;

fn registry(scopes: &mut CancellationTree) -> Broadcast<&'static str, u32> {
    let root = scopes.root();
    Broadcast::new_with_cancellation(scopes, root)
}

#[test]
fn join_push_evict_rejoin_scenario() {
    let mut scopes = CancellationTree::new();
    let mut registry = registry(&mut scopes);
    let mut joined = registry.on_joined().into_receiver();

    registry.get_or_join(&mut scopes, "a", 1);
    assert_eq!(joined.try_recv(), Ok("a"));

    assert!(registry.push_or_kick(&mut scopes, &"a", &10).is_none());
    assert_eq!(registry.get(&"a").map(Faucet::len), Some(1));

    let evicted = registry.push_or_kick(&mut scopes, &"a", &20);
    let mut evicted = evicted.expect("the full queue is evicted");
    assert!(registry.get(&"a").is_none());
    assert!(evicted.is_cancelled(&scopes));
    assert_eq!(evicted.try_pop(), Some(10));
    assert_eq!(evicted.try_pop(), None);
    assert!(evicted.is_finished(&scopes));

    let fresh = registry.get_or_join(&mut scopes, "a", 1);
    assert!(fresh.is_empty());
    assert!(!fresh.is_cancelled(&scopes));
    assert_eq!(joined.try_recv(), Ok("a"));
    assert_eq!(joined.try_recv(), Err(TryRecvError::Empty));
}

#[test]
fn same_key_gives_the_same_queue() {
    let mut scopes = CancellationTree::new();
    let mut registry = registry(&mut scopes);
    let mut joined = registry.on_joined().into_receiver();
    assert_eq!(registry.get_or_join(&mut scopes, "k", 3).try_push(&scopes, 7), Ok(()));
    let again = registry.get_or_join(&mut scopes, "k", 9);
    assert_eq!(again.capacity(), 3);
    assert_eq!(again.len(), 1);
    assert_eq!(again.try_pop(), Some(7));
    assert_eq!(registry.get_or_join(&mut scopes, "k", 3).len(), 0);
    assert_eq!(joined.try_recv(), Ok("k"));
    assert_eq!(joined.try_recv(), Err(TryRecvError::Empty));
}

#[test]
fn registered_key_ignores_the_capacity_asked_for() {
    let mut scopes = CancellationTree::new();
    let mut registry = registry(&mut scopes);
    registry.get_or_join(&mut scopes, "k", 2);
    assert_eq!(registry.get_or_join(&mut scopes, "k", 0).capacity(), 2);
}

#[test]
fn different_keys_give_independent_queues() {
    let mut scopes = CancellationTree::new();
    let mut registry = registry(&mut scopes);
    assert_eq!(registry.get_or_join(&mut scopes, "a", 2).try_push(&scopes, 1), Ok(()));
    assert_eq!(registry.get_or_join(&mut scopes, "b", 2).try_push(&scopes, 2), Ok(()));
    assert_eq!(registry.get_or_join(&mut scopes, "a", 2).try_pop(), Some(1));
    assert_eq!(registry.get_or_join(&mut scopes, "a", 2).try_pop(), None);
    assert_eq!(registry.get_or_join(&mut scopes, "b", 2).try_pop(), Some(2));
}

#[test]
fn kick_then_join_gives_a_fresh_queue_and_a_new_notification() {
    let mut scopes = CancellationTree::new();
    let mut registry = registry(&mut scopes);
    let mut joined = registry.on_joined().into_receiver();
    assert_eq!(registry.get_or_join(&mut scopes, "a", 2).try_push(&scopes, 5), Ok(()));
    assert_eq!(joined.try_recv(), Ok("a"));

    let mut old = registry.kick(&mut scopes, &"a").expect("the key was registered");
    assert!(old.is_cancelled(&scopes));
    assert_eq!(old.len(), 1);
    assert!(registry.get(&"a").is_none());

    let fresh = registry.get_or_join(&mut scopes, "a", 4);
    assert_eq!(fresh.capacity(), 4);
    assert!(fresh.is_empty());
    assert!(!fresh.is_cancelled(&scopes));
    assert_eq!(fresh.try_push(&scopes, 6), Ok(()));
    assert_eq!(joined.try_recv(), Ok("a"));

    assert_eq!(old.try_pop(), Some(5));
    assert_eq!(old.try_pop(), None);
    assert_eq!(registry.get_or_join(&mut scopes, "a", 4).try_pop(), Some(6));
}

#[test]
fn kick_of_an_unknown_key_does_nothing() {
    let mut scopes = CancellationTree::new();
    let mut registry = registry(&mut scopes);
    registry.get_or_join(&mut scopes, "a", 1);
    assert!(registry.kick(&mut scopes, &"b").is_none());
    assert!(registry.get(&"a").is_some());
    assert!(registry.kick(&mut scopes, &"a").is_some());
    assert!(registry.kick(&mut scopes, &"a").is_none());
}

#[test]
fn push_to_an_unknown_key_does_nothing() {
    let mut scopes = CancellationTree::new();
    let mut registry = registry(&mut scopes);
    registry.get_or_join(&mut scopes, "a", 1);
    assert!(registry.push_or_kick(&mut scopes, &"b", &1).is_none());
    assert!(registry.get(&"b").is_none());
    assert_eq!(registry.get(&"a").map(Faucet::len), Some(0));
}

#[test]
fn push_to_a_finished_queue_evicts_it() {
    let mut scopes = CancellationTree::new();
    let mut registry = registry(&mut scopes);
    registry.get_or_join(&mut scopes, "a", 3).end(&mut scopes);
    let evicted = registry.push_or_kick(&mut scopes, &"a", &1).expect("a finished queue takes nothing");
    assert!(evicted.is_finished(&scopes));
    assert!(registry.get(&"a").is_none());
}

#[test]
fn push_all_evicts_exactly_the_full_queues() {
    let mut scopes = CancellationTree::new();
    let mut registry = registry(&mut scopes);
    registry.get_or_join(&mut scopes, "full", 1);
    registry.get_or_join(&mut scopes, "roomy", 2);
    registry.get_or_join(&mut scopes, "also full", 2);
    registry.get_or_join(&mut scopes, "empty", 3);
    assert!(registry.push_or_kick(&mut scopes, &"full", &1).is_none());
    assert!(registry.push_or_kick(&mut scopes, &"roomy", &1).is_none());
    assert!(registry.push_or_kick(&mut scopes, &"also full", &1).is_none());
    assert!(registry.push_or_kick(&mut scopes, &"also full", &2).is_none());

    let evicted = registry.push_all_or_kick(&mut scopes, &9);
    let mut keys: Vec<&str> = evicted.iter().map(|entry| entry.0).collect();
    keys.sort();
    assert_eq!(keys, vec!["also full", "full"]);
    for (key, mut queue) in evicted {
        assert!(queue.is_cancelled(&scopes));
        if key == "full" {
            assert_eq!(queue.try_pop(), Some(1));
            assert_eq!(queue.try_pop(), None);
        } else {
            assert_eq!(queue.try_pop(), Some(1));
            assert_eq!(queue.try_pop(), Some(2));
            assert_eq!(queue.try_pop(), None);
        }
    }

    assert!(registry.get(&"full").is_none());
    assert!(registry.get(&"also full").is_none());
    let roomy = registry.get_or_join(&mut scopes, "roomy", 2);
    assert_eq!(roomy.try_pop(), Some(1));
    assert_eq!(roomy.try_pop(), Some(9));
    assert_eq!(roomy.try_pop(), None);
    let empty = registry.get_or_join(&mut scopes, "empty", 3);
    assert_eq!(empty.try_pop(), Some(9));
    assert_eq!(empty.try_pop(), None);
}

#[test]
fn push_all_on_an_empty_registry_evicts_nothing() {
    let mut scopes = CancellationTree::new();
    let mut registry = registry(&mut scopes);
    assert!(registry.push_all_or_kick(&mut scopes, &1).is_empty());
}

#[test]
fn push_all_evicts_every_queue_when_all_are_full() {
    let mut scopes = CancellationTree::new();
    let mut registry = registry(&mut scopes);
    for key in ["a", "b", "c"] {
        assert_eq!(registry.get_or_join(&mut scopes, key, 1).try_push(&scopes, 0), Ok(()));
    }
    let evicted = registry.push_all_or_kick(&mut scopes, &1);
    assert_eq!(evicted.len(), 3);
    for key in ["a", "b", "c"] {
        assert!(registry.get(&key).is_none());
    }
}

#[test]
fn end_cancels_the_registry_and_every_queue() {
    let mut scopes = CancellationTree::new();
    let mut registry = registry(&mut scopes);
    assert_eq!(registry.get_or_join(&mut scopes, "a", 2).try_push(&scopes, 1), Ok(()));
    registry.get_or_join(&mut scopes, "b", 2);
    let mut kicked = registry.kick(&mut scopes, &"b").expect("the key was registered");
    assert!(matches!(registry.cancelled(&scopes), Step::Pending(())));

    registry.end(&mut scopes);
    assert!(matches!(registry.cancelled(&scopes), Step::Ready(())));
    assert!(matches!(kicked.cancelled(&scopes), Step::Ready(())));
    assert!(matches!(kicked.next(&scopes), Step::Ready(None)));

    let existing = registry.get_or_join(&mut scopes, "a", 2);
    assert!(matches!(existing.cancelled(&scopes), Step::Ready(())));
    assert_eq!(existing.len(), 1);
    assert!(matches!(existing.next(&scopes), Step::Ready(Some(1))));
    assert!(existing.is_finished(&scopes));

    let late = registry.get_or_join(&mut scopes, "late", 2);
    assert!(matches!(late.cancelled(&scopes), Step::Ready(())));
    assert!(late.is_finished(&scopes));
    assert_eq!(late.try_push(&scopes, 1), Err(1));
}

#[test]
fn registry_under_a_cancelled_scope_is_born_cancelled() {
    let mut scopes = CancellationTree::new();
    let root = scopes.root();
    scopes.cancel(root);
    let mut registry: Broadcast<u64, u32> = Broadcast::new_with_cancellation(&mut scopes, root);
    assert!(matches!(registry.cancelled(&scopes), Step::Ready(())));
    assert!(registry.get_or_join(&mut scopes, 1, 1).is_cancelled(&scopes));
}

#[test]
fn subscriber_sees_only_joins_after_it_subscribed() {
    let mut scopes = CancellationTree::new();
    let mut registry = registry(&mut scopes);
    registry.get_or_join(&mut scopes, "early", 1);
    let mut joined = registry.on_joined().into_receiver();
    assert_eq!(joined.try_recv(), Err(TryRecvError::Empty));
    registry.get_or_join(&mut scopes, "late", 1);
    assert_eq!(joined.try_recv(), Ok("late"));
}

#[test]
fn slow_subscriber_misses_all_but_the_latest_join() {
    let mut scopes = CancellationTree::new();
    let mut registry = registry(&mut scopes);
    let mut slow = registry.on_joined().into_receiver();
    let mut quick = registry.on_joined().into_receiver();
    registry.get_or_join(&mut scopes, "a", 1);
    assert_eq!(quick.try_recv(), Ok("a"));
    registry.get_or_join(&mut scopes, "b", 1);
    assert_eq!(quick.try_recv(), Ok("b"));
    registry.get_or_join(&mut scopes, "c", 1);
    assert_eq!(quick.try_recv(), Ok("c"));

    assert_eq!(slow.try_recv(), Err(TryRecvError::Lagged(2)));
    assert_eq!(slow.try_recv(), Ok("c"));
    assert_eq!(slow.try_recv(), Err(TryRecvError::Empty));
}

#[test]
fn join_without_subscribers_still_registers() {
    let mut scopes = CancellationTree::new();
    let mut registry = registry(&mut scopes);
    assert_eq!(registry.get_or_join(&mut scopes, "a", 1).try_push(&scopes, 1), Ok(()));
    assert_eq!(registry.get(&"a").map(Faucet::len), Some(1));
}

#[test]
fn integer_keys_work_like_any_other() {
    let mut scopes = CancellationTree::new();
    let root = scopes.root();
    let mut registry: Broadcast<u64, String> = Broadcast::new_with_cancellation(&mut scopes, root);
    registry.get_or_join(&mut scopes, 1, 1);
    registry.get_or_join(&mut scopes, 2, 2);
    let evicted = registry.push_all_or_kick(&mut scopes, &String::from("x"));
    assert!(evicted.is_empty());
    let evicted = registry.push_all_or_kick(&mut scopes, &String::from("y"));
    assert_eq!(evicted.len(), 1);
    assert_eq!(evicted[0].0, 1);
    assert_eq!(registry.get(&2).map(Faucet::len), Some(2));
}

#[test]
fn push_all_evicts_a_finished_queue_and_feeds_a_draining_one() {
    let mut scopes = CancellationTree::new();
    let mut registry = registry(&mut scopes);
    registry.get_or_join(&mut scopes, "finished", 3).end(&mut scopes);
    let draining = registry.get_or_join(&mut scopes, "draining", 3);
    assert_eq!(draining.try_push(&scopes, 1), Ok(()));
    draining.end(&mut scopes);

    let evicted = registry.push_all_or_kick(&mut scopes, &2);
    assert_eq!(evicted.len(), 1);
    assert_eq!(evicted[0].0, "finished");
    assert!(evicted[0].1.is_finished(&scopes));
    assert!(registry.get(&"finished").is_none());

    let draining = registry.get_or_join(&mut scopes, "draining", 3);
    assert!(draining.is_cancelled(&scopes));
    assert_eq!(draining.try_pop(), Some(1));
    assert_eq!(draining.try_pop(), Some(2));
    assert!(draining.is_finished(&scopes));
}

#[test]
fn ending_the_registry_twice_changes_nothing() {
    let mut scopes = CancellationTree::new();
    let mut registry = registry(&mut scopes);
    assert_eq!(registry.get_or_join(&mut scopes, "a", 2).try_push(&scopes, 1), Ok(()));
    registry.end(&mut scopes);
    registry.end(&mut scopes);
    assert!(matches!(registry.cancelled(&scopes), Step::Ready(())));
    assert_eq!(registry.get(&"a").map(Faucet::len), Some(1));
    assert_eq!(registry.get(&"a").map(|queue| queue.is_cancelled(&scopes)), Some(true));
}

#[test]
fn push_all_keeps_the_order_of_each_queue() {
    let mut scopes = CancellationTree::new();
    let mut registry = registry(&mut scopes);
    registry.get_or_join(&mut scopes, "a", 3);
    for value in [1, 2, 3] {
        assert!(registry.push_all_or_kick(&mut scopes, &value).is_empty());
    }
    let queue = registry.get_or_join(&mut scopes, "a", 3);
    assert_eq!(queue.try_pop(), Some(1));
    assert_eq!(queue.try_pop(), Some(2));
    assert_eq!(queue.try_pop(), Some(3));
}

#[test]
fn cancelling_the_root_cancels_the_registry_and_its_queues() {
    let mut scopes = CancellationTree::new();
    let root = scopes.root();
    let mut registry: Broadcast<&str, u32> = Broadcast::new_with_cancellation(&mut scopes, root);
    assert_eq!(registry.get_or_join(&mut scopes, "a", 2).try_push(&scopes, 1), Ok(()));
    let evicted = registry.kick(&mut scopes, &"a").expect("the key was registered");
    registry.get_or_join(&mut scopes, "b", 2);
    assert!(matches!(registry.cancelled(&scopes), Step::Pending(())));
    assert_eq!(registry.get(&"b").map(|queue| queue.is_cancelled(&scopes)), Some(false));

    scopes.cancel(root);
    assert!(matches!(registry.cancelled(&scopes), Step::Ready(())));
    assert_eq!(registry.get(&"b").map(|queue| queue.is_cancelled(&scopes)), Some(true));
    assert!(evicted.is_cancelled(&scopes));
    let late = registry.get_or_join(&mut scopes, "late", 2);
    assert!(late.is_finished(&scopes));
}

#[test]
fn ending_a_registry_leaves_its_root_and_other_registries_alone() {
    let mut scopes = CancellationTree::new();
    let root = scopes.root();
    let mut first: Broadcast<u64, u32> = Broadcast::new_with_cancellation(&mut scopes, root);
    let mut second: Broadcast<u64, u32> = Broadcast::new_with_cancellation(&mut scopes, root);
    first.get_or_join(&mut scopes, 1, 1);
    second.get_or_join(&mut scopes, 1, 1);
    first.end(&mut scopes);
    assert!(matches!(first.cancelled(&scopes), Step::Ready(())));
    assert!(matches!(second.cancelled(&scopes), Step::Pending(())));
    assert!(!scopes.is_cancelled(root));
    assert_eq!(first.get(&1).map(|queue| queue.is_cancelled(&scopes)), Some(true));
    assert_eq!(second.get(&1).map(|queue| queue.is_cancelled(&scopes)), Some(false));
}

#[test]
fn evicting_one_queue_leaves_the_others_active() {
    let mut scopes = CancellationTree::new();
    let mut registry = registry(&mut scopes);
    registry.get_or_join(&mut scopes, "a", 1);
    registry.get_or_join(&mut scopes, "b", 1);
    let evicted = registry.kick(&mut scopes, &"a").expect("the key was registered");
    assert!(evicted.is_cancelled(&scopes));
    assert_eq!(registry.get(&"b").map(|queue| queue.is_cancelled(&scopes)), Some(false));
    assert!(matches!(registry.cancelled(&scopes), Step::Pending(())));
}
