use faucet::CancellationTree;
use faucet::Faucet;
use faucet::Step;
use std::ops::ControlFlow;

fn ready<T>(step: Step<Option<T>, ()>) -> Option<T> {
    match step {
        Step::Ready(value) => value,
        Step::Pending(()) => panic!("the pop would wait"),
    }
}

#[test]
fn capacity_two_scenario() {
    let mut scopes = CancellationTree::new();
    let mut queue: Faucet<i32> = Faucet::new(2, &mut scopes);
    assert_eq!(queue.try_push(&scopes, 1), Ok(()));
    assert_eq!(queue.try_push(&scopes, 2), Ok(()));
    assert_eq!(queue.try_push(&scopes, 3), Err(3));
    assert_eq!(ready(queue.next(&scopes)), Some(1));
    assert_eq!(ready(queue.next(&scopes)), Some(2));
    assert_eq!(queue.try_pop(), None);
}

#[test]
fn new_queue_is_empty_and_active() {
    let mut scopes = CancellationTree::new();
    let queue: Faucet<u8> = Faucet::new(5, &mut scopes);
    assert_eq!(queue.capacity(), 5);
    assert_eq!(queue.len(), 0);
    assert!(queue.is_empty());
    assert!(!queue.is_cancelled(&scopes));
    assert!(!queue.is_finished(&scopes));
    assert!(queue.is_pending(&scopes));
    assert!(matches!(queue.cancelled(&scopes), Step::Pending(())));
}

#[test]
fn pushes_succeed_up_to_capacity_then_fail() {
    let mut scopes = CancellationTree::new();
    for capacity in 1..6usize {
        let mut queue: Faucet<usize> = Faucet::new(capacity, &mut scopes);
        for value in 0..capacity {
            assert_eq!(queue.try_push(&scopes, value), Ok(()));
            assert_eq!(queue.len(), value + 1);
        }
        assert_eq!(queue.try_push(&scopes, 99), Err(99));
        assert_eq!(queue.len(), capacity);
        assert_eq!(queue.capacity(), capacity);
    }
}

#[test]
fn rejected_value_comes_back_unchanged() {
    let mut scopes = CancellationTree::new();
    let mut queue: Faucet<String> = Faucet::new(1, &mut scopes);
    assert_eq!(queue.try_push(&scopes, String::from("kept")), Ok(()));
    assert_eq!(queue.try_push(&scopes, String::from("sent back")), Err(String::from("sent back")));
    assert_eq!(queue.try_pop(), Some(String::from("kept")));
}

#[test]
fn end_keeps_the_buffer_until_drained() {
    let mut scopes = CancellationTree::new();
    let mut queue: Faucet<u32> = Faucet::new(4, &mut scopes);
    for value in [10, 20, 30] {
        assert_eq!(queue.try_push(&scopes, value), Ok(()));
    }
    queue.end(&mut scopes);
    assert!(queue.is_cancelled(&scopes));
    assert_eq!(queue.len(), 3);
    assert!(!queue.is_finished(&scopes));
    assert_eq!(queue.try_pop(), Some(10));
    assert_eq!(queue.len(), 2);
    assert!(!queue.is_finished(&scopes));
    assert_eq!(queue.try_pop(), Some(20));
    assert!(!queue.is_finished(&scopes));
    assert!(queue.is_pending(&scopes));
    assert_eq!(queue.try_pop(), Some(30));
    assert_eq!(queue.len(), 0);
    assert!(queue.is_finished(&scopes));
    assert!(!queue.is_pending(&scopes));
}

#[test]
fn end_is_idempotent() {
    let mut scopes = CancellationTree::new();
    let mut queue: Faucet<u32> = Faucet::new(2, &mut scopes);
    assert_eq!(queue.try_push(&scopes, 1), Ok(()));
    queue.end(&mut scopes);
    queue.end(&mut scopes);
    assert!(queue.is_cancelled(&scopes));
    assert_eq!(queue.len(), 1);
    assert_eq!(queue.try_pop(), Some(1));
    assert!(queue.is_finished(&scopes));
}

#[test]
fn values_come_out_in_the_order_they_went_in() {
    let mut scopes = CancellationTree::new();
    let mut queue: Faucet<u32> = Faucet::new(8, &mut scopes);
    for value in [5, 3, 9, 1] {
        assert_eq!(queue.try_push(&scopes, value), Ok(()));
    }
    assert_eq!(queue.try_pop(), Some(5));
    assert_eq!(ready(queue.next(&scopes)), Some(3));
    assert_eq!(queue.try_push(&scopes, 7), Ok(()));
    assert_eq!(queue.try_pop(), Some(9));
    assert_eq!(ready(queue.next(&scopes)), Some(1));
    assert_eq!(queue.try_pop(), Some(7));
    assert_eq!(queue.try_pop(), None);
}

#[test]
fn a_drained_cancelled_queue_yields_nothing_ever_after() {
    let mut scopes = CancellationTree::new();
    let mut queue: Faucet<u32> = Faucet::new(2, &mut scopes);
    assert_eq!(queue.try_push(&scopes, 1), Ok(()));
    queue.end(&mut scopes);
    assert_eq!(ready(queue.next(&scopes)), Some(1));
    for _ in 0..4 {
        assert_eq!(queue.try_pop(), None);
        assert_eq!(ready(queue.next(&scopes)), None);
        assert!(queue.is_finished(&scopes));
    }
}

#[test]
fn finished_queue_refuses_pushes() {
    let mut scopes = CancellationTree::new();
    let mut queue: Faucet<u32> = Faucet::new(2, &mut scopes);
    queue.end(&mut scopes);
    assert!(queue.is_finished(&scopes));
    assert_eq!(queue.try_push(&scopes, 1), Err(1));
    assert!(matches!(queue.push(&scopes, 2), Step::Ready(ControlFlow::Break(()))));
    assert_eq!(queue.len(), 0);
    assert!(queue.is_finished(&scopes));
}

#[test]
fn try_push_still_succeeds_while_draining() {
    let mut scopes = CancellationTree::new();
    let mut queue: Faucet<u32> = Faucet::new(3, &mut scopes);
    assert_eq!(queue.try_push(&scopes, 1), Ok(()));
    queue.end(&mut scopes);
    assert_eq!(queue.try_push(&scopes, 2), Ok(()));
    assert_eq!(queue.len(), 2);
    assert_eq!(queue.try_push(&scopes, 3), Ok(()));
    assert_eq!(queue.try_push(&scopes, 4), Err(4));
    assert_eq!(queue.try_pop(), Some(1));
    assert_eq!(queue.try_pop(), Some(2));
    assert_eq!(queue.try_pop(), Some(3));
    assert_eq!(queue.try_push(&scopes, 5), Err(5));
}

#[test]
fn blocking_push_prefers_cancellation_over_room() {
    let mut scopes = CancellationTree::new();
    let mut queue: Faucet<u32> = Faucet::new(3, &mut scopes);
    assert!(matches!(queue.push(&scopes, 1), Step::Ready(ControlFlow::Continue(()))));
    queue.end(&mut scopes);
    assert!(matches!(queue.push(&scopes, 2), Step::Ready(ControlFlow::Break(()))));
    assert_eq!(queue.len(), 1);
    assert_eq!(queue.try_pop(), Some(1));
}

#[test]
fn blocking_push_waits_while_full_and_hands_the_value_back() {
    let mut scopes = CancellationTree::new();
    let mut queue: Faucet<u32> = Faucet::new(1, &mut scopes);
    assert!(matches!(queue.push(&scopes, 1), Step::Ready(ControlFlow::Continue(()))));
    match queue.push(&scopes, 2) {
        Step::Pending(value) => assert_eq!(value, 2),
        Step::Ready(_) => panic!("a full queue took a value"),
    }
    assert_eq!(queue.len(), 1);
    assert_eq!(queue.try_pop(), Some(1));
    assert!(matches!(queue.push(&scopes, 2), Step::Ready(ControlFlow::Continue(()))));
    assert_eq!(queue.try_pop(), Some(2));
}

#[test]
fn blocking_pop_waits_only_while_empty_and_active() {
    let mut scopes = CancellationTree::new();
    let mut queue: Faucet<u32> = Faucet::new(1, &mut scopes);
    assert!(matches!(queue.next(&scopes), Step::Pending(())));
    assert_eq!(queue.try_push(&scopes, 4), Ok(()));
    assert!(matches!(queue.next(&scopes), Step::Ready(Some(4))));
    assert!(matches!(queue.next(&scopes), Step::Pending(())));
    queue.end(&mut scopes);
    assert!(matches!(queue.next(&scopes), Step::Ready(None)));
}

#[test]
fn cancelled_is_ready_once_ended() {
    let mut scopes = CancellationTree::new();
    let mut queue: Faucet<u32> = Faucet::new(1, &mut scopes);
    assert!(matches!(queue.cancelled(&scopes), Step::Pending(())));
    queue.end(&mut scopes);
    assert!(matches!(queue.cancelled(&scopes), Step::Ready(())));
    assert!(matches!(queue.cancelled(&scopes), Step::Ready(())));
}

#[test]
fn queue_under_a_cancelled_scope_is_born_finished() {
    let mut scopes = CancellationTree::new();
    let scope = scopes.root();
    scopes.cancel(scope);
    let mut queue: Faucet<u32> = Faucet::new_with_cancellation(2, scope);
    assert!(queue.is_cancelled(&scopes));
    assert!(queue.is_finished(&scopes));
    assert_eq!(queue.try_push(&scopes, 1), Err(1));
    assert_eq!(queue.try_pop(), None);
}

#[test]
fn queue_under_a_live_scope_is_active() {
    let mut scopes = CancellationTree::new();
    let scope = scopes.root();
    let queue: Faucet<u32> = Faucet::new_with_cancellation(2, scope);
    assert!(!queue.is_cancelled(&scopes));
    assert!(queue.is_pending(&scopes));
    assert_eq!(queue.capacity(), 2);
}

#[test]
fn cancelling_the_scope_handed_in_cancels_the_queue() {
    let mut scopes = CancellationTree::new();
    let scope = scopes.root();
    let mut queue: Faucet<u32> = Faucet::new_with_cancellation(2, scope);
    assert_eq!(queue.try_push(&scopes, 1), Ok(()));
    assert!(!queue.is_cancelled(&scopes));
    scopes.cancel(scope);
    assert!(queue.is_cancelled(&scopes));
    assert!(matches!(queue.cancelled(&scopes), Step::Ready(())));
    assert!(matches!(queue.push(&scopes, 2), Step::Ready(ControlFlow::Break(()))));
    assert!(matches!(queue.next(&scopes), Step::Ready(Some(1))));
    assert!(queue.is_finished(&scopes));
}

#[test]
fn cancelling_an_ancestor_cancels_a_queue_made_earlier() {
    let mut scopes = CancellationTree::new();
    let root = scopes.root();
    let parent = scopes.child(root);
    let scope = scopes.child(parent);
    let queue: Faucet<u32> = Faucet::new_with_cancellation(2, scope);
    let other: Faucet<u32> = Faucet::new(2, &mut scopes);
    assert!(!queue.is_cancelled(&scopes));
    scopes.cancel(root);
    assert!(queue.is_cancelled(&scopes));
    assert!(queue.is_finished(&scopes));
    assert!(!other.is_cancelled(&scopes));
}

#[test]
fn ending_a_queue_does_not_cancel_its_parent_or_siblings() {
    let mut scopes = CancellationTree::new();
    let root = scopes.root();
    let left: Faucet<u32> = Faucet::new_with_cancellation(1, scopes.child(root));
    let right: Faucet<u32> = Faucet::new_with_cancellation(1, scopes.child(root));
    left.end(&mut scopes);
    assert!(left.is_cancelled(&scopes));
    assert!(!right.is_cancelled(&scopes));
    assert!(!scopes.is_cancelled(root));
}

#[test]
fn child_scope_takes_the_state_of_its_parent() {
    let mut scopes = CancellationTree::new();
    let parent = scopes.root();
    assert!(!scopes.is_cancelled(parent));
    let early = scopes.child(parent);
    assert!(!scopes.is_cancelled(early));
    scopes.cancel(parent);
    assert!(scopes.is_cancelled(parent));
    assert!(scopes.is_cancelled(early));
    let late = scopes.child(parent);
    assert!(scopes.is_cancelled(late));
    let later = scopes.child(late);
    assert!(scopes.is_cancelled(later));
    scopes.cancel(parent);
    assert!(scopes.is_cancelled(parent));
}
