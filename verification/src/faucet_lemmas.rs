//! What holds of every queue, over runs of operations.

use crate::faucet::FaucetState;
use crate::faucet::Step;
use std::ops::ControlFlow;
use vstd::prelude::*;

verus! {

/// Pushes are taken while they fit. Starting from a queue that is not
/// finished, as many non-blocking pushes succeed in a row as there is room
/// for, and they append the values in the order given.
pub proof fn lemma_pushes_that_fit_succeed<T>(state: FaucetState<T>, values: Seq<T>)
    requires
        state.wf(),
        !state.finished(),
        state.items.len() + values.len() <= state.capacity,
    ensures
        state.try_push_all(values) == (FaucetState { items: state.items + values, ..state }),
        state.try_push_all(values).wf(),
        forall|k: int|
            0 <= k < values.len() ==> (#[trigger] state.try_push_all(values.take(k))).try_push(
                values[k],
            ).1 == Ok::<(), T>(()),
    decreases values.len(),
{
    if values.len() == 0 {
        assert(state.items + values =~= state.items);
    } else {
        let front = values.drop_last();
        lemma_pushes_that_fit_succeed(state, front);
        assert(state.try_push_all(front).accepts());
        assert((state.items + front).push(values.last()) =~= state.items + values);
        assert forall|k: int| 0 <= k < values.len() implies (#[trigger] state.try_push_all(
            values.take(k),
        )).try_push(values[k]).1 == Ok::<(), T>(()) by {
            if k < front.len() {
                assert(values.take(k) =~= front.take(k));
            } else {
                assert(values.take(k) =~= front);
            }
        }
    }
}

/// The capacity is exact. Once pushes have filled a queue to its capacity,
/// the next non-blocking push fails: the queue is left as it is, and the value
/// comes back unchanged.
pub proof fn lemma_push_beyond_capacity_fails<T>(state: FaucetState<T>, values: Seq<T>, extra: T)
    requires
        state.wf(),
        !state.finished(),
        state.items.len() + values.len() == state.capacity,
    ensures
        state.try_push_all(values).try_push(extra) == (
            state.try_push_all(values),
            Err::<(), T>(extra),
        ),
{
    lemma_pushes_that_fit_succeed(state, values);
}

/// Pops drain from the front. After `n` pops, with `n` at most the length,
/// the first `n` values are gone and nothing else has changed.
pub proof fn lemma_pops_drain_the_front<T>(state: FaucetState<T>, n: nat)
    requires
        n <= state.items.len(),
    ensures
        state.try_pop_n(n) == (FaucetState { items: state.items.skip(n as int), ..state }),
    decreases n,
{
    if n == 0 {
        assert(state.items.skip(0) =~= state.items);
    } else {
        lemma_pops_drain_the_front(state, (n - 1) as nat);
        assert(state.items.skip(n - 1).drop_first() =~= state.items.skip(n as int));
    }
}

/// First in, first out. The pop that follows `k` earlier pops yields the value
/// at position `k` of the buffer, whether it is made without waiting or as a
/// step of a blocking pop.
pub proof fn lemma_first_in_first_out<T>(state: FaucetState<T>, k: nat)
    requires
        k < state.items.len(),
    ensures
        state.try_pop_n(k).try_pop().1 == Some(state.items[k as int]),
        state.try_pop_n(k).next().1 == Step::<Option<T>, ()>::Ready(Some(state.items[k as int])),
{
    lemma_pops_drain_the_front(state, k);
}

/// Values come out in the order in which they went in. When values are pushed
/// that all fit, the pops that follow yield first what was buffered before,
/// then the pushed values, each in its place.
pub proof fn lemma_pushed_values_come_out_in_order<T>(
    state: FaucetState<T>,
    values: Seq<T>,
    k: nat,
)
    requires
        state.wf(),
        !state.finished(),
        state.items.len() + values.len() <= state.capacity,
        k < state.items.len() + values.len(),
    ensures
        state.try_push_all(values).try_pop_n(k).try_pop().1 == Some(
            (state.items + values)[k as int],
        ),
{
    lemma_pushes_that_fit_succeed(state, values);
    lemma_first_in_first_out(state.try_push_all(values), k);
}

/// Ending a queue keeps its buffer. The length stays what it was until values
/// are popped, and the queue is finished exactly when the last buffered value
/// has been popped.
pub proof fn lemma_end_then_drain<T>(state: FaucetState<T>, n: nat)
    requires
        n <= state.items.len(),
    ensures
        state.ended().items == state.items,
        state.ended().capacity == state.capacity,
        state.ended().try_pop_n(n).items.len() == state.items.len() - n,
        state.ended().try_pop_n(n).finished() <==> n == state.items.len(),
{
    lemma_pops_drain_the_front(state.ended(), n);
}

/// Finished is terminal. On a finished queue every pop yields nothing, every
/// push is refused, and no operation changes the state.
pub proof fn lemma_finished_is_terminal<T>(state: FaucetState<T>, value: T, n: nat)
    requires
        state.finished(),
    ensures
        state.try_pop() == (state, None::<T>),
        state.next() == (state, Step::<Option<T>, ()>::Ready(None)),
        state.try_push(value) == (state, Err::<(), T>(value)),
        state.push(value) == (state, Step::<ControlFlow<(), ()>, T>::Ready(ControlFlow::Break(()))),
        state.ended() == state,
        state.try_pop_n(n) == state,
    decreases n,
{
    if n > 0 {
        lemma_finished_is_terminal(state, value, (n - 1) as nat);
    }
}

/// Ending is idempotent: to end a queue twice is to end it once.
pub proof fn lemma_end_is_idempotent<T>(state: FaucetState<T>)
    ensures
        state.ended().ended() == state.ended(),
{
}

/// Cancellation is irreversible and the capacity is fixed: no operation
/// clears the one or changes the other, and each keeps the queue well formed.
pub proof fn lemma_operations_keep_scope_and_capacity<T>(state: FaucetState<T>, value: T)
    requires
        state.wf(),
    ensures
        ({
            let after = state.try_push(value).0;
            after.wf() && after.capacity == state.capacity && after.cancelled == state.cancelled
        }),
        ({
            let after = state.try_pop().0;
            after.wf() && after.capacity == state.capacity && after.cancelled == state.cancelled
        }),
        ({
            let after = state.push(value).0;
            after.wf() && after.capacity == state.capacity && after.cancelled == state.cancelled
        }),
        ({
            let after = state.next().0;
            after.wf() && after.capacity == state.capacity && after.cancelled == state.cancelled
        }),
        ({
            let after = state.ended();
            after.wf() && after.capacity == state.capacity && after.cancelled
        }),
{
}

} // verus!
