//! The cancellable bounded queue.

use crate::buffer;
use crate::buffer::Buffer;
use crate::scope::CancellationTree;
use crate::scope::Scope;
use crate::scope::TreeState;
use std::ops::ControlFlow;
use vstd::prelude::*;

verus! {

/// What a queue is, as a mathematical value: the buffered values, oldest
/// first, the fixed capacity, and whether the queue's scope is cancelled.
pub struct FaucetState<T> {
    pub items: Seq<T>,
    pub capacity: nat,
    pub cancelled: bool,
}

impl<T> FaucetState<T> {
    /// `0 < capacity` and `length <= capacity`.
    pub open spec fn wf(self) -> bool {
        0 < self.capacity && self.items.len() <= self.capacity
    }

    /// The state of a queue that was just made.
    pub open spec fn fresh(capacity: nat, cancelled: bool) -> Self {
        FaucetState { items: Seq::empty(), capacity, cancelled }
    }

    /// No room is left.
    pub open spec fn full(self) -> bool {
        self.items.len() >= self.capacity
    }

    /// Cancelled and drained: the terminal state.
    pub open spec fn finished(self) -> bool {
        self.items.len() == 0 && self.cancelled
    }

    /// A non-blocking push is taken: there is room, and the queue is not
    /// finished. Cancellation alone does not refuse it.
    pub open spec fn accepts(self) -> bool {
        !self.full() && !self.finished()
    }

    /// With its scope cancelled, and its buffer as it is.
    pub open spec fn ended(self) -> Self {
        FaucetState { cancelled: true, ..self }
    }

    /// With `value` added at the back.
    pub open spec fn pushed(self, value: T) -> Self {
        FaucetState { items: self.items.push(value), ..self }
    }

    /// Without its oldest value.
    pub open spec fn popped(self) -> Self {
        FaucetState { items: self.items.drop_first(), ..self }
    }

    /// A non-blocking push: the state after it, and its answer.
    pub open spec fn try_push(self, value: T) -> (Self, Result<(), T>) {
        if self.accepts() {
            (self.pushed(value), Ok(()))
        } else {
            (self, Err(value))
        }
    }

    /// A non-blocking pop: the state after it, and its answer.
    pub open spec fn try_pop(self) -> (Self, Option<T>) {
        if self.items.len() > 0 {
            (self.popped(), Some(self.items[0]))
        } else {
            (self, None)
        }
    }

    /// One step of a blocking push. Cancellation is decided first.
    pub open spec fn push(self, value: T) -> (Self, Step<ControlFlow<(), ()>, T>) {
        if self.cancelled {
            (self, Step::Ready(ControlFlow::Break(())))
        } else if self.full() {
            (self, Step::Pending(value))
        } else {
            (self.pushed(value), Step::Ready(ControlFlow::Continue(())))
        }
    }

    /// One step of a blocking pop. It waits only while the queue is empty and
    /// not cancelled.
    pub open spec fn next(self) -> (Self, Step<Option<T>, ()>) {
        if self.items.len() == 0 && !self.cancelled {
            (self, Step::Pending(()))
        } else {
            (self.try_pop().0, Step::Ready(self.try_pop().1))
        }
    }
}

impl<T> FaucetState<T> {
    /// The state after one non-blocking push of each value, in order.
    pub open spec fn try_push_all(self, values: Seq<T>) -> Self
        decreases values.len(),
    {
        if values.len() == 0 {
            self
        } else {
            self.try_push_all(values.drop_last()).try_push(values.last()).0
        }
    }

    /// The state after `n` non-blocking pops.
    pub open spec fn try_pop_n(self, n: nat) -> Self
        decreases n,
    {
        if n == 0 {
            self
        } else {
            self.try_pop_n((n - 1) as nat).try_pop().0
        }
    }
}

impl<T: Clone> FaucetState<T> {
    /// `after` is this queue with one clone of `value` added at the back.
    pub open spec fn receives(self, value: T, after: Self) -> bool {
        &&& after.items.len() > 0
        &&& cloned(value, after.items.last())
        &&& after == self.pushed(after.items.last())
    }
}

/// The outcome of an operation that may have to wait.
#[derive(Debug)]
pub enum Step<V, W> {
    /// The operation is complete, with this result.
    Ready(V),
    /// Nothing was done. The caller waits for the queue to change and tries
    /// again with what is handed back.
    Pending(W),
}

/// A fixed-capacity FIFO of values under a cancellation scope.
///
/// The queue holds a node of a [`CancellationTree`] and reads its flag from
/// the tree, so that it is cancelled as soon as its scope or a scope above it
/// is. It is *active* until then, *draining* while values are buffered, and
/// *finished* for good after that. Throughout, the length is at most the
/// capacity.
#[verifier::reject_recursive_types(T)]
pub struct Faucet<T> {
    buffer: Buffer<T>,
    completion: Scope,
}

impl<T> Faucet<T> {
    /// The buffered values, oldest first.
    pub closed spec fn items(&self) -> Seq<T> {
        self.buffer.items()
    }

    /// The capacity.
    pub closed spec fn limit(&self) -> nat {
        self.buffer.limit()
    }

    /// The queue's scope.
    pub closed spec fn scope(&self) -> Scope {
        self.completion
    }

    /// What the queue is while the tree of scopes is `scopes`.
    pub open spec fn state(&self, scopes: TreeState) -> FaucetState<T> {
        FaucetState {
            items: self.items(),
            capacity: self.limit(),
            cancelled: scopes.cancelled[self.scope().node()],
        }
    }

    /// Creates a queue with a maximum length and a root scope of its own,
    /// which is added to `scopes`.
    ///
    /// A queue of capacity zero is not a queue: `max_len` has to be positive.
    /// It can be at most `usize::MAX / 8`, the most that the buffer counts.
    #[must_use]
    pub fn new(max_len: usize, scopes: &mut CancellationTree) -> (faucet: Self)
        requires
            0 < max_len <= usize::MAX / 8,
            old(scopes)@.wf(),
        ensures
            final(scopes)@ == old(scopes)@.with_root(),
            final(scopes)@.wf(),
            faucet.scope().node() == old(scopes)@.parents.len(),
            faucet.state(final(scopes)@) == FaucetState::<T>::fresh(max_len as nat, false),
    {
        let completion = scopes.root();
        Faucet { buffer: buffer::open(max_len), completion }
    }

    /// Creates a queue with a maximum length under the given scope, which
    /// becomes the queue's own: the queue is cancelled whenever that scope is.
    #[must_use]
    pub fn new_with_cancellation(max_len: usize, cancellation: Scope) -> (faucet: Self)
        requires
            0 < max_len <= usize::MAX / 8,
        ensures
            faucet.scope() == cancellation,
            faucet.items() == Seq::<T>::empty(),
            faucet.limit() == max_len,
    {
        Faucet { buffer: buffer::open(max_len), completion: cancellation }
    }

    /// The queue's scope.
    pub fn cancellation(&self) -> (scope: Scope)
        ensures
            scope == self.scope(),
    {
        self.completion
    }

    /// The maximum length, fixed when the queue was made.
    pub fn capacity(&self) -> (capacity: usize)
        ensures
            capacity == self.limit(),
    {
        buffer::capacity(&self.buffer)
    }

    /// The number of buffered values.
    pub fn len(&self) -> (len: usize)
        ensures
            len == self.items().len(),
            len <= self.limit(),
    {
        buffer::len(&self.buffer)
    }

    /// Whether no value is buffered.
    pub fn is_empty(&self) -> (empty: bool)
        ensures
            empty == (self.items().len() == 0),
    {
        buffer::len(&self.buffer) == 0
    }

    /// Cancels the queue's scope, and with it every scope below. Values
    /// already buffered stay, to be drained.
    pub fn end(&self, scopes: &mut CancellationTree)
        requires
            old(scopes)@.wf(),
            old(scopes)@.contains(self.scope().node()),
        ensures
            final(scopes)@ == old(scopes)@.cancel(self.scope().node()),
            final(scopes)@.wf(),
            self.state(final(scopes)@) == self.state(old(scopes)@).ended(),
    {
        scopes.cancel(self.completion);
    }

    /// True once the queue is cancelled and has no value left to drain.
    #[must_use]
    pub fn is_finished(&self, scopes: &CancellationTree) -> (finished: bool)
        requires
            scopes@.contains(self.scope().node()),
        ensures
            finished == self.state(scopes@).finished(),
    {
        buffer::len(&self.buffer) == 0 && scopes.is_cancelled(self.completion)
    }

    /// True while the queue accepts values, or is cancelled and not yet drained.
    #[must_use]
    pub fn is_pending(&self, scopes: &CancellationTree) -> (pending: bool)
        requires
            scopes@.contains(self.scope().node()),
        ensures
            pending == !self.state(scopes@).finished(),
    {
        !self.is_finished(scopes)
    }

    /// Whether the queue's scope is cancelled, by itself or from above. A
    /// cancelled queue still holds what was buffered, and still takes
    /// non-blocking pushes while it does.
    #[must_use]
    pub fn is_cancelled(&self, scopes: &CancellationTree) -> (cancelled: bool)
        requires
            scopes@.contains(self.scope().node()),
        ensures
            cancelled == self.state(scopes@).cancelled,
    {
        scopes.is_cancelled(self.completion)
    }

    /// Pushes without waiting. The value comes back when the queue is full or
    /// finished.
    pub fn try_push(&mut self, scopes: &CancellationTree, value: T) -> (r: Result<(), T>)
        requires
            scopes@.contains(old(self).scope().node()),
        ensures
            (final(self).state(scopes@), r) == old(self).state(scopes@).try_push(value),
            final(self).scope() == old(self).scope(),
            old(self).state(scopes@).wf() ==> final(self).state(scopes@).wf(),
    {
        if !self.is_pending(scopes) {
            return Err(value);
        }
        buffer::try_push(&mut self.buffer, value)
    }

    /// Pops without waiting, whatever the scope's state. `None` when the
    /// queue is empty.
    #[must_use]
    pub fn try_pop(&mut self) -> (r: Option<T>)
        ensures
            forall|scopes: TreeState|
                #![trigger final(self).state(scopes)]
                #![trigger old(self).state(scopes)]
                (final(self).state(scopes), r) == old(self).state(scopes).try_pop(),
            final(self).scope() == old(self).scope(),
    {
        buffer::try_pop(&mut self.buffer)
    }

    /// One step of waiting for cancellation: ready exactly when the scope is
    /// cancelled.
    pub fn cancelled(&self, scopes: &CancellationTree) -> (step: Step<(), ()>)
        requires
            scopes@.contains(self.scope().node()),
        ensures
            step == (if self.state(scopes@).cancelled {
                Step::<(), ()>::Ready(())
            } else {
                Step::<(), ()>::Pending(())
            }),
    {
        if scopes.is_cancelled(self.completion) {
            Step::Ready(())
        } else {
            Step::Pending(())
        }
    }

    /// One step of a blocking push.
    ///
    /// A cancelled queue takes no blocking push: the value is dropped and the
    /// answer is `Break`, whether or not there is room. Cancellation wins over
    /// free space. Otherwise the value is buffered (`Continue`) when there is
    /// room, and handed back in `Pending` when the queue is full.
    pub fn push(&mut self, scopes: &CancellationTree, value: T) -> (step: Step<
        ControlFlow<(), ()>,
        T,
    >)
        requires
            scopes@.contains(old(self).scope().node()),
        ensures
            (final(self).state(scopes@), step) == old(self).state(scopes@).push(value),
            final(self).scope() == old(self).scope(),
            old(self).state(scopes@).wf() ==> final(self).state(scopes@).wf(),
    {
        if scopes.is_cancelled(self.completion) {
            return Step::Ready(ControlFlow::Break(()));
        }
        match buffer::try_push(&mut self.buffer, value) {
            Ok(()) => Step::Ready(ControlFlow::Continue(())),
            Err(back) => Step::Pending(back),
        }
    }

    /// One step of a blocking pop.
    ///
    /// Cancellation is looked at first: a cancelled queue never waits, it
    /// yields its oldest value or, once drained, `None`. A queue that is not
    /// cancelled yields its oldest value, or is `Pending` while empty.
    pub fn next(&mut self, scopes: &CancellationTree) -> (step: Step<Option<T>, ()>)
        requires
            scopes@.contains(old(self).scope().node()),
        ensures
            (final(self).state(scopes@), step) == old(self).state(scopes@).next(),
            final(self).scope() == old(self).scope(),
            old(self).state(scopes@).wf() ==> final(self).state(scopes@).wf(),
    {
        if scopes.is_cancelled(self.completion) {
            return Step::Ready(self.try_pop());
        }
        match self.try_pop() {
            Some(value) => Step::Ready(Some(value)),
            None => Step::Pending(()),
        }
    }
}

} // verus!
