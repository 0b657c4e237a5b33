//! The bounded buffer of a queue: deadqueue's limited queue, used without
//! waiting.
//!
//! What is stated here of it is a record of what the library has put in and
//! taken out. The record is true as long as the queue stays inside
//! [`Buffer`], which never gives it out: nobody else pushes or pops, and
//! nobody waits on it.

use deadqueue::limited::Queue;
use vstd::prelude::*;

verus! {

/// `deadqueue::limited::Queue`. Nothing of what it holds is visible here.
#[verifier::external_type_specification]
#[verifier::external_body]
#[verifier::reject_recursive_types(T)]
pub struct ExQueue<T>(Queue<T>);

/// A bounded FIFO buffer, with the record of what it holds.
#[verifier::reject_recursive_types(T)]
pub struct Buffer<T> {
    queue: Queue<T>,
    items: Ghost<Seq<T>>,
    limit: Ghost<nat>,
}

impl<T> Buffer<T> {
    /// The buffered values, oldest first.
    pub closed spec fn items(&self) -> Seq<T> {
        self.items@
    }

    /// The capacity that the buffer was made with.
    pub closed spec fn limit(&self) -> nat {
        self.limit@
    }
}

/// `deadqueue::limited::Queue::new`.
///
/// Claimed: the new buffer is empty and has the capacity asked for. The
/// bounds on `max_len` are those outside which the call panics: zero is
/// refused by the array behind the queue, and more than `usize::MAX >> 3` by
/// the semaphores that count its free and its filled slots.
#[verifier::external_body]
pub(crate) fn open<T>(max_len: usize) -> (buffer: Buffer<T>)
    requires
        0 < max_len <= usize::MAX / 8,
    ensures
        buffer.items() == Seq::<T>::empty(),
        buffer.limit() == max_len,
{
    Buffer { queue: Queue::new(max_len), items: Ghost(Seq::empty()), limit: Ghost(max_len as nat) }
}

/// `deadqueue::limited::Queue::try_push`.
///
/// Claimed: while there is room the item goes to the back; in a full buffer
/// nothing changes and the item comes back.
#[verifier::external_body]
pub(crate) fn try_push<T>(buffer: &mut Buffer<T>, item: T) -> (pushed: Result<(), T>)
    ensures
        (pushed, final(buffer).items(), final(buffer).limit()) == (if old(buffer).items().len()
            < old(buffer).limit() {
            (Ok::<(), T>(()), old(buffer).items().push(item), old(buffer).limit())
        } else {
            (Err::<(), T>(item), old(buffer).items(), old(buffer).limit())
        }),
{
    buffer.queue.try_push(item)
}

/// `deadqueue::limited::Queue::try_pop`.
///
/// Claimed: the oldest item leaves and is returned; from an empty buffer
/// nothing is.
#[verifier::external_body]
pub(crate) fn try_pop<T>(buffer: &mut Buffer<T>) -> (popped: Option<T>)
    ensures
        (popped, final(buffer).items(), final(buffer).limit()) == (if old(buffer).items().len()
            > 0 {
            (Some(old(buffer).items()[0]), old(buffer).items().drop_first(), old(buffer).limit())
        } else {
            (None::<T>, old(buffer).items(), old(buffer).limit())
        }),
{
    buffer.queue.try_pop()
}

/// `deadqueue::limited::Queue::len`.
///
/// Claimed: the number of buffered items, which is never above the capacity.
#[verifier::external_body]
pub(crate) fn len<T>(buffer: &Buffer<T>) -> (len: usize)
    ensures
        len == buffer.items().len(),
        len <= buffer.limit(),
{
    buffer.queue.len()
}

/// `deadqueue::limited::Queue::capacity`.
///
/// Claimed: the capacity that the buffer was made with.
#[verifier::external_body]
pub(crate) fn capacity<T>(buffer: &Buffer<T>) -> (capacity: usize)
    ensures
        capacity == buffer.limit(),
{
    buffer.queue.capacity()
}

} // verus!
