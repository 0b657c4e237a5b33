//! The stream of join notifications: a lossy broadcast channel in which every
//! subscriber has a backlog of fixed depth.
//!
//! The channel is tokio's. What is stated here of it is a record of what the
//! library has handed to it: which keys were sent, in which order, and how
//! many had been sent when a subscription was opened. The record is true as
//! long as the sending half stays inside [`JoinStream`], which never gives it
//! out. What a subscription then yields is the channel's doing.

use tokio::sync::broadcast::Receiver;
use tokio::sync::broadcast::Sender;
use vstd::prelude::*;

verus! {

/// `tokio::sync::broadcast::Sender`, the sending half of the channel. Nothing
/// of what it holds is visible here.
#[verifier::external_type_specification]
#[verifier::external_body]
#[verifier::reject_recursive_types(T)]
pub struct ExSender<T>(Sender<T>);

/// `tokio::sync::broadcast::Receiver`, one subscription. Nothing of what it
/// holds is visible here.
#[verifier::external_type_specification]
#[verifier::external_body]
#[verifier::reject_recursive_types(T)]
pub struct ExReceiver<T>(Receiver<T>);

/// The sending half of the join stream, with the record of what was sent.
#[verifier::reject_recursive_types(Id)]
pub struct JoinStream<Id> {
    sender: Sender<Id>,
    sent: Ghost<Seq<Id>>,
    depth: Ghost<nat>,
}

impl<Id> JoinStream<Id> {
    /// The keys sent so far, oldest first.
    pub closed spec fn sent(&self) -> Seq<Id> {
        self.sent@
    }

    /// The backlog that the channel keeps for each subscriber.
    pub closed spec fn depth(&self) -> nat {
        self.depth@
    }
}

/// One subscription to the join stream.
#[verifier::reject_recursive_types(Id)]
pub struct Subscription<Id> {
    receiver: Receiver<Id>,
    since: Ghost<nat>,
}

impl<Id> Subscription<Id> {
    /// How many keys had been sent when the subscription was opened. It
    /// yields none of them: its first key is the one sent next.
    pub closed spec fn since(&self) -> nat {
        self.since@
    }

    /// The channel's receiver that this subscription holds.
    pub closed spec fn receiver(&self) -> Receiver<Id> {
        self.receiver
    }

    /// Hands out the channel's receiver, to take the keys from.
    pub fn into_receiver(self) -> (receiver: Receiver<Id>)
        ensures
            receiver == self.receiver(),
    {
        self.receiver
    }
}

/// `tokio::sync::broadcast::channel`, keeping the sending half only.
///
/// Claimed: the new channel has the depth asked for, and nothing was sent on
/// it. The bounds on `depth` are those outside which the call panics.
#[verifier::external_body]
pub(crate) fn open<Id: Clone>(depth: usize) -> (stream: JoinStream<Id>)
    requires
        0 < depth <= usize::MAX / 2,
    ensures
        stream.sent() == Seq::<Id>::empty(),
        stream.depth() == depth,
{
    let (sender, _) = tokio::sync::broadcast::channel(depth);
    JoinStream { sender, sent: Ghost(Seq::empty()), depth: Ghost(depth as nat) }
}

/// `tokio::sync::broadcast::Sender::send`, its answer dropped: with no
/// subscriber the value is lost, which is no error here.
///
/// Claimed: `id` is the next key sent on this channel, whose depth stays.
/// Nothing is claimed of what subscribers see.
#[verifier::external_body]
pub(crate) fn announce<Id>(stream: &mut JoinStream<Id>, id: Id)
    ensures
        final(stream).sent() == old(stream).sent().push(id),
        final(stream).depth() == old(stream).depth(),
{
    let _ = stream.sender.send(id);
}

/// `tokio::sync::broadcast::Sender::subscribe`.
///
/// Claimed: the subscription was opened on this channel after the keys sent
/// so far. The call panics only when `usize::MAX >> 2` subscriptions are alive
/// at once, which is more than memory holds.
#[verifier::external_body]
pub(crate) fn subscribe<Id>(stream: &JoinStream<Id>) -> (subscription: Subscription<Id>)
    ensures
        subscription.since() == stream.sent().len(),
{
    Subscription { receiver: stream.sender.subscribe(), since: Ghost(stream.sent@.len()) }
}

} // verus!
