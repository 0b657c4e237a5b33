//! A bounded, cancellable delivery queue and a keyed registry that fans values
//! out to one such queue per key.
//!
//! * [`CancellationTree`] holds the cancellation scopes: a tree of
//!   irreversible flags, in which cancelling a scope cancels every scope below
//!   it. A [`Scope`] is a handle to one of its nodes.
//! * [`Faucet`] is the queue: a FIFO of fixed capacity under a scope.
//!   Cancelling the scope lets what is buffered drain, and after that the
//!   queue is finished for good.
//! * [`Broadcast`] is the registry: at most one queue per key, made on first
//!   request and announced on a stream of join notifications. Its scope is the
//!   parent of the scopes of its queues. Delivery never waits: a queue that
//!   does not take a value is evicted, and the evicted queue is handed to the
//!   caller.
//!
//! Every operation is a step on state that its caller owns. Where an operation
//! would have to wait, it reports [`Step::Pending`] and leaves the state as it
//! was, so that a scheduler can park the caller and try again.
//!
//! [`TreeState`], [`FaucetState`] and [`BroadcastState`] say what a tree, a
//! queue and a registry are as mathematical values, and every contract is
//! stated over them. The modules [`faucet_lemmas`] and [`broadcast_lemmas`]
//! prove what holds over runs of operations.

pub mod broadcast;
pub mod broadcast_lemmas;
mod buffer;
pub mod faucet;
pub mod faucet_lemmas;
mod join_stream;
pub mod key;
mod registration;
pub mod scope;

pub use broadcast::Broadcast;
pub use broadcast::BroadcastState;
pub use faucet::Faucet;
pub use faucet::FaucetState;
pub use faucet::Step;
pub use join_stream::Subscription;
pub use key::obeys_key_equality;
pub use scope::CancellationTree;
pub use scope::Scope;
pub use scope::TreeState;
