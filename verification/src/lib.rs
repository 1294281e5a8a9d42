//! Channels over a ring buffer, as steps.
//!
//! A channel is a ring of slots between a sending and a receiving side.
//! Each side publishes, in a [counter](counter) that survives the wrap of
//! its word, how many slots it has finished with, and claims its next slot
//! against what the other side has published ([sequence]). [buffer] holds
//! the ring, [queue] the bounded queue on one ring and the unbounded one
//! on a chain of rings, [scheduler] the queue of parked parties, and
//! [extension] and [blocker] the blocking send and receive.
//!
//! Nothing here is shared behind the caller's back. What the endpoints of
//! a channel have in common, its buffer or its chain, is a value that
//! every operation takes as an argument, and every operation is one
//! indivisible step on it. A host that runs the steps of several parties
//! one after another, in whatever order, gets what the contracts state;
//! parking and waking are left to the host, which the blocking steps tell
//! whom to wake and when to park.

pub mod blocker;
pub mod buffer;
pub mod counter;
pub mod extension;
pub mod queue;
pub mod role;
pub mod scheduler;
pub mod sequence;
