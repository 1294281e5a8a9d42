//! Channels: the head that the endpoints share, the halves that work on
//! it, and the bounded and unbounded queues built from them.

pub mod atomic;
pub mod bounded;
pub mod chain;
pub mod half;
pub mod head;
pub mod unbounded;
