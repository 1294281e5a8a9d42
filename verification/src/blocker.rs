//! Blocking by a shared state and two lists of parked parties.

pub mod state;
pub mod sync;
