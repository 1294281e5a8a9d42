//! What is added to the plain queue.

pub mod blocking;

pub use self::blocking::Blocking;
