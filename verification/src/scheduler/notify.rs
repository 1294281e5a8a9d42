//! Handles by which a parked party is woken.
use vstd::prelude::*;

verus! {

/// A handle to wake one parked party, named by a number that its host
/// gave it.
#[derive(Debug, PartialEq, Eq, Structural)]
pub struct Notify {
    kind: NotifyKind,
}

/// How a party is parked.
#[derive(Debug, PartialEq, Eq, Structural)]
enum NotifyKind {
    Sync(usize),
}

impl Notify {
    /// The party that the handle wakes.
    pub closed spec fn party(&self) -> usize {
        match self.kind {
            NotifyKind::Sync(thread) => thread,
        }
    }

    /// Uses the handle up and tells whom to wake.
    pub fn notify(self) -> (thread: usize)
        ensures
            thread == self.party(),
    {
        match self.kind {
            NotifyKind::Sync(thread) => thread,
        }
    }

    /// A handle for the party `thread`, which parks itself.
    pub fn sync(thread: usize) -> (n: Self)
        ensures
            n.party() == thread,
    {
        Notify { kind: NotifyKind::Sync(thread) }
    }
}

} // verus!
