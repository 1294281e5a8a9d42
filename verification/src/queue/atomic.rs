//! The link from one segment of a chain to the next.
use vstd::prelude::*;

verus! {

/// What a link holds: nothing yet, the place of the next segment, or the
/// mark that no segment will follow.
#[derive(Debug, Clone, Copy, PartialEq, Eq, Structural)]
pub enum AtomicState {
    Empty,
    Closed,
    Holds(usize),
}

/// A link that is set at most once: from empty to a next segment, or from
/// empty to closed.
#[derive(Debug)]
pub struct AtomicArc {
    state: AtomicState,
}

impl AtomicArc {
    /// What the link holds.
    pub closed spec fn view(&self) -> AtomicState {
        self.state
    }

    /// An empty link.
    pub fn new() -> (link: Self)
        ensures
            link@ == AtomicState::Empty,
    {
        AtomicArc { state: AtomicState::Empty }
    }

    /// Get current state.
    pub fn fetch(&self) -> (state: AtomicState)
        ensures
            state == self@,
    {
        self.state
    }

    /// Initialize with given value if empty. Returns previous state.
    pub fn init(&mut self, value: usize) -> (prev: AtomicState)
        ensures
            prev == old(self)@,
            final(self)@ == if old(self)@ == AtomicState::Empty {
                AtomicState::Holds(value)
            } else {
                old(self)@
            },
    {
        let prev = self.state;
        match prev {
            AtomicState::Empty => {
                self.state = AtomicState::Holds(value);
            },
            AtomicState::Closed | AtomicState::Holds(_) => {},
        }
        prev
    }

    /// Close if empty. Returns previous state.
    pub fn close(&mut self) -> (prev: AtomicState)
        ensures
            prev == old(self)@,
            final(self)@ == if old(self)@ == AtomicState::Empty {
                AtomicState::Closed
            } else {
                old(self)@
            },
    {
        let prev = self.state;
        match prev {
            AtomicState::Empty => {
                self.state = AtomicState::Closed;
            },
            AtomicState::Closed | AtomicState::Holds(_) => {},
        }
        prev
    }
}

} // verus!
