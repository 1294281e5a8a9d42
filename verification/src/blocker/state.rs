//! The state that the parties of a blocking channel share.
use vstd::prelude::*;

verus! {

/// Who is parked, or being woken. `Locked` is held only while a party
/// puts itself on a list.
#[derive(Debug, PartialEq, Eq, Clone, Copy, Structural)]
pub enum State {
    Neutral,
    Locked,
    BlockSender,
    BlockReceiver,
    WakeSender,
    WakeReceiver,
}

/// A cell that holds a state and changes it by comparing and swapping.
#[derive(Debug)]
pub struct AtomicState {
    inner: State,
}

impl AtomicState {
    /// The state that the cell holds.
    pub closed spec fn view(&self) -> State {
        self.inner
    }

    /// A cell in the neutral state.
    pub fn new() -> (cell: Self)
        ensures
            cell@ == State::Neutral,
    {
        AtomicState { inner: State::Neutral }
    }

    /// Changes the state to `next` if it is `cond`, and gives the state
    /// that it was.
    pub fn transit(&mut self, cond: State, next: State) -> (prev: State)
        ensures
            prev == old(self)@,
            final(self)@ == if old(self)@ == cond {
                next
            } else {
                old(self)@
            },
    {
        let prev = self.inner;
        if prev == cond {
            self.inner = next;
        }
        prev
    }
}

} // verus!
