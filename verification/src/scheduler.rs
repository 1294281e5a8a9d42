//! Parking and waking: each endpoint's hold on the queue of parked
//! parties.
use vstd::prelude::*;

use crate::role::Role;

pub mod atomic;
pub mod notify;
pub mod queue;

pub use self::notify::Notify;
pub use self::queue::{NodeBox, Queue, Waiter};

verus! {

/// Scheduler for pause/resume executions.
///
/// Each endpoint has one, with one node of its own: parking allocates
/// nothing.
#[derive(Debug)]
pub struct Scheduler {
    node: Option<NodeBox>,
}

impl Scheduler {
    /// Whether the scheduler has its node, and so can register.
    pub closed spec fn is_restored(&self) -> bool {
        self.node is Some
    }

    /// A scheduler with its node.
    pub fn new() -> (s: Self)
        ensures
            s.is_restored(),
    {
        Scheduler { node: Some(NodeBox::new()) }
    }

    /// Parks the endpoint, of role `R`, in `queue` under the handle
    /// `notify`, and tells whether it is parked. It is not where parties
    /// of the other role are parked: then nothing changes.
    pub fn register<R: Role>(&mut self, queue: &mut Queue, notify: Notify) -> (parked: bool)
        requires
            old(self).is_restored(),
            old(queue).wf(),
        ensures
            final(queue).wf(),
            parked <==> !(old(queue)@.len() > 0 && old(queue)@.last().role != R::kind_of()),
            parked ==> !final(self).is_restored() && final(queue)@ == old(queue)@.push(
                Waiter { role: R::kind_of(), notify },
            ),
            !parked ==> final(self).is_restored() && final(queue)@ == old(queue)@,
    {
        let node = match self.node.take() {
            Some(node) => node,
            None => NodeBox::new(),
        };
        match queue.push(R::kind(), notify, node) {
            Ok(()) => true,
            Err(node) => {
                self.node = Some(node);
                false
            },
        }
    }

    /// Gives the scheduler a node again, after the endpoint was woken.
    pub fn restore(&mut self)
        requires
            !old(self).is_restored(),
        ensures
            final(self).is_restored(),
    {
        self.node = Some(NodeBox::new());
    }

    /// Takes the party of the other role than `R` that parked first, if
    /// there is one, and gives the handle that wakes it.
    pub fn pop_blocked<R: Role>(&self, queue: &mut Queue) -> (woken: Option<Notify>)
        requires
            old(queue).wf(),
        ensures
            final(queue).wf(),
            woken is Some <==> old(queue)@.len() > 0 && old(queue)@[0].role
                == R::kind_of().other(),
            woken is None ==> final(queue)@ == old(queue)@,
            woken matches Some(notify) ==> notify == old(queue)@[0].notify && final(queue)@
                == old(queue)@.drop_first(),
    {
        queue.pop(R::kind().opposite())
    }
}

impl Clone for Scheduler {
    fn clone(&self) -> (s: Self)
        ensures
            s.is_restored(),
    {
        Scheduler { node: Some(NodeBox::new()) }
    }
}

} // verus!
