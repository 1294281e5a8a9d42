//! The queue of parked parties.
//!
//! The queue is first-in first-out and holds parties of one role at a
//! time. A party of the other role is refused: while senders wait the
//! buffer is full and a receiver has work to do, and the other way round.
use vstd::prelude::*;

use std::collections::VecDeque;

use crate::role::Kind;
use crate::scheduler::notify::Notify;

verus! {

/// The node that a party puts into the queue while it is parked.
#[derive(Debug)]
pub struct NodeBox(Node);

#[derive(Debug)]
struct Node {
    info: Option<Info>,
}

#[derive(Debug)]
struct Info {
    role: Kind,
    notify: Notify,
}

/// A parked party: its role and the handle that wakes it.
pub struct Waiter {
    pub role: Kind,
    pub notify: Notify,
}

/// The queue of parked parties.
#[derive(Debug)]
pub struct Queue {
    nodes: VecDeque<NodeBox>,
}

impl Node {
    fn mismatch_with(&self, role: Kind) -> (r: bool)
        ensures
            r == match self.info {
                None => true,
                Some(info) => info.role != role,
            },
    {
        match &self.info {
            None => true,
            Some(info) => info.role != role,
        }
    }
}

impl NodeBox {
    /// The party that the node holds, if any.
    pub closed spec fn waiter(&self) -> Option<Waiter> {
        match self.0.info {
            None => None,
            Some(info) => Some(Waiter { role: info.role, notify: info.notify }),
        }
    }

    /// A node that holds no party.
    pub fn new() -> (node: Self)
        ensures
            node.waiter() is None,
    {
        NodeBox(Node { info: None })
    }
}

impl Queue {
    /// The parked parties, the one that parked first in front.
    pub closed spec fn view(&self) -> Seq<Waiter> {
        Seq::new(self.nodes@.len(), |i: int| self.nodes@[i].waiter()->Some_0)
    }

    /// Every node holds a party, and all parties have one role.
    pub closed spec fn wf(&self) -> bool {
        &&& forall|i: int|
            0 <= i < self.nodes@.len() ==> (#[trigger] self.nodes@[i]).waiter() is Some
        &&& self.homogeneous()
    }

    /// All parked parties have one role.
    pub open spec fn homogeneous(&self) -> bool {
        forall|i: int, j: int|
            0 <= i < self@.len() && 0 <= j < self@.len() ==> (#[trigger] self@[i]).role == (
            #[trigger] self@[j]).role
    }

    /// The parties of a queue in order have one role.
    pub proof fn lemma_one_role(&self)
        requires
            self.wf(),
        ensures
            self.homogeneous(),
    {
    }

    /// An empty queue.
    pub fn new() -> (q: Self)
        ensures
            q.wf(),
            q@ == Seq::<Waiter>::empty(),
    {
        let q = Queue { nodes: VecDeque::new() };
        assert(q@ =~= Seq::<Waiter>::empty());
        q
    }

    /// Parks a party of `role` at the back, unless parties of the other
    /// role are parked: then the node comes back, and the party goes on
    /// without parking.
    pub fn push(&mut self, role: Kind, notify: Notify, node_box: NodeBox) -> (r: Result<
        (),
        NodeBox,
    >)
        requires
            old(self).wf(),
        ensures
            final(self).wf(),
            r is Err <==> old(self)@.len() > 0 && old(self)@.last().role != role,
            r is Err ==> final(self)@ == old(self)@,
            r matches Err(node) ==> node.waiter() == Some(Waiter { role, notify }),
            r is Ok ==> final(self)@ == old(self)@.push(Waiter { role, notify }),
    {
        let mut node_box = node_box;
        node_box.0.info = Some(Info { role, notify });
        let len = self.nodes.len();
        if len > 0 {
            assert(self@[len - 1].role == self.nodes@[len - 1].waiter()->Some_0.role);
            if self.nodes[len - 1].0.mismatch_with(role) {
                return Err(node_box);
            }
        }
        let ghost before = *self;
        self.nodes.push_back(node_box);
        proof {
            assert(self@ =~= before@.push(Waiter { role, notify }));
            assert forall|i: int, j: int| 0 <= i < self@.len() && 0 <= j < self@.len() implies (
            #[trigger] self@[i]).role == (#[trigger] self@[j]).role by {
                if len > 0 {
                    assert(before@[len - 1].role == role);
                    if i < len {
                        assert(before@[i].role == before@[len - 1].role);
                    }
                    if j < len {
                        assert(before@[j].role == before@[len - 1].role);
                    }
                }
            }
        }
        Ok(())
    }

    /// Takes the party that parked first, if it has the role `role`, and
    /// gives the handle that wakes it.
    pub fn pop(&mut self, role: Kind) -> (r: Option<Notify>)
        requires
            old(self).wf(),
        ensures
            final(self).wf(),
            r is Some <==> old(self)@.len() > 0 && old(self)@[0].role == role,
            r is None ==> final(self)@ == old(self)@,
            r matches Some(notify) ==> notify == old(self)@[0].notify && final(self)@ == old(
                self,
            )@.drop_first(),
    {
        if self.nodes.len() == 0 {
            return None;
        }
        assert(self@[0].role == self.nodes@[0].waiter()->Some_0.role);
        if self.nodes[0].0.mismatch_with(role) {
            return None;
        }
        let ghost before = *self;
        let node = self.nodes.pop_front();
        proof {
            assert(self@ =~= before@.drop_first());
            assert forall|i: int, j: int| 0 <= i < self@.len() && 0 <= j < self@.len() implies (
            #[trigger] self@[i]).role == (#[trigger] self@[j]).role by {
                assert(before@[i + 1].role == before@[j + 1].role);
            }
        }
        match node {
            Some(NodeBox(Node { info: Some(info) })) => Some(info.notify),
            _ => None,
        }
    }
}

} // verus!
