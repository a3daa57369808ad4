use vstd::prelude::*;

use crate::node_id::NodeID;

verus! {

/// One node's immutable view of the star: its own identity, who the
/// relay is, whose transmissions it accepts and whom it may address.
pub struct Topology {
    id: NodeID,
    relay: NodeID,
    rxlist: Vec<NodeID>,
    txlist: Vec<NodeID>,
}

/// True iff `list` holds `id`; linear scan, the lists are small.
fn list_contains(list: &Vec<NodeID>, id: NodeID) -> (r: bool)
    ensures
        r == list@.contains(id),
{
    let mut i: usize = 0;
    while i < list.len()
        invariant
            i <= list@.len(),
            forall|j: int| 0 <= j < i ==> list@[j] != id,
        decreases list@.len() - i,
    {
        if list[i] == id {
            proof {
                assert(list@[i as int] == id);
            }
            return true;
        }
        i = i + 1;
    }
    false
}

impl Topology {
    pub closed spec fn spec_id(&self) -> NodeID {
        self.id
    }

    pub closed spec fn spec_relay(&self) -> NodeID {
        self.relay
    }

    pub closed spec fn spec_rxlist(&self) -> Seq<NodeID> {
        self.rxlist@
    }

    pub closed spec fn spec_txlist(&self) -> Seq<NodeID> {
        self.txlist@
    }

    pub fn new(id: NodeID, relay: NodeID, rxlist: Vec<NodeID>, txlist: Vec<NodeID>) -> (r: Topology)
        ensures
            r.spec_id() == id,
            r.spec_relay() == relay,
            r.spec_rxlist() == rxlist@,
            r.spec_txlist() == txlist@,
    {
        Topology { id, relay, rxlist, txlist }
    }

    /// Whether this node is the relay of the star.
    pub fn is_relay(&self) -> (r: bool)
        ensures
            r == (self.spec_id() == self.spec_relay()),
    {
        self.id == self.relay
    }

    pub fn relay(&self) -> (r: NodeID)
        ensures
            r == self.spec_relay(),
    {
        self.relay
    }

    /// Whether this node accepts transmissions from `id`.
    pub fn can_receive_from(&self, id: NodeID) -> (r: bool)
        ensures
            r == self.spec_rxlist().contains(id),
    {
        list_contains(&self.rxlist, id)
    }

    /// Whether this node may address traffic to `id`.
    pub fn can_send_to(&self, id: NodeID) -> (r: bool)
        ensures
            r == self.spec_txlist().contains(id),
    {
        list_contains(&self.txlist, id)
    }

    /// Where a packet for `id` goes next: in the star topology the relay
    /// reaches every target directly, and every leaf goes through the
    /// relay.
    pub fn nexthop_for_target(&self, id: NodeID) -> (r: NodeID)
        ensures
            r == (if self.spec_id() == self.spec_relay() {
                id
            } else {
                self.spec_relay()
            }),
    {
        if self.id == self.relay {
            id
        } else {
            self.relay
        }
    }

    pub fn id(&self) -> (r: NodeID)
        ensures
            r == self.spec_id(),
    {
        self.id
    }

    pub fn txlist(&self) -> (r: &Vec<NodeID>)
        ensures
            r@ == self.spec_txlist(),
    {
        &self.txlist
    }
}

} // verus!
