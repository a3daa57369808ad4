use vstd::prelude::*;

use crate::coding::CodingError;
use crate::leaf_node_coding::LeafNodeCoding;
use crate::node_id::NodeID;
use crate::packet::{CodingHeader, Packet};
use crate::packet_data::PacketData;
use crate::relay_node_coding::RelayNodeCoding;
use crate::stats::Stats;
use crate::topology::Topology;
use crate::traffic_generator::TGStrategy;

verus! {

/// The closed set of per-node coding engines: a leaf originates and
/// decodes; the relay mixes and forwards.
pub enum NodeCoding<S: TGStrategy> {
    Leaf(LeafNodeCoding<S>),
    Relay(RelayNodeCoding),
}

/// One mesh node: its place in the star, its coding engine and its
/// counters. The surrounding loop hands frames in and takes frames out;
/// nothing here blocks or touches a channel.
pub struct Node<S: TGStrategy> {
    id: NodeID,
    topology: Topology,
    coding: NodeCoding<S>,
    stats: Stats,
}

impl<S: TGStrategy> Node<S> {
    /// The coding engine, as a value for specifications.
    pub closed spec fn coding(&self) -> NodeCoding<S> {
        self.coding
    }

    /// The topology, as a value for specifications.
    pub closed spec fn topo(&self) -> Topology {
        self.topology
    }

    /// The counters, as a value for specifications.
    pub closed spec fn stats(&self) -> Stats {
        self.stats
    }

    pub closed spec fn spec_id(&self) -> NodeID {
        self.id
    }

    /// The engine is healthy and consistent with the topology: a leaf's
    /// generator originates in this node's name, and the relay keeps a
    /// knowledge-base list for every transmit neighbour.
    pub open spec fn wf(&self) -> bool {
        &&& match self.coding() {
            NodeCoding::Leaf(leaf) => {
                &&& leaf.wf()
                &&& leaf.gen().spec_sender() == self.topo().spec_id()
            },
            NodeCoding::Relay(relay) => {
                &&& relay.wf()
                &&& relay.pool().spec_max_size() < usize::MAX - 1
                &&& forall|t: int|
                    0 <= t < self.topo().spec_txlist().len() ==> relay.kb().has_node(
                        #[trigger] self.topo().spec_txlist()[t],
                    )
            },
        }
        &&& self.topo().spec_txlist().len() > 0
        &&& self.topo().spec_id() == self.spec_id()
    }

    pub fn new(id: NodeID, topology: Topology, coding: NodeCoding<S>, stats: Stats) -> (r: Self)
        requires
            topology.spec_id() == id,
            topology.spec_txlist().len() > 0,
            match coding {
                NodeCoding::Leaf(leaf) => {
                    &&& leaf.wf()
                    &&& leaf.gen().spec_sender() == id
                },
                NodeCoding::Relay(relay) => {
                    &&& relay.wf()
                    &&& relay.pool().spec_max_size() < usize::MAX - 1
                    &&& forall|t: int|
                        0 <= t < topology.spec_txlist().len() ==> relay.kb().has_node(
                            #[trigger] topology.spec_txlist()[t],
                        )
                },
            },
        ensures
            r.wf(),
            r.spec_id() == id,
            r.coding() == coding,
            r.topo() == topology,
            r.stats() == stats,
    {
        Node { id, topology, coding, stats }
    }

    pub fn id(&self) -> (r: NodeID)
        ensures
            r == self.spec_id(),
    {
        self.id
    }

    pub fn is_relay(&self) -> (r: bool)
        ensures
            r == (self.topo().spec_id() == self.topo().spec_relay()),
    {
        self.topology.is_relay()
    }

    pub fn topology(&self) -> (r: &Topology)
        ensures
            r == self.topo(),
    {
        &self.topology
    }

    /// The counters, for rendering a statistics row.
    pub fn stats_ref(&self) -> (r: &Stats)
        ensures
            r == self.stats(),
    {
        &self.stats
    }

    /// How the counters move for one received frame: nothing for a
    /// dropped frame, one decoded payload on success, one undecodable
    /// packet on failure.
    pub open spec fn rx_stats_post(
        pre: Stats,
        post: Stats,
        p: crate::packet::PacketV,
        r: Result<Option<PacketData>, CodingError>,
    ) -> bool {
        match r {
            Ok(o) => match o {
                Some(d) => Stats::received_post(pre, post, p.sender, d@.len() as u32, true),
                None => post == pre,
            },
            Err(_) => Stats::received_post(pre, post, p.sender, p.data.len() as u32, false),
        }
    }

    /// Feeds one received frame to the coding engine. Frames from senders
    /// outside the receive whitelist are dropped, as are natives the
    /// relay cannot attribute; otherwise the engine's verdict is what the
    /// leaf or relay contract says of it, and the counters move
    /// accordingly. `now_us` stamps the statistics row.
    pub fn handle_received(&mut self, packet: &Packet, now_us: u64) -> (r: Result<
        Option<PacketData>,
        CodingError,
    >)
        requires
            old(self).wf(),
            packet@.wf(),
        ensures
            final(self).wf(),
            final(self).topo() == old(self).topo(),
            final(self).spec_id() == old(self).spec_id(),
            !old(self).topo().spec_rxlist().contains(packet@.sender) ==> (r matches Ok(o) && o
                is None && final(self).coding() == old(self).coding() && final(self).stats() == old(
                self,
            ).stats()),
            old(self).topo().spec_rxlist().contains(packet@.sender) ==> {
                &&& Self::rx_stats_post(old(self).stats(), final(self).stats(), packet@, r)
                &&& match (old(self).coding(), final(self).coding()) {
                    (NodeCoding::Leaf(pre), NodeCoding::Leaf(post)) => LeafNodeCoding::rx_post(
                        pre,
                        post,
                        packet@,
                        old(self).topo(),
                        r,
                    ),
                    (NodeCoding::Relay(pre), NodeCoding::Relay(post)) => if pre.attributable(
                        packet@,
                    ) {
                        RelayNodeCoding::rx_post(pre, post, packet@, r)
                    } else {
                        r matches Ok(o) && o is None && post == pre
                    },
                    _ => false,
                }
            },
    {
        if !self.topology.can_receive_from(packet.sender()) {
            return Ok(None);
        }
        let outcome: Result<Option<PacketData>, CodingError> = match &mut self.coding {
            NodeCoding::Leaf(leaf) => leaf.handle_rx(packet, &self.topology),
            NodeCoding::Relay(relay) => {
                let attributable = match packet.coding_header() {
                    CodingHeader::Native(info) => relay.knows_node(&packet.sender())
                        && relay.knows_node(&info.nexthop),
                    _ => true,
                };
                if attributable {
                    let ghost kb0 = relay.kb();
                    let ghost txl = self.topology.spec_txlist();
                    let out = relay.handle_rx(packet, &self.topology);
                    proof {
                        // an insert touches one list but keeps every key,
                        // so the transmit neighbours all stay tracked
                        assert forall|t: int| 0 <= t < txl.len() implies relay.kb().has_node(
                            #[trigger] txl[t],
                        ) by {
                            let a = choose|a: int| 0 <= a < kb0@.len() && kb0@[a].0 == txl[t];
                            assert(relay.kb()@[a].0 == txl[t]);
                        }
                    }
                    out
                } else {
                    // a native from or to an unknown neighbour cannot be
                    // tracked; drop it
                    Ok(None)
                }
            },
        };
        match &outcome {
            Ok(Some(data)) => {
                self.stats.add_received_after_decode_attempt(
                    packet.sender(),
                    #[verifier::truncate] (data.len() as u32),
                    true,
                );
            },
            Ok(None) => {},
            Err(_) => {
                self.stats.add_received_after_decode_attempt(
                    packet.sender(),
                    #[verifier::truncate] (packet.data().len() as u32),
                    false,
                );
            },
        }
        outcome
    }

    /// Asks the coding engine for the node's next transmission: exactly
    /// what the leaf or relay transmit contract owes at `now_ms`, and any
    /// packet handed back is well-formed.
    pub fn handle_transmit(&mut self, now_ms: u64) -> (r: Result<Option<Packet>, CodingError>)
        requires
            old(self).wf(),
        ensures
            final(self).wf(),
            final(self).topo() == old(self).topo(),
            final(self).spec_id() == old(self).spec_id(),
            final(self).stats() == old(self).stats(),
            r matches Ok(o) ==> (o matches Some(p) ==> p@.wf()),
            match (old(self).coding(), final(self).coding()) {
                (NodeCoding::Leaf(pre), NodeCoding::Leaf(post)) => LeafNodeCoding::tx_post(
                    pre,
                    post,
                    old(self).topo(),
                    now_ms,
                    r,
                ),
                (NodeCoding::Relay(pre), NodeCoding::Relay(post)) => RelayNodeCoding::tx_post(
                    pre,
                    post,
                    old(self).topo(),
                    now_ms,
                    r,
                ),
                _ => false,
            },
    {
        match &mut self.coding {
            NodeCoding::Leaf(leaf) => leaf.handle_tx(&self.topology, now_ms),
            NodeCoding::Relay(relay) => relay.handle_tx(&self.topology, now_ms),
        }
    }

    /// Records a successful transmission: the counters take the packet
    /// and the engine remembers `now_ms` as its last send time for the
    /// control-packet clock; nothing else moves.
    pub fn record_sent(&mut self, packet: &Packet, now_ms: u64)
        requires
            old(self).wf(),
            packet@.wf(),
        ensures
            final(self).wf(),
            final(self).topo() == old(self).topo(),
            final(self).spec_id() == old(self).spec_id(),
            Stats::sent_post(old(self).stats(), final(self).stats(), packet@),
            match (old(self).coding(), final(self).coding()) {
                (NodeCoding::Leaf(pre), NodeCoding::Leaf(post)) => {
                    &&& post.spec_last_send() == now_ms
                    &&& post.pool() == pre.pool()
                    &&& post.queue() == pre.queue()
                    &&& post.gen() == pre.gen()
                    &&& post.acks_v() == pre.acks_v()
                    &&& post.same_config(&pre)
                },
                (NodeCoding::Relay(pre), NodeCoding::Relay(post)) => {
                    &&& post.spec_last_send() == now_ms
                    &&& post.pool() == pre.pool()
                    &&& post.kb() == pre.kb()
                    &&& post.queue() == pre.queue()
                    &&& post.acks_v() == pre.acks_v()
                    &&& post.same_config(&pre)
                },
                _ => false,
            },
    {
        self.stats.add_sent(packet);
        match &mut self.coding {
            NodeCoding::Leaf(leaf) => leaf.update_last_packet_send(now_ms),
            NodeCoding::Relay(relay) => relay.update_last_packet_send(now_ms),
        }
    }
}

} // verus!
