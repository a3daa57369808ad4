use cope::coding::CodingError;
use cope::leaf_node_coding::LeafNodeCoding;
use cope::node_id::NodeID;
use cope::packet::{CodingHeader, CodingInfo, Packet, PacketBuilder};
use cope::packet_data::PacketData;
use cope::relay_node_coding::RelayNodeCoding;
use cope::topology::Topology;
use cope::traffic_generator::{TGStrategy, TrafficGenerator};

/// A traffic source that hands out a fixed list of payloads, oldest
/// first, and then runs dry.
struct ScriptedStrategy {
    payloads: Vec<Vec<u8>>,
}

impl ScriptedStrategy {
    fn new(mut payloads: Vec<Vec<u8>>) -> Self {
        payloads.reverse();
        ScriptedStrategy { payloads }
    }
}

impl TGStrategy for ScriptedStrategy {
    fn generate(&mut self, _now: u64) -> Option<PacketBuilder> {
        self.payloads.pop().map(|data| PacketBuilder::new().data_raw(data))
    }
}

fn leaf_topology(id: char, peer: char) -> Topology {
    Topology::new(
        NodeID::new(id),
        NodeID::new('R'),
        vec![NodeID::new('R')],
        vec![NodeID::new(peer)],
    )
}

fn relay_topology() -> Topology {
    Topology::new(
        NodeID::new('R'),
        NodeID::new('R'),
        vec![NodeID::new('A'), NodeID::new('B')],
        vec![NodeID::new('A'), NodeID::new('B')],
    )
}

fn leaf(id: char, peer: char, payloads: Vec<Vec<u8>>) -> LeafNodeCoding<ScriptedStrategy> {
    let generator = TrafficGenerator::new(
        ScriptedStrategy::new(payloads),
        vec![NodeID::new(peer)],
        NodeID::new(id),
    );
    LeafNodeCoding::new(generator, 8, 1000, 2, 100, 0)
}

fn relay() -> RelayNodeCoding {
    RelayNodeCoding::new(vec![NodeID::new('A'), NodeID::new('B')], 8, 1000, 2, 100, 0)
}

/// One relay transmission delivers both natives: the XOR of the two
/// payloads decodes at each leaf to the payload addressed to it.
#[test]
fn alice_relay_bob_xor() {
    let topo_a = leaf_topology('A', 'B');
    let topo_b = leaf_topology('B', 'A');
    let topo_r = relay_topology();

    let mut a = leaf('A', 'B', vec![vec![0x01, 0x02]]);
    let mut b = leaf('B', 'A', vec![vec![0x10, 0x20]]);
    let mut r = relay();

    let n_a = a.handle_tx(&topo_a, 0).unwrap().unwrap();
    let n_b = b.handle_tx(&topo_b, 0).unwrap().unwrap();
    assert!(matches!(n_a.coding_header(), CodingHeader::Native(_)));

    r.handle_rx(&n_a, &topo_r).unwrap();
    r.handle_rx(&n_b, &topo_r).unwrap();

    let coded = r.handle_tx(&topo_r, 1).unwrap().unwrap();
    let CodingHeader::Encoded(infos) = coded.coding_header() else {
        panic!("the relay should code the pooled pair");
    };
    assert_eq!(infos.len(), 2);
    assert_eq!(coded.data().0, vec![0x11, 0x22]);

    let decoded_at_a = a.handle_rx(&coded, &topo_a).unwrap().unwrap();
    assert_eq!(decoded_at_a.0, vec![0x10, 0x20]);
    let decoded_at_b = b.handle_rx(&coded, &topo_b).unwrap().unwrap();
    assert_eq!(decoded_at_b.0, vec![0x01, 0x02]);

    // both pooled natives left with that one transmission: the relay has
    // nothing further to send
    assert!(r.handle_tx(&topo_r, 2).unwrap().is_none());
}

/// Without the knowledge that every recipient can cancel the foreign
/// component, the relay refuses to mix and forwards a singleton instead.
#[test]
fn missing_overhearing_blocks_coding() {
    let topo_r = relay_topology();
    let mut r = relay();

    // a native from A to B, and one from an outside flow C to A that B
    // was never seen to possess
    let info_ab = CodingInfo { source: NodeID::new('A'), id: 1, nexthop: NodeID::new('B') };
    let info_ca = CodingInfo { source: NodeID::new('C'), id: 1, nexthop: NodeID::new('A') };
    let n_ab = PacketBuilder::new()
        .sender(NodeID::new('A'))
        .data(PacketData::new(vec![1, 2]))
        .native_header(info_ab.clone())
        .ack_header(vec![])
        .build()
        .unwrap();
    let n_ca = PacketBuilder::new()
        .sender(NodeID::new('A'))
        .data(PacketData::new(vec![3, 4]))
        .native_header(info_ca.clone())
        .ack_header(vec![])
        .build()
        .unwrap();
    r.handle_rx(&n_ab, &topo_r).unwrap();
    r.handle_rx(&n_ca, &topo_r).unwrap();

    // B cannot decode a mix of the two: it was never seen with the C
    // native
    let pair = vec![(info_ab.clone(), PacketData::new(vec![1, 2]))];
    let cand = (info_ca.clone(), PacketData::new(vec![3, 4]));
    assert!(!r.all_nexhops_can_decode(&pair, &cand));

    // so the relay emits the oldest native alone, as an encoded singleton
    let coded = r.handle_tx(&topo_r, 1).unwrap().unwrap();
    let CodingHeader::Encoded(infos) = coded.coding_header() else {
        panic!("the relay always classifies its traffic as encoded");
    };
    assert_eq!(infos.len(), 1);
    assert_eq!(infos[0], info_ab);
    assert_eq!(coded.data().0, vec![1, 2]);

    // once fresh traffic restores a coding opportunity, the held-back
    // native leaves as a singleton of its own: one per hop
    let info_ab2 = CodingInfo { source: NodeID::new('A'), id: 2, nexthop: NodeID::new('B') };
    let n_ab2 = PacketBuilder::new()
        .sender(NodeID::new('A'))
        .data(PacketData::new(vec![5, 6]))
        .native_header(info_ab2.clone())
        .ack_header(vec![])
        .build()
        .unwrap();
    r.handle_rx(&n_ab2, &topo_r).unwrap();
    let second = r.handle_tx(&topo_r, 2).unwrap().unwrap();
    let CodingHeader::Encoded(infos2) = second.coding_header() else {
        panic!("the relay always classifies its traffic as encoded");
    };
    assert_eq!(infos2.len(), 1);
    assert_eq!(infos2[0], info_ca);
    assert_eq!(second.data().0, vec![3, 4]);
}

/// A lost native is re-sent once per round trip and given up after the
/// configured number of attempts.
#[test]
fn retransmit_after_loss() {
    let topo_a = leaf_topology('A', 'B');
    let mut a = leaf('A', 'B', vec![vec![1, 2]]);

    let first = a.handle_tx(&topo_a, 0).unwrap();
    assert!(first.is_some());

    // nothing is due before a round trip has passed
    assert!(a.handle_tx(&topo_a, 500).unwrap().is_none());

    let retrans1 = a.handle_tx(&topo_a, 1000).unwrap();
    let retrans1 = retrans1.expect("first retransmission at one round trip");
    assert!(matches!(retrans1.coding_header(), CodingHeader::Native(_)));
    assert_eq!(retrans1.data().0, vec![1, 2]);

    assert!(a.handle_tx(&topo_a, 1500).unwrap().is_none());

    let retrans2 = a.handle_tx(&topo_a, 2000).unwrap();
    let retrans2 = retrans2.expect("second retransmission at two round trips");
    assert_eq!(retrans2.data().0, vec![1, 2]);

    // the second attempt reached the maximum: the entry is dropped and
    // never re-sent again
    assert!(a.handle_tx(&topo_a, 3000).unwrap().is_none());
    assert!(a.handle_tx(&topo_a, 10000).unwrap().is_none());
}

/// An acknowledgement piggybacked on any later packet collapses the
/// pending retransmission at the original sender.
#[test]
fn ack_piggyback_collapses_retransmission() {
    let topo_a = leaf_topology('A', 'B');
    let topo_b = leaf_topology('B', 'A');
    let topo_r = relay_topology();

    let mut a = leaf('A', 'B', vec![vec![1, 2]]);
    let mut b = leaf('B', 'A', vec![vec![3, 4]]);
    let mut r = relay();

    let n_a = a.handle_tx(&topo_a, 0).unwrap().unwrap();
    let n_b = b.handle_tx(&topo_b, 0).unwrap().unwrap();
    b.update_last_packet_send(0);
    r.handle_rx(&n_a, &topo_r).unwrap();
    r.handle_rx(&n_b, &topo_r).unwrap();

    // the relay forwards the pair; B decodes its native and records an
    // acknowledgement for it
    let coded = r.handle_tx(&topo_r, 1).unwrap().unwrap();
    let decoded = b.handle_rx(&coded, &topo_b).unwrap().unwrap();
    assert_eq!(decoded.0, vec![1, 2]);

    // on B's next transmission (here a control packet after idling) the
    // acknowledgement piggybacks
    let with_ack = b.handle_tx(&topo_b, 200).unwrap().unwrap();
    assert!(!with_ack.ack_header().is_empty());
    assert!(!with_ack.ack_header()[0].packets().is_empty());

    // the relay absorbs and re-emits it; its next transmission carries it
    // onward to A
    r.handle_rx(&with_ack, &topo_r).unwrap();
    let onward = r.handle_tx(&topo_r, 250).unwrap().unwrap();
    assert!(!onward.ack_header().is_empty());
    a.handle_rx(&onward, &topo_a).unwrap();

    // A dropped the pending native: a full round trip later nothing is
    // re-sent
    assert!(a.handle_tx(&topo_a, 5000).unwrap().is_none());
}

/// With pending acknowledgements but no fresh traffic, a leaf emits a
/// control packet carrying them once it has been silent long enough.
#[test]
fn control_only_idle_acks() {
    let topo_a = leaf_topology('A', 'B');
    let topo_b = leaf_topology('B', 'A');
    let topo_r = relay_topology();

    let mut a = leaf('A', 'B', vec![vec![1, 2]]);
    let mut b = leaf('B', 'A', vec![vec![3, 4]]);
    let mut r = relay();

    let n_a = a.handle_tx(&topo_a, 0).unwrap().unwrap();
    let n_b = b.handle_tx(&topo_b, 0).unwrap().unwrap();
    b.update_last_packet_send(0);
    r.handle_rx(&n_a, &topo_r).unwrap();
    r.handle_rx(&n_b, &topo_r).unwrap();
    let coded = r.handle_tx(&topo_r, 1).unwrap().unwrap();
    b.handle_rx(&coded, &topo_b).unwrap();

    // before the idle threshold no control packet leaves
    assert!(b.handle_tx(&topo_b, 50).unwrap().is_none());

    // after it, the pending acknowledgements go out on a control packet
    // addressed to the first transmit neighbour, and the buffer clears
    let control = b.handle_tx(&topo_b, 200).unwrap().unwrap();
    let CodingHeader::Control(receiver) = control.coding_header() else {
        panic!("expected a control packet");
    };
    assert_eq!(*receiver, NodeID::new('A'));
    assert_eq!(control.data().len(), 0);
    assert_eq!(control.ack_header().len(), 1);
    let acked = control.ack_header()[0].packets();
    assert_eq!(acked.len(), 1);
    assert_eq!(acked[0].source, NodeID::new('A'));
    assert_eq!(acked[0].nexthop, NodeID::new('B'));
    b.update_last_packet_send(200);

    assert!(b.handle_tx(&topo_b, 400).unwrap().is_none());
}

/// When every copy is lost and nothing is ever acknowledged, the
/// retransmission queue fills up and fresh natives are refused.
#[test]
fn full_queue_back_pressure() {
    let topo_a = leaf_topology('A', 'B');
    let generator = TrafficGenerator::new(
        ScriptedStrategy::new(vec![vec![1], vec![2], vec![3], vec![4]]),
        vec![NodeID::new('B')],
        NodeID::new('A'),
    );
    // queue capacity three, a round trip too long to ever come due, and
    // practically unbounded attempts
    let mut a: LeafNodeCoding<ScriptedStrategy> =
        LeafNodeCoding::new(generator, 3, 1_000_000, 255, 100, 0);

    assert!(a.handle_tx(&topo_a, 1).unwrap().is_some());
    assert!(a.handle_tx(&topo_a, 2).unwrap().is_some());
    assert!(a.handle_tx(&topo_a, 3).unwrap().is_some());

    let refused = a.handle_tx(&topo_a, 4);
    assert!(matches!(refused, Err(CodingError::FullRetransQueue(_))));
}

/// An encoded packet addressed to a leaf whose pool lacks a required
/// native cannot be decoded; the error is recoverable and the pool is
/// left alone.
#[test]
fn decode_fails_without_pooled_native() {
    let topo_b = leaf_topology('B', 'A');
    let mut b = leaf('B', 'A', vec![]);

    let encoded = PacketBuilder::new()
        .sender(NodeID::new('R'))
        .data(PacketData::new(vec![0x11, 0x22]))
        .encoded_header(vec![
            CodingInfo { source: NodeID::new('A'), id: 1, nexthop: NodeID::new('B') },
            CodingInfo { source: NodeID::new('B'), id: 1, nexthop: NodeID::new('A') },
        ])
        .ack_header(vec![])
        .build()
        .unwrap();

    let outcome = b.handle_rx(&encoded, &topo_b);
    assert!(matches!(outcome, Err(CodingError::DecodeError(_))));
}

/// A traffic source that hands back an empty payload produces no valid
/// native: the leaf reports the defect and keeps its pending
/// acknowledgements.
#[test]
fn empty_generator_payload_is_a_defect() {
    let topo_a = leaf_topology('A', 'B');
    let mut a = leaf('A', 'B', vec![vec![]]);
    let outcome = a.handle_tx(&topo_a, 0);
    assert!(matches!(outcome, Err(CodingError::DefectPacketError(_))));
}

/// The relay keeps serving each recipient at most once per coded packet.
#[test]
fn coded_packets_serve_each_recipient_once() {
    let topo_r = relay_topology();
    let mut r = relay();

    let mk = |src: char, seq: u16, nh: char, data: Vec<u8>| {
        PacketBuilder::new()
            .sender(NodeID::new(src))
            .data(PacketData::new(data))
            .native_header(CodingInfo {
                source: NodeID::new(src),
                id: seq,
                nexthop: NodeID::new(nh),
            })
            .ack_header(vec![])
            .build()
            .unwrap()
    };

    // two natives for B queued behind each other, one native for A
    r.handle_rx(&mk('A', 1, 'B', vec![1]), &topo_r).unwrap();
    r.handle_rx(&mk('A', 2, 'B', vec![2]), &topo_r).unwrap();
    r.handle_rx(&mk('B', 1, 'A', vec![4]), &topo_r).unwrap();

    let coded = r.handle_tx(&topo_r, 1).unwrap().unwrap();
    let CodingHeader::Encoded(infos) = coded.coding_header() else {
        panic!("expected an encoded packet");
    };
    for i in 0..infos.len() {
        for j in 0..infos.len() {
            if i != j {
                assert_ne!(infos[i].nexthop, infos[j].nexthop);
            }
        }
    }
}
