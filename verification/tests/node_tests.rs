use cope::leaf_node_coding::LeafNodeCoding;
use cope::node::{Node, NodeCoding};
use cope::node_id::NodeID;
use cope::packet::{CodingHeader, PacketBuilder};
use cope::packet_data::PacketData;
use cope::relay_node_coding::RelayNodeCoding;
use cope::stats::Stats;
use cope::topology::Topology;
use cope::traffic_generator::{TimedGenerator, TrafficGenerator, TrafficGeneratorType};

fn leaf_node(id: char, peer: char) -> Node<TimedGenerator> {
    let topology = Topology::new(
        NodeID::new(id),
        NodeID::new('R'),
        vec![NodeID::new('R')],
        vec![NodeID::new(peer)],
    );
    let generator = TrafficGenerator::new(
        TimedGenerator::new(1000, 2, 0),
        vec![NodeID::new(peer)],
        NodeID::new(id),
    );
    let coding = LeafNodeCoding::new(generator, 8, 500, 2, 100, 0);
    let stats = Stats::new(NodeID::new(id), TrafficGeneratorType::Periodic(1000), 0);
    Node::new(NodeID::new(id), topology, NodeCoding::Leaf(coding), stats)
}

fn relay_node() -> Node<TimedGenerator> {
    let neighbours = vec![NodeID::new('A'), NodeID::new('B')];
    let topology = Topology::new(NodeID::new('R'), NodeID::new('R'), neighbours.clone(), neighbours.clone());
    let coding = RelayNodeCoding::new(neighbours, 8, 500, 2, 100, 0);
    let stats = Stats::new(NodeID::new('R'), TrafficGeneratorType::Disabled, 0);
    Node::new(NodeID::new('R'), topology, NodeCoding::Relay(coding), stats)
}

#[test]
fn node_drops_frames_outside_the_receive_whitelist() {
    let mut relay = relay_node();
    let stranger = PacketBuilder::new()
        .sender(NodeID::new('Z'))
        .data(PacketData::new(vec![1]))
        .native_header(cope::packet::CodingInfo {
            source: NodeID::new('Z'),
            id: 1,
            nexthop: NodeID::new('A'),
        })
        .ack_header(vec![])
        .build()
        .unwrap();
    let outcome = relay.handle_received(&stranger, 0).unwrap();
    assert!(outcome.is_none());
    assert_eq!(relay.stats_ref().packets_received, 0);
}

#[test]
fn node_ticks_originate_relay_and_count() {
    let mut alice = leaf_node('A', 'B');
    let mut bob = leaf_node('B', 'A');
    let mut relay = relay_node();

    // at one second both leaves originate
    let n_a = alice.handle_transmit(1000).unwrap().unwrap();
    alice.record_sent(&n_a, 1000);
    let n_b = bob.handle_transmit(1000).unwrap().unwrap();
    bob.record_sent(&n_b, 1000);
    assert!(matches!(n_a.coding_header(), CodingHeader::Native(_)));
    assert_eq!(alice.stats_ref().packets_sent, 1);
    assert_eq!(alice.stats_ref().natives_sent, 1);

    // the relay takes both in and codes them into one transmission
    assert!(relay.handle_received(&n_a, 1_001_000).unwrap().is_some());
    assert!(relay.handle_received(&n_b, 1_002_000).unwrap().is_some());
    assert_eq!(relay.stats_ref().packets_received, 2);

    let coded = relay.handle_transmit(1003).unwrap().unwrap();
    relay.record_sent(&coded, 1003);
    assert!(matches!(coded.coding_header(), CodingHeader::Encoded(_)));
    assert_eq!(relay.stats_ref().coded_sent, 1);

    // each leaf decodes the other's payload out of the mix
    let at_a = alice.handle_received(&coded, 1_004_000).unwrap().unwrap();
    let at_b = bob.handle_received(&coded, 1_004_000).unwrap().unwrap();
    assert_eq!(at_a.0, vec![0, 0]);
    assert_eq!(at_b.0, vec![0, 0]);
    assert_eq!(alice.stats_ref().decoded_received, 1);
}
