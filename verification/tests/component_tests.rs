use cope::coding::CodingError;
use cope::kbase::SimpleKBase;
use cope::node_id::NodeID;
use cope::packet::{CodingInfo, PacketBuilder};
use cope::packet_data::PacketData;
use cope::packet_pool::SimplePacketPool;
use cope::relay_node_coding::RelayNodeCoding;
use cope::retrans_queue::RetransQueue;
use cope::topology::Topology;
use cope::traffic_generator::{
    DataGenerator, NoneGenerator, NoneStrategy, TGStrategy, TimedGenerator, TrafficGenerator,
};

fn info(src: char, seq: u16, nh: char) -> CodingInfo {
    CodingInfo { source: NodeID::new(src), id: seq, nexthop: NodeID::new(nh) }
}

fn native(src: char, seq: u16, nh: char, data: Vec<u8>) -> cope::packet::Packet {
    PacketBuilder::new()
        .sender(NodeID::new(src))
        .data(PacketData::new(data))
        .native_header(info(src, seq, nh))
        .ack_header(vec![])
        .build()
        .unwrap()
}

#[test]
fn pool_evicts_oldest_first() {
    let mut pool = SimplePacketPool::new(2);
    pool.push_packet(native('A', 1, 'B', vec![1]));
    pool.push_packet(native('A', 2, 'B', vec![2]));
    assert_eq!(pool.size(), 2);
    // a third push on the full pool evicts the oldest entry
    pool.push_packet(native('A', 3, 'B', vec![3]));
    assert_eq!(pool.size(), 2);
    assert!(pool.position(&info('A', 1, 'B')).is_none());
    assert_eq!(pool.position(&info('A', 2, 'B')), Some(0));
    assert_eq!(pool.position(&info('A', 3, 'B')), Some(1));
}

#[test]
fn pool_peeks_and_pops_by_nexthop() {
    let mut pool = SimplePacketPool::new(8);
    pool.push_packet(native('A', 1, 'B', vec![1]));
    pool.push_packet(native('A', 2, 'C', vec![2]));
    pool.push_packet(native('A', 3, 'B', vec![3]));
    assert_eq!(pool.unique_nexthops(), 2);

    let peeked = pool.peek_nexthop_front(NodeID::new('B')).unwrap();
    assert_eq!(peeked.0, info('A', 1, 'B'));
    let popped = pool.pop_nexthop_front(NodeID::new('B')).unwrap();
    assert_eq!(popped.0, info('A', 1, 'B'));
    assert_eq!(pool.size(), 2);
    let next = pool.peek_nexthop_front(NodeID::new('B')).unwrap();
    assert_eq!(next.0, info('A', 3, 'B'));
    assert!(pool.peek_nexthop_front(NodeID::new('D')).is_none());
}

#[test]
fn kbase_remembers_per_neighbour() {
    let mut kb = SimpleKBase::new(vec![NodeID::new('A'), NodeID::new('B')], 2);
    let i1 = info('A', 1, 'B');
    let i2 = info('A', 2, 'B');
    let i3 = info('A', 3, 'B');
    assert!(!kb.knows(&NodeID::new('A'), &i1));
    kb.insert(NodeID::new('A'), i1.clone());
    assert!(kb.knows(&NodeID::new('A'), &i1));
    assert!(!kb.knows(&NodeID::new('B'), &i1));
    // the per-neighbour list is bounded first-in-first-out
    kb.insert(NodeID::new('A'), i2.clone());
    kb.insert(NodeID::new('A'), i3.clone());
    assert!(!kb.knows(&NodeID::new('A'), &i1));
    assert!(kb.knows(&NodeID::new('A'), &i2));
    assert!(kb.knows(&NodeID::new('A'), &i3));
    assert_eq!(kb.size(), 2);
}

#[test]
fn retrans_queue_times_and_bounds_attempts() {
    let mut q = RetransQueue::new(4, 100, 2);
    assert!(!q.is_full());
    assert_eq!(q.len(), 0);
    q.push_new((info('A', 1, 'B'), PacketData::new(vec![1])), 0);
    assert!(q.conatains(&info('A', 1, 'B')));
    assert_eq!(q.len(), 1);

    // not due before the round trip has passed
    assert!(q.packet_to_retrans(50).is_none());
    // first attempt at one round trip; the entry stays
    let first = q.packet_to_retrans(100).unwrap();
    assert_eq!(first.0, info('A', 1, 'B'));
    assert!(q.conatains(&info('A', 1, 'B')));
    // consecutive attempts are separated by at least the round trip
    assert!(q.packet_to_retrans(150).is_none());
    // the attempt that reaches the maximum removes the entry
    let last = q.packet_to_retrans(200).unwrap();
    assert_eq!(last.0, info('A', 1, 'B'));
    assert!(!q.conatains(&info('A', 1, 'B')));
    assert!(q.packet_to_retrans(10_000).is_none());
}

#[test]
fn retrans_queue_removes_acknowledged() {
    let mut q = RetransQueue::new(4, 100, 2);
    q.push_new((info('A', 1, 'B'), PacketData::new(vec![1])), 0);
    q.push_new((info('A', 2, 'B'), PacketData::new(vec![2])), 0);
    q.remove_packet(&info('A', 1, 'B'));
    assert!(!q.conatains(&info('A', 1, 'B')));
    assert!(q.conatains(&info('A', 2, 'B')));
    // removing something absent changes nothing
    q.remove_packet(&info('A', 9, 'B'));
    assert_eq!(q.len(), 1);
}

#[test]
fn relay_rejects_encoded_input() {
    let topo = Topology::new(
        NodeID::new('R'),
        NodeID::new('R'),
        vec![NodeID::new('A')],
        vec![NodeID::new('A')],
    );
    let mut r = RelayNodeCoding::new(vec![NodeID::new('A')], 4, 100, 2, 50, 0);
    let encoded = PacketBuilder::new()
        .sender(NodeID::new('A'))
        .data(PacketData::new(vec![1]))
        .encoded_header(vec![info('A', 1, 'A')])
        .ack_header(vec![])
        .build()
        .unwrap();
    let outcome = r.handle_rx(&encoded, &topo);
    assert!(matches!(outcome, Err(CodingError::DefectPacketError(_))));
}

#[test]
fn data_generator_fills_requested_size() {
    let generator = DataGenerator::new();
    let bytes = generator.generate(300);
    assert_eq!(bytes.len(), 300);
    assert!(generator.generate(0).is_empty());
}

#[test]
fn timed_generator_waits_out_its_period() {
    let mut timed = TimedGenerator::new(100, 4, 0);
    assert!(timed.generate(50).is_none());
    let produced = timed.generate(100).unwrap();
    let packet = produced
        .sender(NodeID::new('A'))
        .native_header(info('A', 1, 'B'))
        .ack_header(vec![])
        .build()
        .unwrap();
    assert_eq!(packet.data().0, vec![0, 0, 0, 0]);
    // the period restarts from the last production
    assert!(timed.generate(150).is_none());
    assert!(timed.generate(200).is_some());
}

#[test]
fn none_sources_stay_silent() {
    let mut strategy = NoneStrategy::new();
    assert!(strategy.generate(0).is_none());
    assert!(NoneGenerator::new().generate().is_none());
}

#[test]
fn generator_numbers_and_cycles_receivers() {
    let mut generator = TrafficGenerator::new(
        TimedGenerator::new(0, 1, 0),
        vec![NodeID::new('B'), NodeID::new('C')],
        NodeID::new('A'),
    );
    assert_eq!(generator.next_packet_id(), 1);
    assert_eq!(generator.next_receiver(), NodeID::new('C'));
    assert_eq!(generator.next_receiver(), NodeID::new('B'));

    let builder = generator.generate(10).unwrap();
    let packet = builder.ack_header(vec![]).build().unwrap();
    assert_eq!(packet.sender(), NodeID::new('A'));
    let cope::packet::CodingHeader::Native(i) = packet.coding_header() else {
        panic!("the generator wraps payloads in native headers");
    };
    assert_eq!(i.source, NodeID::new('A'));
    assert_eq!(i.id, 2);
    assert_eq!(i.nexthop, NodeID::new('C'));
}
