use cope::node_id::NodeID;
use cope::numfmt::{u32_to_string, u64_to_string};
use cope::packet::{Ack, CodingHeader, CodingInfo, Packet, PacketBuilder};
use cope::packet_data::PacketData;
use cope::stats::{tgt_to_string, Snapshot, Stats};
use cope::traffic_generator::TrafficGeneratorType;

fn sample_packet() -> Packet {
    let info0 = CodingInfo { source: NodeID::new('A'), id: 7, nexthop: NodeID::new('B') };
    let info1 = CodingInfo { source: NodeID::new('B'), id: 3, nexthop: NodeID::new('A') };
    let ack = Ack { source: NodeID::new('B'), packets: vec![info0.clone()] };
    PacketBuilder::new()
        .sender(NodeID::new('R'))
        .data(PacketData::new(vec![0x11, 0x22, 0x33]))
        .encoded_header(vec![info0, info1])
        .ack_header(vec![ack])
        .build()
        .unwrap()
}

#[test]
fn wire_round_trip() {
    let packet = sample_packet();
    let bytes = packet.serialize_into().unwrap();
    let back = Packet::deserialize_from(&bytes).unwrap();

    assert_eq!(back.sender(), NodeID::new('R'));
    let CodingHeader::Encoded(infos) = back.coding_header() else {
        panic!("wrong header variant after the round trip");
    };
    assert_eq!(infos.len(), 2);
    assert_eq!(infos[0], CodingInfo { source: NodeID::new('A'), id: 7, nexthop: NodeID::new('B') });
    assert_eq!(infos[1], CodingInfo { source: NodeID::new('B'), id: 3, nexthop: NodeID::new('A') });
    assert_eq!(back.ack_header().len(), 1);
    assert_eq!(back.ack_header()[0].source(), NodeID::new('B'));
    assert_eq!(back.ack_header()[0].packets().len(), 1);
    assert_eq!(back.data().0, vec![0x11, 0x22, 0x33]);

    // and the rendering itself is stable
    let again = back.serialize_into().unwrap();
    assert_eq!(bytes, again);
}

#[test]
fn wire_rejects_garbage() {
    // too short for even the sender
    assert!(Packet::deserialize_from(&[1, 2, 3]).is_err());
    // an unknown header tag
    let packet = sample_packet();
    let mut bytes = packet.serialize_into().unwrap();
    bytes[4] = 9;
    assert!(Packet::deserialize_from(&bytes).is_err());
    // trailing bytes are refused
    let mut long = packet.serialize_into().unwrap();
    long.push(0);
    assert!(Packet::deserialize_from(&long).is_err());
}

#[test]
fn wire_control_round_trip() {
    let control = PacketBuilder::new()
        .sender(NodeID::new('B'))
        .control_header(NodeID::new('A'))
        .ack_header(vec![Ack { source: NodeID::new('B'), packets: vec![] }])
        .build()
        .unwrap();
    let bytes = control.serialize_into().unwrap();
    let back = Packet::deserialize_from(&bytes).unwrap();
    assert!(matches!(back.coding_header(), CodingHeader::Control(id) if *id == NodeID::new('A')));
    assert_eq!(back.data().len(), 0);
}

#[test]
fn builder_validates_fields() {
    // missing sender
    assert!(PacketBuilder::new()
        .data(PacketData::new(vec![1]))
        .native_header(CodingInfo { source: NodeID::new('A'), id: 1, nexthop: NodeID::new('B') })
        .ack_header(vec![])
        .build()
        .is_err());
    // a native needs a payload
    assert!(PacketBuilder::new()
        .sender(NodeID::new('A'))
        .native_header(CodingInfo { source: NodeID::new('A'), id: 1, nexthop: NodeID::new('B') })
        .ack_header(vec![])
        .build()
        .is_err());
    // a control may not carry one
    assert!(PacketBuilder::new()
        .sender(NodeID::new('A'))
        .control_header(NodeID::new('B'))
        .data(PacketData::new(vec![1]))
        .ack_header(vec![])
        .build()
        .is_err());
    // and the acknowledgement header must be set
    assert!(PacketBuilder::new()
        .sender(NodeID::new('A'))
        .control_header(NodeID::new('B'))
        .build()
        .is_err());
}

#[test]
fn decimal_rendering() {
    assert_eq!(u32_to_string(0), "0");
    assert_eq!(u32_to_string(7), "7");
    assert_eq!(u32_to_string(1234), "1234");
    assert_eq!(u64_to_string(4294967296), "4294967296");
}

#[test]
fn traffic_generator_type_rendering() {
    assert_eq!(tgt_to_string(&TrafficGeneratorType::Disabled), "None");
    assert_eq!(tgt_to_string(&TrafficGeneratorType::Greedy), "Greedy");
    assert_eq!(tgt_to_string(&TrafficGeneratorType::Poisson(4096)), "Poisson(4096)");
    assert_eq!(tgt_to_string(&TrafficGeneratorType::Random(8192)), "Random(8192)");
    assert_eq!(tgt_to_string(&TrafficGeneratorType::Periodic(250)), "Periodic(250)");
}

#[test]
fn stats_csv_row() {
    let mut stats = Stats::new(NodeID::new('A'), TrafficGeneratorType::Poisson(4096), 1000);
    assert!(stats.file_header().starts_with("time_us,node_id,target_id"));

    let native = PacketBuilder::new()
        .sender(NodeID::new('A'))
        .data(PacketData::new(vec![1, 2, 3]))
        .native_header(CodingInfo { source: NodeID::new('A'), id: 1, nexthop: NodeID::new('B') })
        .ack_header(vec![])
        .build()
        .unwrap();
    stats.add_sent(&native);
    stats.add_received_after_decode_attempt(NodeID::new('B'), 5, true);
    stats.add_cache_hit(&NodeID::new('B'));
    stats.add_cache_miss(&NodeID::new('B'));

    let row = stats.log_data(2500);
    assert_eq!(row, "1500,A,B,Poisson(4096),3,1,0,1,0,5,1,0,0,1,0,1,1");
}

#[test]
fn snapshot_average() {
    let snap = Snapshot { lats_dur: 5, total_dur: 30, mesurement_count: 4 };
    assert_eq!(snap.avg(), 7);
}
