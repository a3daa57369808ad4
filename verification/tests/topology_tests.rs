use cope::node_id::NodeID;
use cope::topology::Topology;

#[test]
fn test_allowlist() {
    let topology: Topology = Topology::new(
        NodeID::new('A'),
        NodeID::new('B'),
        vec![NodeID::new('B'), NodeID::new('C')],
        vec![],
    );

    assert!(topology.can_receive_from(NodeID::new('C')));
    assert!(!topology.can_receive_from(NodeID::new('D')));
}

#[test]
fn test_nexthop_outsider() {
    let topology: Topology = Topology::new(
        NodeID::new('A'),
        NodeID::new('B'),
        vec![NodeID::new('B'), NodeID::new('C')],
        vec![],
    );

    assert_eq!(topology.nexthop_for_target(NodeID::new('C')), NodeID::new('B'));
}

#[test]
fn test_nexthop_relay() {
    let topology: Topology = Topology::new(
        NodeID::new('B'),
        NodeID::new('B'),
        vec![NodeID::new('B'), NodeID::new('C')],
        vec![],
    );

    assert_eq!(topology.nexthop_for_target(NodeID::new('C')), NodeID::new('C'));
}
