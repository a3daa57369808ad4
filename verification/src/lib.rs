//! COPE: an opportunistic inter-flow network-coding layer for a small
//! wireless mesh. A relay node XOR-codes native packets addressed to
//! different neighbours into a single transmission that every intended
//! recipient can decode from its own cache of overheard natives.

pub mod coding;
pub mod decode_util;
pub mod kbase;
pub mod leaf_node_coding;
pub mod node;
pub mod node_id;
pub mod numfmt;
pub mod packet;
pub mod packet_data;
pub mod packet_pool;
pub mod relay_node_coding;
pub mod retrans_queue;
pub mod stats;
pub mod topology;
pub mod traffic_generator;
pub mod wire;
