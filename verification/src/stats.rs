use vstd::prelude::*;

use crate::node_id::NodeID;
use crate::numfmt::{dec_str, push_char, u32_to_string, u64_to_string};
use crate::packet::{CodingHeaderV, Packet};
use crate::traffic_generator::TrafficGeneratorType;

verus! {

/// A sink for one line of statistics at a time; implementations decide
/// where the lines go (a file, a console, a bench harness).
pub trait StatsLogger {
    fn log(&mut self, data: &String);
}

/// One aggregated timing measurement, in nanoseconds.
pub struct Snapshot {
    pub lats_dur: u64,
    pub total_dur: u64,
    pub mesurement_count: u32,
}

impl Snapshot {
    /// The mean duration over all measurements.
    pub fn avg(&self) -> (r: u64)
        requires
            self.mesurement_count > 0,
        ensures
            r == self.total_dur as int / self.mesurement_count as int,
    {
        self.total_dur / (self.mesurement_count as u64)
    }
}

/// Addition that wraps around at the type maximum, so the
/// counters keep counting over a long run.
pub open spec fn wadd32(a: u32, b: u32) -> u32 {
    if a + b <= u32::MAX {
        (a + b) as u32
    } else {
        (a + b - 0x1_0000_0000) as u32
    }
}

/// Adds counters, wrapping around on overflow.
pub fn wrapping_add_u32(a: u32, b: u32) -> (r: u32)
    ensures
        r == wadd32(a, b),
{
    if a <= u32::MAX - b {
        a + b
    } else {
        b - (u32::MAX - a) - 1
    }
}

/// Per-node traffic counters, rendered as one CSV line per flush.
pub struct Stats {
    pub creation_time: u64,
    pub own_id: NodeID,
    pub target_id: NodeID,
    pub traffic_generator: TrafficGeneratorType,
    pub data_sent: u32,
    pub packets_sent: u32,
    pub reports_sent: u32,
    pub natives_sent: u32,
    pub coded_sent: u32,
    pub data_received: u32,
    pub packets_received: u32,
    pub reports_received: u32,
    pub natives_received: u32,
    pub decoded_received: u32,
    pub coded_received: u32,
    pub cache_hits: u32,
    pub cache_misses: u32,
}

/// The CSV rendering of a traffic generator kind.
pub open spec fn tgt_str(t: TrafficGeneratorType) -> Seq<char> {
    match t {
        TrafficGeneratorType::Disabled => "None"@,
        TrafficGeneratorType::Greedy => "Greedy"@,
        TrafficGeneratorType::Poisson(m) => "Poisson("@ + dec_str(m as nat) + ")"@,
        TrafficGeneratorType::Random(m) => "Random("@ + dec_str(m as nat) + ")"@,
        TrafficGeneratorType::Periodic(ms) => "Periodic("@ + dec_str(ms as nat) + ")"@,
    }
}

/// Renders a traffic generator kind for the CSV log.
pub fn tgt_to_string(t: &TrafficGeneratorType) -> (r: String)
    ensures
        r@ == tgt_str(*t),
{
    match t {
        TrafficGeneratorType::Disabled => String::from_str("None"),
        TrafficGeneratorType::Greedy => String::from_str("Greedy"),
        TrafficGeneratorType::Poisson(m) => {
            let mut s = String::from_str("Poisson(");
            let num = u32_to_string(*m);
            s.append(num.as_str());
            s.append(")");
            proof {
                assert(s@ =~= tgt_str(*t));
            }
            s
        },
        TrafficGeneratorType::Random(m) => {
            let mut s = String::from_str("Random(");
            let num = u32_to_string(*m);
            s.append(num.as_str());
            s.append(")");
            proof {
                assert(s@ =~= tgt_str(*t));
            }
            s
        },
        TrafficGeneratorType::Periodic(ms) => {
            let mut s = String::from_str("Periodic(");
            let num = u64_to_string(*ms);
            s.append(num.as_str());
            s.append(")");
            proof {
                assert(s@ =~= tgt_str(*t));
            }
            s
        },
    }
}

impl Stats {
    /// What counting one transmitted packet does: the canonical receiver
    /// becomes the target, the totals grow, and the per-variant counter
    /// matching the header ticks up.
    pub open spec fn sent_post(pre: Stats, post: Stats, p: crate::packet::PacketV) -> bool {
        &&& post.packets_sent == wadd32(pre.packets_sent, 1)
        &&& post.data_sent == wadd32(pre.data_sent, p.data.len() as u32)
        &&& match p.coding_header {
            CodingHeaderV::Native(info) => post.target_id == info.nexthop && post.natives_sent
                == wadd32(pre.natives_sent, 1) && post.coded_sent == pre.coded_sent
                && post.reports_sent == pre.reports_sent,
            CodingHeaderV::Encoded(infos) => post.target_id == infos[0].nexthop && post.coded_sent
                == wadd32(pre.coded_sent, 1) && post.natives_sent == pre.natives_sent
                && post.reports_sent == pre.reports_sent,
            CodingHeaderV::Control(id) => post.target_id == id && post.reports_sent == wadd32(
                pre.reports_sent,
                1,
            ) && post.natives_sent == pre.natives_sent && post.coded_sent == pre.coded_sent,
        }
        &&& post.data_received == pre.data_received
        &&& post.packets_received == pre.packets_received
        &&& post.reports_received == pre.reports_received
        &&& post.natives_received == pre.natives_received
        &&& post.decoded_received == pre.decoded_received
        &&& post.coded_received == pre.coded_received
        &&& post.cache_hits == pre.cache_hits
        &&& post.cache_misses == pre.cache_misses
        &&& post.own_id == pre.own_id
        &&& post.creation_time == pre.creation_time
        &&& post.traffic_generator == pre.traffic_generator
    }

    /// What counting one received payload does, after the decode attempt
    /// succeeded or failed.
    pub open spec fn received_post(
        pre: Stats,
        post: Stats,
        sender: NodeID,
        data_size: u32,
        decode_successful: bool,
    ) -> bool {
        post == (Stats {
            target_id: sender,
            data_received: wadd32(pre.data_received, data_size),
            packets_received: wadd32(pre.packets_received, 1),
            decoded_received: if decode_successful {
                wadd32(pre.decoded_received, 1)
            } else {
                pre.decoded_received
            },
            coded_received: if decode_successful {
                pre.coded_received
            } else {
                wadd32(pre.coded_received, 1)
            },
            ..pre
        })
    }

    /// Fresh counters for one node; `now_us` is the creation time in
    /// microseconds of the injected clock.
    pub fn new(node_id: NodeID, traffic_generator: TrafficGeneratorType, now_us: u64) -> (r: Self)
        ensures
            r == (Stats {
                creation_time: now_us,
                own_id: node_id,
                target_id: node_id,
                traffic_generator,
                data_sent: 0u32,
                packets_sent: 0u32,
                reports_sent: 0u32,
                natives_sent: 0u32,
                coded_sent: 0u32,
                data_received: 0u32,
                packets_received: 0u32,
                reports_received: 0u32,
                natives_received: 0u32,
                decoded_received: 0u32,
                coded_received: 0u32,
                cache_hits: 0u32,
                cache_misses: 0u32,
            }),
    {
        Stats {
            creation_time: now_us,
            own_id: node_id,
            target_id: node_id,
            traffic_generator,
            data_sent: 0,
            packets_sent: 0,
            reports_sent: 0,
            natives_sent: 0,
            coded_sent: 0,
            data_received: 0,
            packets_received: 0,
            reports_received: 0,
            natives_received: 0,
            decoded_received: 0,
            coded_received: 0,
            cache_hits: 0,
            cache_misses: 0,
        }
    }

    /// The column names of the CSV log.
    pub fn file_header(&self) -> (r: String)
        ensures
            r@
                == "time_us,node_id,target_id,traffic_generator,data_sent,packets_sent,reports_sent,natives_sent,coded_sent,data_received,packets_received,reports_received,natives_received,decoded_received,coded_received,cache_hits,cache_misses"@,
    {
        String::from_str(
            "time_us,node_id,target_id,traffic_generator,data_sent,packets_sent,reports_sent,natives_sent,coded_sent,data_received,packets_received,reports_received,natives_received,decoded_received,coded_received,cache_hits,cache_misses",
        )
    }

    /// The elapsed time this row reports: time since creation, never
    /// negative.
    pub open spec fn spec_elapsed(&self, now_us: u64) -> nat {
        if now_us >= self.creation_time {
            (now_us - self.creation_time) as nat
        } else {
            0
        }
    }

    /// The CSV row of these counters at time `now_us`.
    pub open spec fn spec_csv(&self, now_us: u64) -> Seq<char> {
        dec_str(self.spec_elapsed(now_us)) + ","@ + seq![self.own_id.0] + ","@ + seq![
            self.target_id.0,
        ] + ","@ + tgt_str(self.traffic_generator) + ","@ + dec_str(self.data_sent as nat) + ","@
            + dec_str(self.packets_sent as nat) + ","@ + dec_str(self.reports_sent as nat) + ","@
            + dec_str(self.natives_sent as nat) + ","@ + dec_str(self.coded_sent as nat) + ","@
            + dec_str(self.data_received as nat) + ","@ + dec_str(self.packets_received as nat)
            + ","@ + dec_str(self.reports_received as nat) + ","@ + dec_str(
            self.natives_received as nat,
        ) + ","@ + dec_str(self.decoded_received as nat) + ","@ + dec_str(
            self.coded_received as nat,
        ) + ","@ + dec_str(self.cache_hits as nat) + ","@ + dec_str(self.cache_misses as nat)
    }

    /// Renders one CSV row of these counters.
    pub fn log_data(&self, now_us: u64) -> (r: String)
        ensures
            r@ == self.spec_csv(now_us),
    {
        let elapsed: u64 = if now_us >= self.creation_time {
            now_us - self.creation_time
        } else {
            0
        };
        let mut s = u64_to_string(elapsed);
        push_char(&mut s, ',');
        push_char(&mut s, self.own_id.0);
        push_char(&mut s, ',');
        push_char(&mut s, self.target_id.0);
        push_char(&mut s, ',');
        let tgt = tgt_to_string(&self.traffic_generator);
        s.append(tgt.as_str());
        push_char(&mut s, ',');
        let c0 = u32_to_string(self.data_sent);
        s.append(c0.as_str());
        push_char(&mut s, ',');
        let c1 = u32_to_string(self.packets_sent);
        s.append(c1.as_str());
        push_char(&mut s, ',');
        let c2 = u32_to_string(self.reports_sent);
        s.append(c2.as_str());
        push_char(&mut s, ',');
        let c3 = u32_to_string(self.natives_sent);
        s.append(c3.as_str());
        push_char(&mut s, ',');
        let c4 = u32_to_string(self.coded_sent);
        s.append(c4.as_str());
        push_char(&mut s, ',');
        let c5 = u32_to_string(self.data_received);
        s.append(c5.as_str());
        push_char(&mut s, ',');
        let c6 = u32_to_string(self.packets_received);
        s.append(c6.as_str());
        push_char(&mut s, ',');
        let c7 = u32_to_string(self.reports_received);
        s.append(c7.as_str());
        push_char(&mut s, ',');
        let c8 = u32_to_string(self.natives_received);
        s.append(c8.as_str());
        push_char(&mut s, ',');
        let c9 = u32_to_string(self.decoded_received);
        s.append(c9.as_str());
        push_char(&mut s, ',');
        let c10 = u32_to_string(self.coded_received);
        s.append(c10.as_str());
        push_char(&mut s, ',');
        let c11 = u32_to_string(self.cache_hits);
        s.append(c11.as_str());
        push_char(&mut s, ',');
        let c12 = u32_to_string(self.cache_misses);
        s.append(c12.as_str());
        proof {
            assert(","@ =~= seq![',']) by {
                reveal_strlit(",");
            }
            assert(s@ =~= self.spec_csv(now_us));
        }
        s
    }

    /// Counts one transmitted packet, classifying it by header; the
    /// canonical receiver becomes the new target.
    pub fn add_sent(&mut self, packet: &Packet)
        requires
            !(packet@.coding_header matches CodingHeaderV::Encoded(infos) && infos.len() == 0),
        ensures
            Self::sent_post(*old(self), *final(self), packet@),
    {
        let receiver = packet.canonical_receiver();
        let Some(receiver) = receiver else {
            proof {
                assert(false);
            }
            unreached()
        };
        self.target_id = receiver;
        self.packets_sent = wrapping_add_u32(self.packets_sent, 1);
        let len = packet.data().len();
        self.data_sent = wrapping_add_u32(self.data_sent, #[verifier::truncate] (len as u32));
        match packet.coding_header() {
            crate::packet::CodingHeader::Native(_) => {
                self.natives_sent = wrapping_add_u32(self.natives_sent, 1);
            },
            crate::packet::CodingHeader::Encoded(_) => {
                self.coded_sent = wrapping_add_u32(self.coded_sent, 1);
            },
            crate::packet::CodingHeader::Control(_) => {
                self.reports_sent = wrapping_add_u32(self.reports_sent, 1);
            },
        }
    }

    /// Counts one received packet before any decode attempt; the sender
    /// becomes the new target.
    pub fn add_received_before_decode_attempt(&mut self, packet: &Packet)
        ensures
            final(self).target_id == packet@.sender,
            final(self).packets_received == wadd32(old(self).packets_received, 1),
            match packet@.coding_header {
                CodingHeaderV::Native(_) => final(self).natives_received == wadd32(
                    old(self).natives_received,
                    1,
                ) && final(self).reports_received == old(self).reports_received,
                CodingHeaderV::Encoded(_) => final(self).natives_received == old(self).natives_received && final(self).reports_received == old(self).reports_received,
                CodingHeaderV::Control(_) => final(self).reports_received == wadd32(
                    old(self).reports_received,
                    1,
                ) && final(self).natives_received == old(self).natives_received,
            },
            final(self).data_sent == old(self).data_sent,
            final(self).packets_sent == old(self).packets_sent,
            final(self).reports_sent == old(self).reports_sent,
            final(self).natives_sent == old(self).natives_sent,
            final(self).coded_sent == old(self).coded_sent,
            final(self).data_received == old(self).data_received,
            final(self).decoded_received == old(self).decoded_received,
            final(self).coded_received == old(self).coded_received,
            final(self).cache_hits == old(self).cache_hits,
            final(self).cache_misses == old(self).cache_misses,
            final(self).own_id == old(self).own_id,
            final(self).creation_time == old(self).creation_time,
            final(self).traffic_generator == old(self).traffic_generator,
    {
        self.target_id = packet.sender();
        self.packets_received = wrapping_add_u32(self.packets_received, 1);
        match packet.coding_header() {
            crate::packet::CodingHeader::Native(_) => {
                self.natives_received = wrapping_add_u32(self.natives_received, 1);
            },
            crate::packet::CodingHeader::Encoded(_) => {},
            crate::packet::CodingHeader::Control(_) => {
                self.reports_received = wrapping_add_u32(self.reports_received, 1);
            },
        }
    }

    /// Counts one received payload after the decode attempt: decoded on
    /// success, still coded on failure.
    pub fn add_received_after_decode_attempt(
        &mut self,
        sender: NodeID,
        data_size: u32,
        decode_successful: bool,
    )
        ensures
            Self::received_post(*old(self), *final(self), sender, data_size, decode_successful),
    {
        self.target_id = sender;
        self.data_received = wrapping_add_u32(self.data_received, data_size);
        self.packets_received = wrapping_add_u32(self.packets_received, 1);
        if decode_successful {
            self.decoded_received = wrapping_add_u32(self.decoded_received, 1);
        } else {
            self.coded_received = wrapping_add_u32(self.coded_received, 1);
        }
    }

    /// Counts one pool hit while decoding for `node`.
    pub fn add_cache_hit(&mut self, node: &NodeID)
        ensures
            *final(self) == (Stats {
                target_id: *node,
                cache_hits: wadd32(old(self).cache_hits, 1),
                ..*old(self)
            }),
    {
        self.target_id = *node;
        self.cache_hits = wrapping_add_u32(self.cache_hits, 1);
    }

    /// Counts one pool miss while decoding for `node`.
    pub fn add_cache_miss(&mut self, node: &NodeID)
        ensures
            *final(self) == (Stats {
                target_id: *node,
                cache_misses: wadd32(old(self).cache_misses, 1),
                ..*old(self)
            }),
    {
        self.target_id = *node;
        self.cache_misses = wrapping_add_u32(self.cache_misses, 1);
    }
}

} // verus!
