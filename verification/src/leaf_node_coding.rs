use vstd::prelude::*;

use crate::coding::CodingError;
use crate::decode_util::{
    decode, ids_for_decoding, is_next_hop, others_of, pool_has_info, remove_from_pool,
    spec_is_next_hop, target_count, xor_fold_at,
};
use crate::packet::{
    acked_infos, view_acks, Ack, AckV, CodingHeader, CodingHeaderV, CodingInfo, Packet,
    PacketBuilder, PacketV,
};
use crate::packet_data::PacketData;
use crate::packet_pool::{drop_indices, PPEntryV, SimplePacketPool};
use crate::retrans_queue::{
    due, lemma_remove_infos_push, remove_infos, RetransEntryV, RetransQueue,
};
use crate::topology::Topology;
use crate::traffic_generator::{TGStrategy, TrafficGenerator};

verus! {

/// A leaf's coding engine: it originates natives from its traffic
/// generator, re-sends them until acknowledged, decodes encoded
/// transmissions addressed to it out of its pool of own natives, and
/// piggybacks its acknowledgements on whatever it sends next.
pub struct LeafNodeCoding<S: TGStrategy> {
    generator: TrafficGenerator<S>,
    packet_pool: SimplePacketPool,
    retrans_queue: RetransQueue,
    acks: Vec<CodingInfo>,
    last_packet_send: u64,
    control_packet_duration: u64,
}

impl<S: TGStrategy> LeafNodeCoding<S> {
    /// The packet pool, as a value for specifications.
    pub closed spec fn pool(&self) -> SimplePacketPool {
        self.packet_pool
    }

    /// The retransmission queue, as a value for specifications.
    pub closed spec fn queue(&self) -> RetransQueue {
        self.retrans_queue
    }

    /// The traffic generator, as a value for specifications.
    pub closed spec fn gen(&self) -> TrafficGenerator<S> {
        self.generator
    }

    /// The pending acknowledgements this leaf still owes its peers.
    pub closed spec fn acks_v(&self) -> Seq<CodingInfo> {
        self.acks@
    }

    /// When this leaf last transmitted, in clock milliseconds.
    pub closed spec fn spec_last_send(&self) -> u64 {
        self.last_packet_send
    }

    /// The idle threshold before a control packet is emitted.
    pub closed spec fn spec_control_duration(&self) -> u64 {
        self.control_packet_duration
    }

    /// Every component is healthy.
    pub open spec fn wf(&self) -> bool {
        &&& self.pool().wf()
        &&& self.queue().wf()
        &&& self.gen().wf()
    }

    /// Whether the configuration of both sides agrees.
    pub open spec fn same_config(&self, other: &Self) -> bool {
        &&& self.pool().spec_max_size() == other.pool().spec_max_size()
        &&& self.queue().same_config(&other.queue())
        &&& self.spec_control_duration() == other.spec_control_duration()
        &&& self.gen().spec_sender() == other.gen().spec_sender()
        &&& self.gen().spec_txlist() == other.gen().spec_txlist()
    }

    /// A control packet is due when acknowledgements are pending and the
    /// leaf has been silent for longer than the control threshold.
    pub open spec fn spec_should_tx_control(&self, now: u64) -> bool {
        &&& self.acks_v().len() > 0
        &&& now >= self.spec_last_send()
        &&& now - self.spec_last_send() > self.spec_control_duration()
    }

    pub fn new(
        generator: TrafficGenerator<S>,
        packet_pool_size: usize,
        round_trip_time: u64,
        max_retrans_amount: u8,
        control_packet_duration: u64,
        now: u64,
    ) -> (r: Self)
        requires
            packet_pool_size >= 1,
            generator.wf(),
        ensures
            r.wf(),
            r.pool()@ == Seq::<PPEntryV>::empty(),
            r.queue()@ == Seq::<RetransEntryV>::empty(),
            r.acks_v() == Seq::<CodingInfo>::empty(),
            r.gen() == generator,
            r.pool().spec_max_size() == packet_pool_size,
            r.queue().spec_max_count() == packet_pool_size,
            r.queue().spec_retrans_duration() == round_trip_time,
            r.queue().spec_max_retrans() == max_retrans_amount,
            r.spec_control_duration() == control_packet_duration,
            r.spec_last_send() == now,
    {
        Self {
            generator,
            packet_pool: SimplePacketPool::new(packet_pool_size),
            retrans_queue: RetransQueue::new(packet_pool_size, round_trip_time, max_retrans_amount),
            acks: Vec::new(),
            last_packet_send: now,
            control_packet_duration,
        }
    }

    /// A control packet is due when acknowledgements are pending and the
    /// leaf has been silent for longer than the control threshold.
    pub fn should_tx_control(&self, now: u64) -> (r: bool)
        ensures
            r == self.spec_should_tx_control(now),
    {
        if self.acks.len() == 0 {
            return false;
        }
        now >= self.last_packet_send && now - self.last_packet_send
            > self.control_packet_duration
    }

    /// Records that a packet just left this leaf.
    pub fn update_last_packet_send(&mut self, now: u64)
        requires
            old(self).wf(),
        ensures
            final(self).wf(),
            final(self).same_config(old(self)),
            final(self).pool() == old(self).pool(),
            final(self).queue() == old(self).queue(),
            final(self).gen() == old(self).gen(),
            final(self).acks_v() == old(self).acks_v(),
            final(self).spec_last_send() == now,
    {
        self.last_packet_send = now;
    }

    /// Drops every queued native acknowledged by the piggybacked
    /// acknowledgements of a received packet.
    fn absorb_acks(&mut self, acks: &Vec<Ack>)
        requires
            old(self).wf(),
        ensures
            final(self).wf(),
            final(self).same_config(old(self)),
            final(self).pool() == old(self).pool(),
            final(self).gen() == old(self).gen(),
            final(self).acks_v() == old(self).acks_v(),
            final(self).spec_last_send() == old(self).spec_last_send(),
            final(self).queue()@ == remove_infos(
                old(self).queue()@,
                acked_infos(view_acks(acks@)),
            ),
    {
        let ghost q0 = self.queue()@;
        let ghost av = view_acks(acks@);
        let ghost mut done: Seq<CodingInfo> = Seq::empty();
        let mut i: usize = 0;
        proof {
            assert(av.subrange(0, 0) =~= Seq::<AckV>::empty());
            assert(done =~= acked_infos(av.subrange(0, 0)));
        }
        while i < acks.len()
            invariant
                i <= acks@.len(),
                av == view_acks(acks@),
                av.len() == acks@.len(),
                self.wf(),
                self.same_config(old(self)),
                self.pool() == old(self).pool(),
                self.gen() == old(self).gen(),
                self.acks_v() == old(self).acks_v(),
                self.spec_last_send() == old(self).spec_last_send(),
                done == acked_infos(av.subrange(0, i as int)),
                self.queue()@ == remove_infos(q0, done),
            decreases acks@.len() - i,
        {
            let ack = &acks[i];
            proof {
                assert(av[i as int] == acks@[i as int]@);
            }
            let ghost mut taken: Seq<CodingInfo> = Seq::empty();
            let mut t: usize = 0;
            proof {
                assert(ack.packets@.subrange(0, 0) =~= Seq::<CodingInfo>::empty());
                assert(done + taken =~= done);
            }
            while t < ack.packets.len()
                invariant
                    t <= ack.packets@.len(),
                    av == view_acks(acks@),
                    i < acks@.len(),
                    ack == &acks@[i as int],
                    self.wf(),
                    self.same_config(old(self)),
                    self.pool() == old(self).pool(),
                    self.gen() == old(self).gen(),
                    self.acks_v() == old(self).acks_v(),
                    self.spec_last_send() == old(self).spec_last_send(),
                    taken == ack.packets@.subrange(0, t as int),
                    self.queue()@ == remove_infos(q0, done + taken),
                decreases ack.packets@.len() - t,
            {
                let info = ack.packets[t];
                self.retrans_queue.remove_packet(&info);
                proof {
                    lemma_remove_infos_push(q0, done + taken, info);
                    taken = taken.push(info);
                    assert(taken =~= ack.packets@.subrange(0, t + 1 as int));
                    assert(done + taken =~= (done + ack.packets@.subrange(0, t as int)).push(info));
                }
                t = t + 1;
            }
            proof {
                assert(taken =~= ack.packets@);
                assert(av.subrange(0, i + 1 as int).drop_last() =~= av.subrange(0, i as int));
                assert(av.subrange(0, i + 1 as int).last() == av[i as int]);
                assert(av[i as int].packets == ack.packets@);
                done = done + taken;
                assert(done =~= acked_infos(av.subrange(0, i + 1 as int)));
            }
            i = i + 1;
        }
        proof {
            assert(av.subrange(0, av.len() as int) =~= av);
        }
    }

    /// Takes one received frame. A frame from another leaf is returned
    /// untouched as an overhearing opportunity. A frame from the relay
    /// first settles piggybacked acknowledgements; a native or control is
    /// then passed through, and an encoded frame addressed to this leaf
    /// is decoded out of the pool, consuming the pooled natives used and
    /// recording an acknowledgement for the recovered one.
    /// Everything one received frame does to a leaf engine, and the
    /// verdict it returns: frames from other leaves pass through
    /// untouched; the relay's frames first settle acknowledgements, and an
    /// encoded frame addressed to this leaf decodes out of the pool,
    /// consuming the pooled natives used and recording an acknowledgement
    /// for the recovered one.
    pub open spec fn rx_post(
        pre: Self,
        post: Self,
        p: PacketV,
        topo: Topology,
        r: Result<Option<PacketData>, CodingError>,
    ) -> bool {
        &&& post.wf()
        &&& post.same_config(&pre)
        &&& post.gen() == pre.gen()
        &&& post.spec_last_send() == pre.spec_last_send()
        &&& (p.sender != topo.spec_relay() ==> {
            &&& r matches Ok(o) && (o matches Some(d) && d@ == p.data)
            &&& post.pool() == pre.pool()
            &&& post.queue() == pre.queue()
            &&& post.acks_v() == pre.acks_v()
        })
        &&& (p.sender == topo.spec_relay() ==> {
            &&& post.queue()@ == remove_infos(pre.queue()@, acked_infos(p.ack_header))
            &&& match p.coding_header {
                CodingHeaderV::Native(_) | CodingHeaderV::Control(_) => {
                    &&& r matches Ok(o) && (o matches Some(d) && d@ == p.data)
                    &&& post.pool() == pre.pool()
                    &&& post.acks_v() == pre.acks_v()
                },
                CodingHeaderV::Encoded(infos) => {
                    if !spec_is_next_hop(topo.spec_id(), infos) {
                        &&& r matches Ok(o) && (o matches Some(d) && d@ == p.data)
                        &&& post.pool() == pre.pool()
                        &&& post.acks_v() == pre.acks_v()
                    } else if target_count(topo.spec_id(), infos) == 1 && (forall|j: int|
                        0 <= j < infos.len() && infos[j].nexthop != topo.spec_id()
                            ==> pool_has_info(pre.pool()@, #[trigger] infos[j])) {
                        &&& r matches Ok(o) && o is Some
                        &&& exists|idxs: Seq<usize>, my_info: CodingInfo|
                            {
                                &&& (exists|j: int|
                                    0 <= j < infos.len() && infos[j].nexthop == topo.spec_id()
                                        && my_info == infos[j])
                                &&& idxs.len() == others_of(topo.spec_id(), infos).len()
                                &&& (forall|k: int|
                                    0 <= k < idxs.len() ==> #[trigger] idxs[k] < pre.pool()@.len()
                                        && pre.pool()@[idxs[k] as int].0 == others_of(
                                        topo.spec_id(),
                                        infos,
                                    )[k])
                                &&& (r matches Ok(o) && o matches Some(d) && d@ == xor_fold_at(
                                    p.data,
                                    idxs,
                                    pre.pool()@,
                                ))
                                &&& post.pool()@ == drop_indices(pre.pool()@, idxs)
                                &&& post.acks_v() == pre.acks_v().push(my_info)
                            }
                    } else {
                        &&& r matches Err(CodingError::DecodeError(_))
                        &&& post.pool() == pre.pool()
                        &&& post.acks_v() == pre.acks_v()
                    }
                },
            }
        })
    }

    pub fn handle_rx(&mut self, packet: &Packet, topology: &Topology) -> (r: Result<
        Option<PacketData>,
        CodingError,
    >)
        requires
            old(self).wf(),
            packet@.wf(),
        ensures
            Self::rx_post(*old(self), *final(self), packet@, *topology, r),
    {
        let is_from_relay = packet.sender() == topology.relay();
        if !is_from_relay {
            // an overhearing opportunity for upper layers; not pooled here
            return Ok(Some(packet.data().clone()));
        }
        self.absorb_acks(packet.ack_header());
        match packet.coding_header() {
            CodingHeader::Native(_) => Ok(Some(packet.data().clone())),
            CodingHeader::Control(_) => Ok(Some(packet.data().clone())),
            CodingHeader::Encoded(coding_info) => {
                if !is_next_hop(topology.id(), coding_info) {
                    // overheard but not decodable here
                    return Ok(Some(packet.data().clone()));
                }
                let partition = ids_for_decoding(topology.id(), coding_info, &self.packet_pool);
                let (ids, info) = match partition {
                    Ok(p) => p,
                    Err(e) => {
                        return Err(e);
                    },
                };
                let decoded_data = decode(&ids, packet.data(), &self.packet_pool);
                remove_from_pool(&mut self.packet_pool, &ids);
                self.acks.push(info);
                proof {
                    assert(self.acks@ =~= old(self).acks_v().push(info));
                }
                Ok(Some(decoded_data))
            },
        }
    }

    /// Produces the leaf's next transmission, if one is owed: first any
    /// native due for retransmission; then back-pressure when the queue is
    /// full; then a control packet when acknowledgements have waited long
    /// enough; otherwise a fresh native from the traffic generator, which
    /// is pooled and queued for retransmission. Every outgoing packet
    /// carries the pending acknowledgements, which are then cleared.
    /// Everything one transmit tick does to a leaf engine, and what it
    /// hands back: a due retransmission first, then back-pressure, then a
    /// control packet, then a fresh native numbered sequentially and
    /// addressed round-robin; every outgoing packet is well-formed and
    /// carries the pending acknowledgements, which are then cleared.
    pub open spec fn tx_post(
        pre: Self,
        post: Self,
        topo: Topology,
        now: u64,
        r: Result<Option<Packet>, CodingError>,
    ) -> bool {
        &&& post.wf()
        &&& post.same_config(&pre)
        &&& post.spec_last_send() == pre.spec_last_send()
        &&& (r matches Ok(o) ==> (o matches Some(p) ==> p@.wf()))
        &&& ({
            let q = pre.queue();
                let dur = q.spec_retrans_duration();
                if exists|i: int| 0 <= i < q@.len() && due(#[trigger] q@[i], now, dur) {
                    r matches Ok(p) && (p matches Some(p) && exists|i: int|
                        {
                            &&& 0 <= i < q@.len()
                            &&& due(#[trigger] q@[i], now, dur)
                            &&& (forall|j: int| 0 <= j < i ==> !due(q@[j], now, dur))
                            &&& p@.sender == topo.spec_id()
                            &&& p@.coding_header == CodingHeaderV::Native(q@[i].info)
                            &&& p@.data == q@[i].data
                            &&& p@.wf()
                            &&& p@.ack_header == seq![
                                AckV {
                                    source: topo.spec_id(),
                                    packets: pre.acks_v(),
                                },
                            ]
                            &&& post.pool()@ == (if pre.pool()@.len() >= pre.pool().spec_max_size() {
                                pre.pool()@.subrange(1, pre.pool()@.len() as int).push(
                                    (q@[i].info, q@[i].data),
                                )
                            } else {
                                pre.pool()@.push((q@[i].info, q@[i].data))
                            })
                            &&& post.queue()@ == (if q@[i].retrans_count + 1
                                >= q.spec_max_retrans() {
                                q@.remove(i)
                            } else {
                                q@.update(
                                    i,
                                    RetransEntryV {
                                        retrans_count: (q@[i].retrans_count + 1) as u8,
                                        last_trans: now,
                                        ..q@[i]
                                    },
                                )
                            })
                        }) && post.acks_v() == Seq::<CodingInfo>::empty() && post.gen() == pre.gen()
                } else if q@.len() >= q.spec_max_count() {
                    r matches Err(CodingError::FullRetransQueue(_)) && post.pool() == pre.pool() && post.queue()@ == pre.queue()@ && post.acks_v()
                        == pre.acks_v() && post.gen() == pre.gen()
                } else if pre.spec_should_tx_control(now) {
                    r matches Ok(p) && (p matches Some(p) && {
                        &&& p@.sender == topo.spec_id()
                        &&& p@.coding_header == CodingHeaderV::Control(topo.spec_txlist()[0])
                        &&& p@.ack_header == seq![
                            AckV { source: topo.spec_id(), packets: pre.acks_v() },
                        ]
                        &&& p@.data.len() == 0
                        &&& p@.wf()
                    }) && post.acks_v() == Seq::<CodingInfo>::empty() && post.pool()
                        == pre.pool() && post.queue()@ == pre.queue()@ && post.gen() == pre.gen()
                } else {
                    match r {
                        Ok(o) => match o {
                            None => post.pool() == pre.pool() && post.queue()@ == pre.queue()@
                                && post.acks_v() == pre.acks_v() && post.gen().spec_tx_index()
                                == pre.gen().spec_tx_index() && post.gen().spec_packet_id()
                                == pre.gen().spec_packet_id(),
                            Some(p) => {
                                &&& p@.coding_header matches CodingHeaderV::Native(info) && {
                                    &&& info.source == topo.spec_id()
                                    &&& info.id == TrafficGenerator::<S>::next_id_of(
                                        pre.gen().spec_packet_id(),
                                    )
                                    &&& info.nexthop == pre.gen().spec_txlist()[pre.gen().next_tx_of(
                                        pre.gen().spec_tx_index(),
                                    )]
                                    &&& post.gen().spec_tx_index() == pre.gen().next_tx_of(
                                        pre.gen().spec_tx_index(),
                                    )
                                    &&& post.gen().spec_packet_id()
                                        == TrafficGenerator::<S>::next_id_of(
                                        pre.gen().spec_packet_id(),
                                    )
                                    &&& p@.sender == topo.spec_id()
                                    &&& p@.data.len() > 0
                                    &&& p@.wf()
                                    &&& p@.ack_header == seq![
                                        AckV {
                                            source: topo.spec_id(),
                                            packets: pre.acks_v(),
                                        },
                                    ]
                                    &&& post.acks_v() == Seq::<CodingInfo>::empty()
                                    &&& post.queue()@ == pre.queue()@.push(
                                        RetransEntryV {
                                            data: p@.data,
                                            info: info,
                                            retrans_count: 0,
                                            last_trans: now,
                                        },
                                    )
                                    &&& post.pool()@ == (if pre.pool()@.len() >= pre.pool().spec_max_size() {
                                        pre.pool()@.subrange(
                                            1,
                                            pre.pool()@.len() as int,
                                        ).push((info, p@.data))
                                    } else {
                                        pre.pool()@.push((info, p@.data))
                                    })
                                }
                            },
                        },
                        Err(e) => e matches CodingError::DefectPacketError(_) && post.pool()
                            == pre.pool() && post.queue()@ == pre.queue()@
                            && post.acks_v() == pre.acks_v(),
                    }
                }
            })
    }

    pub fn handle_tx(&mut self, topology: &Topology, now: u64) -> (r: Result<
        Option<Packet>,
        CodingError,
    >)
        requires
            old(self).wf(),
            topology.spec_txlist().len() > 0,
            old(self).gen().spec_sender() == topology.spec_id(),
        ensures
            Self::tx_post(*old(self), *final(self), *topology, now, r),
    {
        let due_native = self.retrans_queue.packet_to_retrans(now);
        if let Some((info, data)) = due_native {
            let ack = Ack {
                source: topology.id(),
                packets: vstd::slice::slice_to_vec(self.acks.as_slice()),
            };
            self.acks.clear();
            let mut ack_vec: Vec<Ack> = Vec::new();
            ack_vec.push(ack);
            proof {
                assert(view_acks(ack_vec@) =~= seq![
                    AckV { source: topology.spec_id(), packets: old(self).acks_v() },
                ]);
                assert(self.acks@ =~= Seq::<CodingInfo>::empty());
            }
            let built = PacketBuilder::new().sender(topology.id()).data(data).native_header(
                info,
            ).ack_header(ack_vec).build();
            let packet = match built {
                Ok(p) => p,
                Err(_) => {
                    proof {
                        assert(false);
                    }
                    unreached()
                },
            };
            self.packet_pool.push_packet(packet.clone());
            return Ok(Some(packet));
        }
        if self.retrans_queue.is_full() {
            return Err(
                CodingError::FullRetransQueue(
                    String::from_str(
                        "cannot send a new packet without dropping an older one",
                    ),
                ),
            );
        }
        if self.should_tx_control(now) {
            let receiver = topology.txlist()[0];
            let ack = Ack {
                source: topology.id(),
                packets: vstd::slice::slice_to_vec(self.acks.as_slice()),
            };
            self.acks.clear();
            let mut ack_vec: Vec<Ack> = Vec::new();
            ack_vec.push(ack);
            proof {
                assert(view_acks(ack_vec@) =~= seq![
                    AckV { source: topology.spec_id(), packets: old(self).acks_v() },
                ]);
                assert(self.acks@ =~= Seq::<CodingInfo>::empty());
            }
            let built = PacketBuilder::new().sender(topology.id()).control_header(
                receiver,
            ).ack_header(ack_vec).build();
            let control_packet = match built {
                Ok(p) => p,
                Err(_) => {
                    proof {
                        assert(false);
                    }
                    unreached()
                },
            };
            return Ok(Some(control_packet));
        }
        let produced = self.generator.generate(now);
        let Some(builder) = produced else {
            return Ok(None);
        };
        let ack = Ack {
            source: topology.id(),
            packets: vstd::slice::slice_to_vec(self.acks.as_slice()),
        };
        let mut ack_vec: Vec<Ack> = Vec::new();
        ack_vec.push(ack);
        proof {
            assert(view_acks(ack_vec@) =~= seq![
                AckV { source: topology.spec_id(), packets: old(self).acks_v() },
            ]);
        }
        let built = builder.ack_header(ack_vec).build();
        let packet = match built {
            Ok(p) => p,
            Err(_) => {
                // the generator produced an unfinished or invalid native;
                // keep the pending acknowledgements and report it
                return Err(
                    CodingError::DefectPacketError(
                        String::from_str("the traffic generator produced an invalid native"),
                    ),
                );
            },
        };
        self.acks.clear();
        proof {
            assert(self.acks@ =~= Seq::<CodingInfo>::empty());
        }
        self.packet_pool.push_packet(packet.clone());
        let CodingHeader::Native(info) = packet.coding_header() else {
            proof {
                assert(false);
            }
            unreached()
        };
        self.retrans_queue.push_new((*info, packet.data().clone()), now);
        Ok(Some(packet))
    }
}

} // verus!
