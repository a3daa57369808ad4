use vstd::prelude::*;

use crate::coding::CodingError;
use crate::kbase::{kb_after_insert, SimpleKBase};
use crate::node_id::NodeID;
use crate::packet::{
    acked_infos, view_acks, Ack, AckV, CodingHeader, CodingHeaderV, CodingInfo, Packet,
    PacketBuilder, PacketV,
};
use crate::packet_data::{xor_bytes, PacketData};
use crate::packet_pool::{
    entry_v, first_for_nexthop, in_pool, lemma_first_for_nexthop_at, lemma_first_for_nexthop_none,
    lemma_first_for_nexthop_remove, lemma_remove_first_nexthop_at, remove_first_nexthop, PPEntry,
    PPEntryV, SimplePacketPool,
};
use crate::retrans_queue::{
    due, lemma_refresh_all_push, lemma_remove_first_info_elements, lemma_remove_first_info_len,
    lemma_remove_infos_push, refresh_all, refresh_one, remove_infos, RetransEntryV, RetransQueue,
};
use crate::topology::Topology;

verus! {

/// The identities of a sequence of pooled natives, in order.
pub open spec fn infos_of(s: Seq<PPEntryV>) -> Seq<CodingInfo> {
    Seq::new(s.len(), |i: int| s[i].0)
}

/// The payloads of a sequence of pooled natives, in order.
pub open spec fn payloads_of(s: Seq<PPEntryV>) -> Seq<Seq<u8>> {
    Seq::new(s.len(), |i: int| s[i].1)
}

/// Mathematical values of a vector of pooled natives.
pub open spec fn entries_v(s: Seq<PPEntry>) -> Seq<PPEntryV> {
    Seq::new(s.len(), |i: int| entry_v(s[i]))
}

/// XOR of a sequence of payloads, folded left to right; the first
/// payload's length is kept throughout.
pub open spec fn xor_all(s: Seq<Seq<u8>>) -> Seq<u8>
    decreases s.len(),
{
    if s.len() == 0 {
        Seq::empty()
    } else if s.len() == 1 {
        s[0]
    } else {
        xor_bytes(xor_all(s.drop_last()), s.last())
    }
}

/// The XOR of payloads is as long as the first payload.
pub proof fn lemma_xor_all_len(s: Seq<Seq<u8>>)
    requires
        s.len() >= 1,
    ensures
        xor_all(s).len() == s[0].len(),
    decreases s.len(),
{
    if s.len() > 1 {
        lemma_xor_all_len(s.drop_last());
    }
}

/// The COPE decodability guarantee over a knowledge base: every recipient
/// of a mixed packet either owns a component (it is addressed to it) or
/// is known to possess it, so it can XOR every foreign component out.
pub open spec fn jointly_decodable(kb: SimpleKBase, infos: Seq<CodingInfo>) -> bool {
    forall|i: int, j: int|
        #![trigger infos[i].nexthop, infos[j].nexthop]
        0 <= i < infos.len() && 0 <= j < infos.len() ==> (infos[j].nexthop == infos[i].nexthop
            || kb.spec_knows(infos[i].nexthop, infos[j]))
}

/// No two components of an encoded packet may target the same nexthop:
/// the recipient could not isolate its own native otherwise.
pub open spec fn distinct_nexthops(infos: Seq<CodingInfo>) -> bool {
    forall|i: int, j: int|
        #![trigger infos[i].nexthop, infos[j].nexthop]
        0 <= i < j < infos.len() ==> infos[i].nexthop != infos[j].nexthop
}

/// Whether `cand` may join the components `infos`: its nexthop is fresh
/// and the widened set stays jointly decodable.
pub open spec fn can_code(kb: SimpleKBase, infos: Seq<CodingInfo>, cand: CodingInfo) -> bool {
    (forall|i: int| 0 <= i < infos.len() ==> (#[trigger] infos[i]).nexthop != cand.nexthop)
        && jointly_decodable(kb, infos.push(cand))
}

/// A jointly decodable set stays jointly decodable when any component is
/// removed: the remaining pairs were all checked before.
pub proof fn lemma_decodable_closed_under_removal(kb: SimpleKBase, infos: Seq<CodingInfo>, k: int)
    requires
        jointly_decodable(kb, infos),
        0 <= k < infos.len(),
    ensures
        jointly_decodable(kb, infos.remove(k)),
{
    let r = infos.remove(k);
    assert forall|i: int, j: int|
        0 <= i < r.len() && 0 <= j < r.len() implies (r[j].nexthop == r[i].nexthop
        || kb.spec_knows(r[i].nexthop, r[j])) by {
        let i0 = if i < k {
            i
        } else {
            i + 1
        };
        let j0 = if j < k {
            j
        } else {
            j + 1
        };
        assert(r[i] == infos[i0]);
        assert(r[j] == infos[j0]);
        assert(infos[j0].nexthop == infos[i0].nexthop || kb.spec_knows(
            infos[i0].nexthop,
            infos[j0],
        ));
    }
}

/// The pool after the relay pulls the listed coding candidates: for each
/// candidate in order, the oldest pooled native addressed to its nexthop
/// leaves the pool.
pub open spec fn pool_after_coding(s: Seq<PPEntryV>, comps: Seq<PPEntryV>) -> Seq<PPEntryV>
    decreases comps.len(),
{
    if comps.len() == 0 {
        s
    } else {
        pool_after_coding(remove_first_nexthop(s, comps[0].0.nexthop), comps.drop_first())
    }
}

/// Pulling one more candidate at the end removes it from the pool the
/// earlier ones left.
pub proof fn lemma_pool_after_coding_push(s: Seq<PPEntryV>, comps: Seq<PPEntryV>, x: PPEntryV)
    ensures
        pool_after_coding(s, comps.push(x)) == remove_first_nexthop(
            pool_after_coding(s, comps),
            x.0.nexthop,
        ),
    decreases comps.len(),
{
    let t = comps.push(x);
    if comps.len() == 0 {
        assert(t.drop_first() =~= comps);
        assert(t[0] == x);
        assert(pool_after_coding(s, t) == pool_after_coding(
            remove_first_nexthop(s, x.0.nexthop),
            comps,
        ));
        assert(pool_after_coding(s, comps) == s);
    } else {
        assert(t[0] == comps[0]);
        assert(t.drop_first() =~= comps.drop_first().push(x));
        assert(pool_after_coding(s, t) == pool_after_coding(
            remove_first_nexthop(s, comps[0].0.nexthop),
            comps.drop_first().push(x),
        ));
        lemma_pool_after_coding_push(
            remove_first_nexthop(s, comps[0].0.nexthop),
            comps.drop_first(),
            x,
        );
        assert(pool_after_coding(s, comps) == pool_after_coding(
            remove_first_nexthop(s, comps[0].0.nexthop),
            comps.drop_first(),
        ));
    }
}

/// A candidate that can join a widened set can also join the set before
/// it grew: growing a component set never turns a rejection into an
/// acceptance.
pub proof fn lemma_can_code_grows(
    kb: SimpleKBase,
    infos: Seq<CodingInfo>,
    x: CodingInfo,
    c: CodingInfo,
)
    requires
        can_code(kb, infos.push(x), c),
    ensures
        can_code(kb, infos, c),
{
    assert forall|i: int| 0 <= i < infos.len() implies (#[trigger] infos[i]).nexthop
        != c.nexthop by {
        assert(infos.push(x)[i] == infos[i]);
    }
    lemma_decodable_closed_under_removal(kb, infos.push(x).push(c), infos.len() as int);
    assert(infos.push(x).push(c).remove(infos.len() as int) =~= infos.push(c));
}

/// What every encoded transmission leaving the relay satisfies: it names
/// the relay as sender, carries the pending acknowledgements, opens with
/// the seed native it was built around, serves every recipient at most
/// once, and is jointly decodable under the relay's knowledge base at the
/// time it was built.
pub open spec fn coded_output(
    kb: SimpleKBase,
    sender: NodeID,
    prior_acks: Seq<AckV>,
    seed: CodingInfo,
    p: PacketV,
) -> bool {
    &&& p.sender == sender
    &&& p.ack_header == prior_acks
    &&& p.wf()
    &&& p.coding_header matches CodingHeaderV::Encoded(infos) && {
        &&& infos.len() >= 1
        &&& infos[0] == seed
        &&& distinct_nexthops(infos)
        &&& jointly_decodable(kb, infos)
    }
}

/// What building one encoded transmission does to the relay's stores,
/// relative to the pool and queue it started from: the emitted components
/// open with the seed, serve only transmit neighbours beyond it, their
/// payloads XOR into the packet's payload, each non-seed component was
/// pooled and leaves the pool (oldest for its nexthop first), and every
/// component already tracked for retransmission is re-scheduled afresh.
pub open spec fn coded_effect(
    mid_pool: Seq<PPEntryV>,
    mid_queue: Seq<RetransEntryV>,
    seed: PPEntryV,
    txlist: Seq<NodeID>,
    now: u64,
    p: PacketV,
    post_pool: Seq<PPEntryV>,
    post_queue: Seq<RetransEntryV>,
) -> bool {
    p.coding_header matches CodingHeaderV::Encoded(infos) && {
        &&& (forall|x: int|
            1 <= x < infos.len() ==> txlist.contains((#[trigger] infos[x]).nexthop))
        &&& exists|components: Seq<PPEntryV>|
            {
                &&& components.len() == infos.len()
                &&& infos_of(components) == infos
                &&& components[0] == seed
                &&& p.data == xor_all(payloads_of(components))
                &&& (forall|k: int|
                    1 <= k < components.len() ==> in_pool(mid_pool, #[trigger] components[k]))
                &&& post_pool == pool_after_coding(
                    mid_pool,
                    components.subrange(1, components.len() as int),
                )
                &&& post_queue == refresh_all(mid_queue, components, now)
            }
    }
}

/// Drains the pending acknowledgements, leaving none behind.
pub fn take_acks(acks: &mut Vec<Ack>) -> (r: Vec<Ack>)
    ensures
        r@ == old(acks)@,
        final(acks)@ == Seq::<Ack>::empty(),
{
    let mut t: Vec<Ack> = Vec::new();
    core::mem::swap(acks, &mut t);
    proof {
        assert(final(acks)@ =~= Seq::<Ack>::empty());
    }
    t
}

/// Builds the coding header and the mixed payload of an encoded packet:
/// the identities in insertion order, and the XOR of all payloads.
pub fn encode(packets: &Vec<(CodingInfo, PacketData)>) -> (r: (Vec<CodingInfo>, PacketData))
    requires
        packets@.len() >= 1,
    ensures
        r.0@ == infos_of(entries_v(packets@)),
        r.1@ == xor_all(payloads_of(entries_v(packets@))),
{
    let mut header: Vec<CodingInfo> = Vec::new();
    header.push(packets[0].0);
    let mut data: PacketData = packets[0].1.clone();
    let ghost all = payloads_of(entries_v(packets@));
    let mut i: usize = 1;
    while i < packets.len()
        invariant
            1 <= i <= packets@.len(),
            all == payloads_of(entries_v(packets@)),
            header@ == infos_of(entries_v(packets@)).subrange(0, i as int),
            data@ == xor_all(all.subrange(0, i as int)),
        decreases packets@.len() - i,
    {
        let ghost prefix = all.subrange(0, i as int);
        let ghost prefix1 = all.subrange(0, i + 1 as int);
        proof {
            assert(prefix1.drop_last() =~= prefix);
            assert(prefix1.last() == all[i as int]);
            assert(all[i as int] == packets@[i as int].1@);
        }
        header.push(packets[i].0);
        data = data.xor(&packets[i].1);
        proof {
            assert(header@ =~= infos_of(entries_v(packets@)).subrange(0, i + 1 as int));
        }
        i = i + 1;
    }
    proof {
        assert(header@ =~= infos_of(entries_v(packets@)));
        assert(all.subrange(0, all.len() as int) =~= all);
        if packets@.len() == 1 {
            assert(data@ == all[0]);
        }
    }
    (header, data)
}

/// The relay's coding engine: it pools the natives it receives, tracks
/// what each neighbour is known to possess, mixes jointly decodable
/// natives into encoded transmissions, re-sends what was not
/// acknowledged, and piggybacks pending acknowledgements.
pub struct RelayNodeCoding {
    packet_pool: SimplePacketPool,
    kbase: SimpleKBase,
    retrans_queue: RetransQueue,
    acks: Vec<Ack>,
    last_packet_send: u64,
    control_packet_duration: u64,
}

impl RelayNodeCoding {
    /// The packet pool, as a value for specifications.
    pub closed spec fn pool(&self) -> SimplePacketPool {
        self.packet_pool
    }

    /// The knowledge base, as a value for specifications.
    pub closed spec fn kb(&self) -> SimpleKBase {
        self.kbase
    }

    /// The retransmission queue, as a value for specifications.
    pub closed spec fn queue(&self) -> RetransQueue {
        self.retrans_queue
    }

    /// The pending outbound acknowledgements.
    pub closed spec fn acks_v(&self) -> Seq<AckV> {
        view_acks(self.acks@)
    }

    /// When this relay last transmitted, in clock milliseconds.
    pub closed spec fn spec_last_send(&self) -> u64 {
        self.last_packet_send
    }

    /// The idle threshold before a control packet is emitted.
    pub closed spec fn spec_control_duration(&self) -> u64 {
        self.control_packet_duration
    }

    /// Every component is healthy, and every native this relay pools or
    /// re-sends is addressed to a neighbour the knowledge base tracks.
    pub open spec fn wf(&self) -> bool {
        &&& self.pool().wf()
        &&& self.kb().wf()
        &&& self.queue().wf()
        &&& forall|i: int|
            0 <= i < self.pool()@.len() ==> self.kb().has_node(
                (#[trigger] self.pool()@[i]).0.nexthop,
            )
        &&& forall|i: int|
            0 <= i < self.queue()@.len() ==> self.kb().has_node(
                (#[trigger] self.queue()@[i]).info.nexthop,
            )
    }

    /// Whether the configuration of both sides agrees.
    pub open spec fn same_config(&self, other: &Self) -> bool {
        &&& self.pool().spec_max_size() == other.pool().spec_max_size()
        &&& self.kb().spec_max_size() == other.kb().spec_max_size()
        &&& self.queue().same_config(&other.queue())
        &&& self.spec_control_duration() == other.spec_control_duration()
    }

    /// A control packet is due when acknowledgements are pending and the
    /// relay has been silent for longer than the control threshold.
    pub open spec fn spec_should_tx_control(&self, now: u64) -> bool {
        &&& self.acks_v().len() > 0
        &&& now >= self.spec_last_send()
        &&& now - self.spec_last_send() > self.spec_control_duration()
    }

    pub fn new(
        tx_list: Vec<NodeID>,
        packet_pool_size: usize,
        round_trip_time: u64,
        max_retrans_amount: u8,
        control_packet_duration: u64,
        now: u64,
    ) -> (r: Self)
        requires
            packet_pool_size >= 1,
        ensures
            r.wf(),
            r.pool()@ == Seq::<PPEntryV>::empty(),
            r.queue()@ == Seq::<crate::retrans_queue::RetransEntryV>::empty(),
            r.acks_v() == Seq::<AckV>::empty(),
            forall|id: NodeID| r.kb().has_node(id) <==> tx_list@.contains(id),
            forall|id: NodeID, ci: CodingInfo| !r.kb().spec_knows(id, ci),
            r.pool().spec_max_size() == packet_pool_size,
            r.queue().spec_max_count() == packet_pool_size,
            r.queue().spec_retrans_duration() == round_trip_time,
            r.queue().spec_max_retrans() == max_retrans_amount,
            r.spec_control_duration() == control_packet_duration,
            r.spec_last_send() == now,
    {
        let r = Self {
            packet_pool: SimplePacketPool::new(packet_pool_size),
            kbase: SimpleKBase::new(tx_list, packet_pool_size),
            retrans_queue: RetransQueue::new(packet_pool_size, round_trip_time, max_retrans_amount),
            acks: Vec::new(),
            last_packet_send: now,
            control_packet_duration,
        };
        proof {
            assert(r.acks_v() =~= Seq::<AckV>::empty());
            assert forall|id: NodeID, ci: CodingInfo| !r.kb().spec_knows(id, ci) by {
                if r.kb().spec_knows(id, ci) {
                    let i = choose|i: int|
                        0 <= i < r.kb()@.len() && r.kb()@[i].0 == id && r.kb()@[i].1.contains(ci);
                    assert(r.kb()@[i].1 == Seq::<CodingInfo>::empty());
                }
            }
        }
        r
    }

    /// True iff the candidate may join the components collected so far:
    /// no nexthop is served twice, and every recipient of the widened
    /// set can decode every foreign component from its cache.
    pub fn all_nexhops_can_decode(
        &self,
        packets: &Vec<(CodingInfo, PacketData)>,
        packet: &(CodingInfo, PacketData),
    ) -> (r: bool)
        requires
            packets@.len() < usize::MAX,
            self.kb().has_node(packet.0.nexthop),
            forall|i: int|
                0 <= i < packets@.len() ==> self.kb().has_node(
                    (#[trigger] packets@[i]).0.nexthop,
                ),
        ensures
            r == can_code(self.kb(), infos_of(entries_v(packets@)), packet.0),
    {
        let ghost infos = infos_of(entries_v(packets@));
        let ghost widened = infos.push(packet.0);
        let n = packets.len();
        let mut i: usize = 0;
        while i < n
            invariant
                i <= n,
                n == packets@.len(),
                infos == infos_of(entries_v(packets@)),
                forall|j: int| 0 <= j < i ==> (#[trigger] infos[j]).nexthop != packet.0.nexthop,
            decreases n - i,
        {
            proof {
                assert(infos[i as int] == packets@[i as int].0);
            }
            if packets[i].0.nexthop == packet.0.nexthop {
                proof {
                    assert(infos[i as int].nexthop == packet.0.nexthop);
                }
                return false;
            }
            i = i + 1;
        }
        let mut a: usize = 0;
        while a < n + 1
            invariant
                n < usize::MAX,
                a <= n + 1,
                n == packets@.len(),
                n + 1 == widened.len(),
                infos == infos_of(entries_v(packets@)),
                widened == infos.push(packet.0),
                self.kb().has_node(packet.0.nexthop),
                forall|i2: int|
                    0 <= i2 < packets@.len() ==> self.kb().has_node(
                        (#[trigger] packets@[i2]).0.nexthop,
                    ),
                forall|i2: int, j2: int|
                    #![trigger widened[i2].nexthop, widened[j2].nexthop]
                    0 <= i2 < a && 0 <= j2 < widened.len() ==> (widened[j2].nexthop
                        == widened[i2].nexthop || self.kb().spec_knows(
                        widened[i2].nexthop,
                        widened[j2],
                    )),
            decreases n + 1 - a,
        {
            let nh = if a < n {
                packets[a].0.nexthop
            } else {
                packet.0.nexthop
            };
            proof {
                if a < n {
                    assert(widened[a as int] == packets@[a as int].0);
                } else {
                    assert(widened[a as int] == packet.0);
                }
                assert(widened[a as int].nexthop == nh);
            }
            let mut b: usize = 0;
            while b < n + 1
                invariant
                    n < usize::MAX,
                    b <= n + 1,
                    a < n + 1,
                    n == packets@.len(),
                    n + 1 == widened.len(),
                    infos == infos_of(entries_v(packets@)),
                    widened == infos.push(packet.0),
                    widened[a as int].nexthop == nh,
                    self.kb().has_node(nh),
                    forall|i2: int|
                        0 <= i2 < packets@.len() ==> self.kb().has_node(
                            (#[trigger] packets@[i2]).0.nexthop,
                        ),
                    forall|j2: int|
                        0 <= j2 < b ==> ((#[trigger] widened[j2]).nexthop == nh
                            || self.kb().spec_knows(nh, widened[j2])),
                decreases n + 1 - b,
            {
                let inf = if b < n {
                    packets[b].0
                } else {
                    packet.0
                };
                proof {
                    if b < n {
                        assert(widened[b as int] == packets@[b as int].0);
                    } else {
                        assert(widened[b as int] == packet.0);
                    }
                }
                let knows = self.kbase.knows(&nh, &inf);
                let is_nexthop = nh == inf.nexthop;
                if !knows && !is_nexthop {
                    proof {
                        assert(widened[b as int] == inf);
                        assert(!(widened[b as int].nexthop == widened[a as int].nexthop
                            || self.kb().spec_knows(widened[a as int].nexthop, widened[b as int])));
                    }
                    return false;
                }
                b = b + 1;
            }
            a = a + 1;
        }
        proof {
            assert(jointly_decodable(self.kb(), widened));
            assert forall|j: int| 0 <= j < infos.len() implies (#[trigger] infos[j]).nexthop
                != packet.0.nexthop by {}
        }
        true
    }

    /// A control packet is due when acknowledgements are pending and the
    /// relay has been silent for longer than the control threshold.
    pub fn should_tx_control(&self, now: u64) -> (r: bool)
        ensures
            r == self.spec_should_tx_control(now),
    {
        if self.acks.len() == 0 {
            return false;
        }
        now >= self.last_packet_send && now - self.last_packet_send
            > self.control_packet_duration
    }

    /// Whether the knowledge base keeps a list for `id`.
    pub fn knows_node(&self, id: &NodeID) -> (r: bool)
        ensures
            r == self.kb().has_node(*id),
    {
        self.kbase.contains_node(id)
    }

    /// A coding opportunity needs at least two pooled natives.
    pub fn has_coding_opp(&self) -> (r: bool)
        ensures
            r == (self.pool()@.len() >= 2),
    {
        self.packet_pool.size() >= 2
    }

    /// Absorbs piggybacked acknowledgements: each acked native leaves the
    /// retransmission queue, and every acknowledgement is re-emitted so it
    /// propagates one further hop.
    fn absorb_acks(&mut self, acks: &Vec<Ack>)
        requires
            old(self).wf(),
        ensures
            final(self).wf(),
            final(self).same_config(old(self)),
            final(self).pool() == old(self).pool(),
            final(self).kb() == old(self).kb(),
            final(self).spec_last_send() == old(self).spec_last_send(),
            final(self).queue()@ == remove_infos(
                old(self).queue()@,
                acked_infos(view_acks(acks@)),
            ),
            final(self).acks_v() == old(self).acks_v() + view_acks(acks@),
    {
        let ghost q0 = self.queue()@;
        let ghost av = view_acks(acks@);
        let ghost mut done: Seq<CodingInfo> = Seq::empty();
        let mut i: usize = 0;
        proof {
            assert(av.subrange(0, 0) =~= Seq::<AckV>::empty());
            assert(done =~= acked_infos(av.subrange(0, 0)));
            assert(self.acks_v() =~= old(self).acks_v() + av.subrange(0, 0));
        }
        while i < acks.len()
            invariant
                i <= acks@.len(),
                av == view_acks(acks@),
                av.len() == acks@.len(),
                self.wf(),
                self.same_config(old(self)),
                self.pool() == old(self).pool(),
                self.kb() == old(self).kb(),
                self.spec_last_send() == old(self).spec_last_send(),
                done == acked_infos(av.subrange(0, i as int)),
                self.queue()@ == remove_infos(q0, done),
                self.acks_v() == old(self).acks_v() + av.subrange(0, i as int),
            decreases acks@.len() - i,
        {
            let ghost q_before = self.queue()@;
            let ack = &acks[i];
            proof {
                assert(av[i as int] == acks@[i as int]@);
            }
            let ghost mut taken: Seq<CodingInfo> = Seq::empty();
            let mut t: usize = 0;
            proof {
                assert(ack.packets@.subrange(0, 0) =~= Seq::<CodingInfo>::empty());
                assert(done + taken =~= done);
            }
            while t < ack.packets.len()
                invariant
                    t <= ack.packets@.len(),
                    av == view_acks(acks@),
                    i < acks@.len(),
                    ack == &acks@[i as int],
                    self.wf(),
                    self.same_config(old(self)),
                    self.pool() == old(self).pool(),
                    self.kb() == old(self).kb(),
                    self.spec_last_send() == old(self).spec_last_send(),
                    self.acks_v() == old(self).acks_v() + av.subrange(0, i as int),
                    taken == ack.packets@.subrange(0, t as int),
                    self.queue()@ == remove_infos(q0, done + taken),
                decreases ack.packets@.len() - t,
            {
                let ghost q_prev = self.queue()@;
                let info = ack.packets[t];
                self.retrans_queue.remove_packet(&info);
                proof {
                    lemma_remove_infos_push(q0, done + taken, info);
                    crate::retrans_queue::lemma_remove_first_info_elements(q_prev, info);
                    assert forall|x: int| 0 <= x < self.queue()@.len() implies self.kb().has_node(
                        (#[trigger] self.queue()@[x]).info.nexthop,
                    ) by {
                        let j = choose|j: int| 0 <= j < q_prev.len() && self.queue()@[x] == q_prev[j];
                        assert(self.kb().has_node(q_prev[j].info.nexthop));
                    }
                    taken = taken.push(info);
                    assert(taken =~= ack.packets@.subrange(0, t + 1 as int));
                    assert(done + taken =~= (done + ack.packets@.subrange(0, t as int)).push(info));
                }
                t = t + 1;
            }
            let cloned = ack.clone();
            let ghost prev_acks = self.acks@;
            let ghost cloned_v = cloned@;
            self.acks.push(cloned);
            proof {
                assert(taken =~= ack.packets@);
                assert(av.subrange(0, i + 1 as int).drop_last() =~= av.subrange(0, i as int));
                assert(av.subrange(0, i + 1 as int).last() == av[i as int]);
                assert(av[i as int].packets == ack.packets@);
                done = done + taken;
                assert(done =~= acked_infos(av.subrange(0, i + 1 as int)));
                crate::packet::lemma_view_acks_push(prev_acks, self.acks@.last());
                assert(self.acks@ =~= prev_acks.push(self.acks@.last()));
                assert(view_acks(self.acks@) == view_acks(prev_acks).push(cloned_v));
                assert(cloned_v == av[i as int]);
                assert(self.acks_v() =~= old(self).acks_v() + av.subrange(0, i + 1 as int));
            }
            i = i + 1;
        }
        proof {
            assert(av.subrange(0, av.len() as int) =~= av);
        }
    }

    /// Builds one encoded transmission around the native `packet`: pulls
    /// in, per neighbour, the oldest pooled native the whole set of
    /// recipients can still decode, XORs the payloads, re-schedules every
    /// component already tracked for retransmission (the stale entry
    /// leaves, a fresh one joins), and attaches every pending
    /// acknowledgement.
    pub fn code_packet(&mut self, packet: (CodingInfo, PacketData), topo: &Topology, now: u64) -> (r:
        Result<Packet, CodingError>)
        requires
            old(self).wf(),
            old(self).kb().has_node(packet.0.nexthop),
            packet.1@.len() > 0,
            old(self).pool()@.len() < usize::MAX - 1,
            forall|t: int|
                0 <= t < topo.spec_txlist().len() ==> old(self).kb().has_node(
                    #[trigger] topo.spec_txlist()[t],
                ),
        ensures
            final(self).wf(),
            final(self).same_config(old(self)),
            final(self).kb() == old(self).kb(),
            final(self).spec_last_send() == old(self).spec_last_send(),
            final(self).acks_v() == Seq::<AckV>::empty(),
            forall|x: int|
                0 <= x < final(self).pool()@.len() ==> exists|q: int|
                    0 <= q < old(self).pool()@.len() && #[trigger] final(self).pool()@[x] == old(
                        self,
                    ).pool()@[q],
            r is Ok,
            r matches Ok(p) ==> {
                &&& p@.sender == topo.spec_id()
                &&& p@.ack_header == old(self).acks_v()
                &&& p@.wf()
                &&& p@.coding_header matches CodingHeaderV::Encoded(infos) && {
                    &&& infos.len() >= 1
                    &&& infos[0] == packet.0
                    &&& distinct_nexthops(infos)
                    &&& jointly_decodable(old(self).kb(), infos)
                    &&& (forall|t: int|
                        0 <= t < topo.spec_txlist().len() ==> {
                            let nh = #[trigger] topo.spec_txlist()[t];
                            ||| (exists|x: int|
                                0 <= x < infos.len() && (#[trigger] infos[x]).nexthop == nh)
                            ||| first_for_nexthop(old(self).pool()@, nh) is None
                            ||| (first_for_nexthop(old(self).pool()@, nh) matches Some(e)
                                && !can_code(old(self).kb(), infos, e.0))
                        })
                }
            },
            r matches Ok(p) ==> coded_effect(
                old(self).pool()@,
                old(self).queue()@,
                (packet.0, packet.1@),
                topo.spec_txlist(),
                now,
                p@,
                final(self).pool()@,
                final(self).queue()@,
            ),
    {
        let ghost pool0 = self.pool()@;
        let ghost seed: PPEntryV = (packet.0, packet.1@);
        let mut packets: Vec<(CodingInfo, PacketData)> = Vec::new();
        packets.push(packet);
        proof {
            assert(entries_v(packets@) =~= seq![seed]);
            assert(infos_of(entries_v(packets@)) =~= seq![seed.0]);
        }
        let txlist = topo.txlist();
        let n = txlist.len();
        proof {
            assert forall|x: int| 0 <= x < self.pool()@.len() implies in_pool(
                pool0,
                #[trigger] self.pool()@[x],
            ) by {
                assert(pool0[x] == self.pool()@[x]);
            }
            assert(entries_v(packets@).subrange(1, packets@.len() as int) =~= Seq::<
                PPEntryV,
            >::empty());
        }
        let mut t: usize = 0;
        while t < n
            invariant
                t <= n,
                n == topo.spec_txlist().len(),
                txlist@ == topo.spec_txlist(),
                self.wf(),
                self.same_config(old(self)),
                self.kb() == old(self).kb(),
                self.queue() == old(self).queue(),
                self.acks_v() == old(self).acks_v(),
                self.spec_last_send() == old(self).spec_last_send(),
                pool0 == old(self).pool()@,
                pool0.len() < usize::MAX - 1,
                self.pool().spec_max_size() == old(self).pool().spec_max_size(),
                packets@.len() >= 1,
                entries_v(packets@)[0] == seed,
                packets@.len() + self.pool()@.len() == 1 + pool0.len(),
                jointly_decodable(self.kb(), infos_of(entries_v(packets@))),
                distinct_nexthops(infos_of(entries_v(packets@))),
                forall|k: int|
                    0 <= k < packets@.len() ==> self.kb().has_node(
                        (#[trigger] packets@[k]).0.nexthop,
                    ),
                forall|k: int|
                    0 <= k < packets@.len() ==> (#[trigger] packets@[k]).1@.len() > 0,
                forall|k: int|
                    1 <= k < packets@.len() ==> in_pool(pool0, #[trigger] entries_v(packets@)[k]),
                forall|k: int|
                    1 <= k < packets@.len() ==> txlist@.contains(
                        (#[trigger] entries_v(packets@)[k]).0.nexthop,
                    ),
                self.pool()@ == pool_after_coding(
                    pool0,
                    entries_v(packets@).subrange(1, packets@.len() as int),
                ),
                forall|x: int|
                    0 <= x < self.pool()@.len() ==> in_pool(pool0, #[trigger] self.pool()@[x]),
                forall|nh: NodeID|
                    #![trigger first_for_nexthop(pool0, nh)]
                    (forall|x: int|
                        0 <= x < packets@.len() ==> (#[trigger] entries_v(packets@)[x]).0.nexthop
                            != nh) ==> first_for_nexthop(self.pool()@, nh) == first_for_nexthop(
                        pool0,
                        nh,
                    ),
                forall|t2: int|
                    0 <= t2 < t ==> {
                        let nh = #[trigger] txlist@[t2];
                        ||| (exists|x: int|
                            0 <= x < packets@.len() && (#[trigger] entries_v(
                                packets@,
                            )[x]).0.nexthop == nh)
                        ||| first_for_nexthop(pool0, nh) is None
                        ||| (first_for_nexthop(pool0, nh) matches Some(e) && !can_code(
                            self.kb(),
                            infos_of(entries_v(packets@)),
                            e.0,
                        ))
                    },
            decreases n - t,
        {
            let ghost pre_entries = entries_v(packets@);
            let ghost pre_infos = infos_of(pre_entries);
            let nexthop = txlist[t];
            let cand = self.packet_pool.peek_nexthop_front(nexthop);
            let mut accept = false;
            if let Some(cand) = cand {
                if self.all_nexhops_can_decode(&packets, cand) {
                    accept = true;
                } else {
                    proof {
                        // the peeked entry is the pool's first for this
                        // nexthop; if nothing yet serves the nexthop, it
                        // is also the original pool's first
                        let i1 = choose|i1: int|
                            0 <= i1 < self.pool()@.len() && self.pool()@[i1].0.nexthop == nexthop
                                && entry_v(*cand) == self.pool()@[i1] && (forall|j: int|
                                0 <= j < i1 ==> self.pool()@[j].0.nexthop != nexthop);
                        lemma_first_for_nexthop_at(self.pool()@, nexthop, i1);
                        assert(first_for_nexthop(self.pool()@, nexthop) == Some(entry_v(*cand)));
                        if forall|x: int|
                            0 <= x < packets@.len() ==> (#[trigger] entries_v(
                                packets@,
                            )[x]).0.nexthop != nexthop {
                            assert(first_for_nexthop(pool0, nexthop) == Some(entry_v(*cand)));
                            assert(!can_code(self.kb(), pre_infos, entry_v(*cand).0));
                        }
                    }
                }
            } else {
                proof {
                    if forall|x: int|
                        0 <= x < packets@.len() ==> (#[trigger] entries_v(packets@)[x]).0.nexthop
                            != nexthop {
                        lemma_first_for_nexthop_none(self.pool()@, nexthop);
                        assert(first_for_nexthop(pool0, nexthop) is None);
                    }
                }
            }
            if accept {
                let ghost pre_pool = self.pool()@;
                let popped = self.packet_pool.pop_nexthop_front(nexthop);
                let Some(p) = popped else {
                    proof {
                        assert(false);
                    }
                    unreached()
                };
                proof {
                    // the peeked and the popped entry are both the first
                    // match, hence the same entry
                    let i1 = choose|i1: int|
                        0 <= i1 < pre_pool.len() && pre_pool[i1].0.nexthop == nexthop && entry_v(p)
                            == pre_pool[i1] && (forall|j: int|
                            0 <= j < i1 ==> pre_pool[j].0.nexthop != nexthop);
                    assert(self.pool()@ == pre_pool.remove(i1));
                    assert(in_pool(pre_pool, entry_v(p)));
                }
                packets.push(p);
                proof {
                    assert(entry_v(p).1.len() > 0);
                    assert(entries_v(packets@) =~= pre_entries.push(entry_v(p)));
                    assert(infos_of(entries_v(packets@)) =~= infos_of(pre_entries).push(
                        entry_v(p).0,
                    ));
                    assert(in_pool(pool0, entry_v(p)));
                    assert(txlist@.contains(entry_v(p).0.nexthop)) by {
                        assert(txlist@[t as int] == nexthop);
                    }
                    // the pop removed exactly the fold's next native
                    assert(self.pool()@ == pool_after_coding(
                        pool0,
                        entries_v(packets@).subrange(1, packets@.len() as int),
                    )) by {
                        let pre_taken = pre_entries.subrange(1, pre_entries.len() as int);
                        assert(entries_v(packets@).subrange(1, packets@.len() as int)
                            =~= pre_taken.push(entry_v(p)));
                        lemma_pool_after_coding_push(pool0, pre_taken, entry_v(p));
                        let i1 = choose|i1: int|
                            0 <= i1 < pre_pool.len() && pre_pool[i1].0.nexthop == nexthop
                                && entry_v(p) == pre_pool[i1] && (forall|j: int|
                                0 <= j < i1 ==> pre_pool[j].0.nexthop != nexthop)
                                && self.pool()@ == pre_pool.remove(i1);
                        lemma_remove_first_nexthop_at(pre_pool, nexthop, i1);
                    }
                    assert forall|x: int| 0 <= x < self.pool()@.len() implies in_pool(
                        pool0,
                        #[trigger] self.pool()@[x],
                    ) by {
                        let i1 = choose|i1: int|
                            0 <= i1 < pre_pool.len() && self.pool()@ == pre_pool.remove(i1);
                        let x0 = if x < i1 {
                            x
                        } else {
                            x + 1
                        };
                        assert(self.pool()@[x] == pre_pool[x0]);
                        assert(in_pool(pool0, pre_pool[x0]));
                    }
                    // the accepted native serves its nexthop, and every
                    // other nexthop's oldest pooled native stays put
                    assert forall|nh: NodeID|
                        #![trigger first_for_nexthop(pool0, nh)]
                        (forall|x: int|
                            0 <= x < packets@.len() ==> (#[trigger] entries_v(
                                packets@,
                            )[x]).0.nexthop != nh) implies first_for_nexthop(self.pool()@, nh)
                        == first_for_nexthop(pool0, nh) by {
                        assert(entries_v(packets@)[packets@.len() - 1].0.nexthop == nexthop);
                        assert(nh != nexthop);
                        assert forall|x: int|
                            0 <= x < pre_entries.len() implies (#[trigger] pre_entries[x]).0.nexthop
                            != nh by {
                            assert(entries_v(packets@)[x] == pre_entries[x]);
                        }
                        let i1 = choose|i1: int|
                            0 <= i1 < pre_pool.len() && pre_pool[i1].0.nexthop == nexthop
                                && self.pool()@ == pre_pool.remove(i1);
                        lemma_first_for_nexthop_remove(pre_pool, i1, nh);
                    }
                    // earlier rejections stay rejections once the set grew
                    assert forall|t2: int| 0 <= t2 < t + 1 implies {
                        let nh = #[trigger] txlist@[t2];
                        ||| (exists|x: int|
                            0 <= x < packets@.len() && (#[trigger] entries_v(
                                packets@,
                            )[x]).0.nexthop == nh)
                        ||| first_for_nexthop(pool0, nh) is None
                        ||| (first_for_nexthop(pool0, nh) matches Some(e) && !can_code(
                            self.kb(),
                            infos_of(entries_v(packets@)),
                            e.0,
                        ))
                    } by {
                        let nh = txlist@[t2];
                        if t2 == t {
                            assert(entries_v(packets@)[packets@.len() - 1].0.nexthop == nh);
                        } else if exists|x: int|
                            0 <= x < pre_entries.len() && (#[trigger] pre_entries[x]).0.nexthop
                                == nh {
                            let x = choose|x: int|
                                0 <= x < pre_entries.len() && (#[trigger] pre_entries[x]).0.nexthop
                                    == nh;
                            assert(entries_v(packets@)[x].0.nexthop == nh);
                        } else {
                            match first_for_nexthop(pool0, nh) {
                                Option::Some(e) => {
                                    assert(!can_code(self.kb(), pre_infos, e.0));
                                    if can_code(self.kb(), infos_of(entries_v(packets@)), e.0) {
                                        lemma_can_code_grows(
                                            self.kb(),
                                            pre_infos,
                                            entry_v(p).0,
                                            e.0,
                                        );
                                        assert(false);
                                    }
                                },
                                Option::None => {},
                            }
                        }
                    }
                }
            }
            t = t + 1;
        }
        let (header, data) = encode(&packets);
        proof {
            lemma_xor_all_len(payloads_of(entries_v(packets@)));
            assert(payloads_of(entries_v(packets@))[0] == packet.1@);
            assert(data@.len() > 0);
        }
        let ghost queue0 = self.queue()@;
        let ghost pool_mid = self.pool();
        let mut k: usize = 0;
        while k < packets.len()
            invariant
                k <= packets@.len(),
                self.wf(),
                self.same_config(old(self)),
                self.kb() == old(self).kb(),
                self.pool() == pool_mid,
                self.acks_v() == old(self).acks_v(),
                self.spec_last_send() == old(self).spec_last_send(),
                queue0 == old(self).queue()@,
                self.queue()@ == refresh_all(
                    queue0,
                    entries_v(packets@).subrange(0, k as int),
                    now,
                ),
                forall|k2: int|
                    0 <= k2 < packets@.len() ==> self.kb().has_node(
                        (#[trigger] packets@[k2]).0.nexthop,
                    ),
                forall|k2: int|
                    0 <= k2 < packets@.len() ==> (#[trigger] packets@[k2]).1@.len() > 0,
            decreases packets@.len() - k,
        {
            let ghost prefix = entries_v(packets@).subrange(0, k as int);
            let ghost prefix1 = entries_v(packets@).subrange(0, k + 1 as int);
            let ghost comp = entries_v(packets@)[k as int];
            let ghost pre_q = self.queue()@;
            proof {
                assert(prefix1 =~= prefix.push(comp));
                lemma_refresh_all_push(queue0, prefix, comp, now);
                assert(comp.0 == packets@[k as int].0);
                assert(comp.1 == packets@[k as int].1@);
            }
            let tracked_already = self.retrans_queue.conatains(&packets[k].0);
            if tracked_already {
                // refresh: the stale entry leaves, making room for a fresh
                // attempt with today's timestamp even on a full queue
                self.retrans_queue.remove_packet(&packets[k].0);
                proof {
                    lemma_remove_first_info_len(pre_q, packets@[k as int].0);
                    lemma_remove_first_info_elements(pre_q, packets@[k as int].0);
                    assert forall|x: int|
                        0 <= x < self.queue()@.len() implies self.kb().has_node(
                        (#[trigger] self.queue()@[x]).info.nexthop,
                    ) by {
                        let j = choose|j: int|
                            0 <= j < pre_q.len() && self.queue()@[x] == pre_q[j];
                        assert(self.kb().has_node(pre_q[j].info.nexthop));
                    }
                }
                let native = (packets[k].0, packets[k].1.clone());
                self.retrans_queue.push_new(native, now);
                proof {
                    assert(self.queue()@ =~= refresh_one(pre_q, comp, now));
                    assert forall|x: int|
                        0 <= x < self.queue()@.len() implies self.kb().has_node(
                        (#[trigger] self.queue()@[x]).info.nexthop,
                    ) by {
                        if x == self.queue()@.len() - 1 {
                            assert(self.queue()@[x].info == packets@[k as int].0);
                        }
                    }
                }
            } else {
                proof {
                    assert(self.queue()@ == refresh_one(pre_q, comp, now));
                }
            }
            k = k + 1;
        }
        proof {
            assert(entries_v(packets@).subrange(0, packets@.len() as int) =~= entries_v(packets@));
        }
        let acks = take_acks(&mut self.acks);
        let ghost acks0 = view_acks(acks@);
        let built = PacketBuilder::new().sender(topo.id()).data(data).encoded_header(
            header,
        ).ack_header(acks).build();
        let coded_packet = match built {
            Ok(p) => p,
            Err(_) => {
                proof {
                    assert(false);
                }
                unreached()
            },
        };
        proof {
            assert(self.acks_v() =~= Seq::<AckV>::empty());
            let components = entries_v(packets@);
            let infos = infos_of(components);
            assert forall|x: int| 1 <= x < infos.len() implies topo.spec_txlist().contains(
                (#[trigger] infos[x]).nexthop,
            ) by {
                assert(txlist@.contains(components[x].0.nexthop));
            }
            assert(self.pool()@ == pool_after_coding(
                old(self).pool()@,
                components.subrange(1, components.len() as int),
            ));
            assert(coded_effect(
                old(self).pool()@,
                old(self).queue()@,
                (packet.0, packet.1@),
                topo.spec_txlist(),
                now,
                coded_packet@,
                self.pool()@,
                self.queue()@,
            ));
            assert forall|t: int| 0 <= t < topo.spec_txlist().len() implies {
                let nh = #[trigger] topo.spec_txlist()[t];
                ||| (exists|x: int| 0 <= x < infos.len() && (#[trigger] infos[x]).nexthop == nh)
                ||| first_for_nexthop(old(self).pool()@, nh) is None
                ||| (first_for_nexthop(old(self).pool()@, nh) matches Some(e) && !can_code(
                    old(self).kb(),
                    infos,
                    e.0,
                ))
            } by {
                assert(txlist@[t] == topo.spec_txlist()[t]);
                let nh = topo.spec_txlist()[t];
                if exists|x: int|
                    0 <= x < components.len() && (#[trigger] components[x]).0.nexthop == nh {
                    let x = choose|x: int|
                        0 <= x < components.len() && (#[trigger] components[x]).0.nexthop == nh;
                    assert(infos[x].nexthop == nh);
                }
            }
            assert(coded_packet@.coding_header matches CodingHeaderV::Encoded(h) && h == infos);
            assert(components[0] == (packet.0, packet.1@));
            assert(coded_packet@.data == xor_all(payloads_of(components)));
            assert(self.queue()@ == refresh_all(old(self).queue()@, components, now));
            assert forall|k2: int| 1 <= k2 < components.len() implies in_pool(
                old(self).pool()@,
                #[trigger] components[k2],
            ) by {
                assert(in_pool(pool0, entries_v(packets@)[k2]));
            }
        }
        Ok(coded_packet)
    }

    /// Takes one received frame: a control's acknowledgements are
    /// absorbed and re-emitted; a native is learned, pooled and its
    /// payload returned; an encoded frame is unexpected at the relay of a
    /// star and rejected.
    /// Whether the relay can attribute a received native: its sender and
    /// its recipient are both tracked neighbours.
    pub open spec fn attributable(&self, p: PacketV) -> bool {
        p.coding_header matches CodingHeaderV::Native(info) ==> self.kb().has_node(info.nexthop)
            && self.kb().has_node(p.sender)
    }

    /// Everything one received frame does to the relay engine, and the
    /// verdict it returns: a control's acknowledgements are absorbed and
    /// re-emitted, a native is learned and pooled, an encoded frame is
    /// rejected.
    pub open spec fn rx_post(
        pre: Self,
        post: Self,
        p: PacketV,
        r: Result<Option<PacketData>, CodingError>,
    ) -> bool {
        &&& post.wf()
        &&& post.same_config(&pre)
        &&& post.spec_last_send() == pre.spec_last_send()
        &&& match p.coding_header {
                CodingHeaderV::Control(_) => {
                    &&& r matches Ok(o) && o is None
                    &&& post.queue()@ == remove_infos(
                        pre.queue()@,
                        acked_infos(p.ack_header),
                    )
                    &&& post.acks_v() == pre.acks_v() + p.ack_header
                    &&& post.pool() == pre.pool()
                    &&& post.kb() == pre.kb()
                },
                CodingHeaderV::Encoded(_) => {
                    &&& r matches Err(CodingError::DefectPacketError(_))
                    &&& post.pool() == pre.pool()
                    &&& post.kb() == pre.kb()
                    &&& post.queue() == pre.queue()
                    &&& post.acks_v() == pre.acks_v()
                },
                CodingHeaderV::Native(info) => {
                    &&& r matches Ok(o) && (o matches Some(d) && d@ == p.data)
                    &&& post.queue()@ == remove_infos(
                        pre.queue()@,
                        acked_infos(p.ack_header),
                    )
                    &&& post.acks_v() == pre.acks_v() + p.ack_header
                    &&& post.kb()@ == kb_after_insert(
                        pre.kb()@,
                        pre.kb().spec_max_size(),
                        p.sender,
                        info,
                    )
                    &&& post.pool()@ == (if pre.pool()@.len() >= pre.pool().spec_max_size() {
                        pre.pool()@.subrange(1, pre.pool()@.len() as int).push(
                            (info, p.data),
                        )
                    } else {
                        pre.pool()@.push((info, p.data))
                    })
                },
            }
    }

    pub fn handle_rx(&mut self, packet: &Packet, topology: &Topology) -> (r: Result<
        Option<PacketData>,
        CodingError,
    >)
        requires
            old(self).wf(),
            packet@.wf(),
            old(self).attributable(packet@),
        ensures
            Self::rx_post(*old(self), *final(self), packet@, r),
    {
        if let CodingHeader::Control(_) = packet.coding_header() {
            let acks = packet.ack_header();
            self.absorb_acks(acks);
            return Ok(None);
        }
        let header = packet.coding_header();
        let CodingHeader::Native(coding_info) = header else {
            return Err(
                CodingError::DefectPacketError(
                    String::from_str("the relay expects native packets, not encoded ones"),
                ),
            );
        };
        let info = *coding_info;
        let sender = packet.sender();
        self.absorb_acks(packet.ack_header());
        // learn: the sender evidently possesses the native it just sent
        let ghost kb_pre = self.kb();
        self.kbase.insert(sender, info);
        proof {
            // keys survive an insert, so membership facts carry over
            assert forall|nh: NodeID| kb_pre.has_node(nh) implies self.kb().has_node(nh) by {
                let a = choose|a: int| 0 <= a < kb_pre@.len() && kb_pre@[a].0 == nh;
                assert(self.kb()@[a].0 == nh);
            }
            assert forall|x: int| 0 <= x < self.pool()@.len() implies self.kb().has_node(
                (#[trigger] self.pool()@[x]).0.nexthop,
            ) by {
                assert(kb_pre.has_node(self.pool()@[x].0.nexthop));
            }
            assert forall|x: int| 0 <= x < self.queue()@.len() implies self.kb().has_node(
                (#[trigger] self.queue()@[x]).info.nexthop,
            ) by {
                assert(kb_pre.has_node(self.queue()@[x].info.nexthop));
            }
            assert(self.kb().has_node(info.nexthop)) by {
                assert(kb_pre.has_node(info.nexthop));
            }
        }
        let ghost pool_pre = self.pool()@;
        // remember the native itself for future coding opportunities
        self.packet_pool.push_packet(packet.clone());
        proof {
            assert forall|x: int| 0 <= x < self.pool()@.len() implies self.kb().has_node(
                (#[trigger] self.pool()@[x]).0.nexthop,
            ) by {
                if x < self.pool()@.len() - 1 {
                    if pool_pre.len() >= self.pool().spec_max_size() {
                        assert(self.pool()@[x] == pool_pre[x + 1]);
                    } else {
                        assert(self.pool()@[x] == pool_pre[x]);
                    }
                } else {
                    assert(self.pool()@[x].0 == info);
                }
            }
        }
        Ok(Some(packet.data().clone()))
    }

    /// Produces the relay's next transmission, if one is owed: first any
    /// native due for retransmission, re-coded; then back-pressure when
    /// the retransmission queue is full; then, lacking a coding
    /// opportunity, a control packet when acknowledgements have waited
    /// long enough; otherwise the oldest pooled native, coded together
    /// with whatever its recipients can still decode.
    /// Everything one transmit tick does to the relay engine, and what it
    /// hands back: a due retransmission is re-coded first, then
    /// back-pressure, then (lacking a coding opportunity) a control
    /// packet, then the oldest pooled native coded; every outgoing packet
    /// is well-formed.
    pub open spec fn tx_post(
        pre: Self,
        post: Self,
        topo: Topology,
        now: u64,
        r: Result<Option<Packet>, CodingError>,
    ) -> bool {
        &&& post.wf()
        &&& post.same_config(&pre)
        &&& post.kb() == pre.kb()
        &&& post.spec_last_send() == pre.spec_last_send()
        &&& (r matches Ok(o) ==> (o matches Some(p) ==> p@.wf()))
        &&& ({
            let q = pre.queue();
                let dur = q.spec_retrans_duration();
                if exists|i: int| 0 <= i < q@.len() && due(#[trigger] q@[i], now, dur) {
                    r matches Ok(p) && (p matches Some(p) && exists|i: int|
                        {
                            &&& 0 <= i < q@.len()
                            &&& due(#[trigger] q@[i], now, dur)
                            &&& (forall|j: int| 0 <= j < i ==> !due(q@[j], now, dur))
                            &&& coded_output(
                                pre.kb(),
                                topo.spec_id(),
                                pre.acks_v(),
                                q@[i].info,
                                p@,
                            )
                            &&& coded_effect(
                                pre.pool()@,
                                (if q@[i].retrans_count + 1 >= q.spec_max_retrans() {
                                    q@.remove(i)
                                } else {
                                    q@.update(
                                        i,
                                        RetransEntryV {
                                            retrans_count: (q@[i].retrans_count + 1) as u8,
                                            last_trans: now,
                                            ..q@[i]
                                        },
                                    )
                                }),
                                (q@[i].info, q@[i].data),
                                topo.spec_txlist(),
                                now,
                                p@,
                                post.pool()@,
                                post.queue()@,
                            )
                        }) && post.acks_v() == Seq::<AckV>::empty()
                } else if q@.len() >= q.spec_max_count() {
                    r matches Err(CodingError::FullRetransQueue(_)) && post.pool() == pre.pool() && post.queue()@ == pre.queue()@ && post.acks_v()
                        == pre.acks_v()
                } else if pre.pool()@.len() < 2 {
                    if pre.spec_should_tx_control(now) {
                        r matches Ok(p) && (p matches Some(p) && {
                            &&& p@.sender == topo.spec_id()
                            &&& p@.coding_header == CodingHeaderV::Control(
                                topo.spec_txlist()[0],
                            )
                            &&& p@.ack_header == pre.acks_v()
                            &&& p@.data.len() == 0
                            &&& p@.wf()
                        }) && post.acks_v() == Seq::<AckV>::empty() && post.pool()
                            == pre.pool() && post.queue()@ == pre.queue()@
                    } else {
                        r matches Ok(p) && p is None && post.pool() == pre.pool()
                            && post.queue()@ == pre.queue()@ && post.acks_v()
                            == pre.acks_v()
                    }
                } else {
                    r matches Ok(p) && (p matches Some(p) && coded_output(
                        pre.kb(),
                        topo.spec_id(),
                        pre.acks_v(),
                        pre.pool()@[0].0,
                        p@,
                    ) && coded_effect(
                        pre.pool()@.subrange(1, pre.pool()@.len() as int),
                        pre.queue()@,
                        pre.pool()@[0],
                        topo.spec_txlist(),
                        now,
                        p@,
                        post.pool()@,
                        post.queue()@,
                    )) && post.acks_v() == Seq::<AckV>::empty()
                }
            })
    }

    #[verifier::rlimit(100)]
    #[verifier::spinoff_prover]
    pub fn handle_tx(&mut self, topology: &Topology, now: u64) -> (r: Result<
        Option<Packet>,
        CodingError,
    >)
        requires
            old(self).wf(),
            topology.spec_txlist().len() > 0,
            old(self).pool()@.len() < usize::MAX - 1,
            forall|t: int|
                0 <= t < topology.spec_txlist().len() ==> old(self).kb().has_node(
                    #[trigger] topology.spec_txlist()[t],
                ),
        ensures
            Self::tx_post(*old(self), *final(self), *topology, now, r),
    {
        let due_native = self.retrans_queue.packet_to_retrans(now);
        if let Some(native) = due_native {
            proof {
                let q = old(self).queue();
                let i = choose|i: int|
                    {
                        &&& 0 <= i < q@.len()
                        &&& due(q@[i], now, q.spec_retrans_duration())
                        &&& (forall|j: int|
                            0 <= j < i ==> !due(q@[j], now, q.spec_retrans_duration()))
                        &&& native.0 == q@[i].info
                        &&& native.1@ == q@[i].data
                    };
                assert(self.kb().has_node(native.0.nexthop));
                assert(native.1@.len() > 0);
            }
            let coded = self.code_packet(native, topology, now);
            match coded {
                Ok(p) => {
                    proof {
                        assert(p@.wf());
                    }
                    return Ok(Some(p));
                },
                Err(_) => {
                    proof {
                        assert(false);
                    }
                    unreached()
                },
            }
        }
        if self.retrans_queue.is_full() {
            return Err(
                CodingError::FullRetransQueue(
                    String::from_str("cannot take on a new packet without dropping an older one"),
                ),
            );
        }
        if !self.has_coding_opp() {
            if self.should_tx_control(now) {
                let receiver = topology.txlist()[0];
                let acks = take_acks(&mut self.acks);
                let result = PacketBuilder::new().sender(topology.id()).control_header(
                    receiver,
                ).ack_header(acks).build();
                match result {
                    Ok(control_packet) => {
                        proof {
                            assert(control_packet@.wf());
                            assert(self.acks_v() =~= Seq::<AckV>::empty());
                        }
                        return Ok(Some(control_packet));
                    },
                    Err(_) => {
                        proof {
                            assert(false);
                        }
                        unreached()
                    },
                }
            }
            return Ok(None);
        }
        let popped = self.packet_pool.pop_front();
        let Some(packet) = popped else {
            proof {
                assert(false);
            }
            unreached()
        };
        proof {
            assert(entry_v(packet) == old(self).pool()@[0]);
            assert(self.kb().has_node(packet.0.nexthop));
            assert(packet.1@.len() > 0);
        }
        let coded = self.code_packet(packet, topology, now);
        match coded {
            Ok(p) => {
                proof {
                    assert(p@.wf());
                }
                Ok(Some(p))
            },
            Err(_) => {
                proof {
                    assert(false);
                }
                unreached()
            },
        }
    }

    /// Records that a packet just left this relay.
    pub fn update_last_packet_send(&mut self, now: u64)
        requires
            old(self).wf(),
        ensures
            final(self).wf(),
            final(self).same_config(old(self)),
            final(self).pool() == old(self).pool(),
            final(self).kb() == old(self).kb(),
            final(self).queue() == old(self).queue(),
            final(self).acks_v() == old(self).acks_v(),
            final(self).spec_last_send() == now,
    {
        self.last_packet_send = now;
    }
}

} // verus!
