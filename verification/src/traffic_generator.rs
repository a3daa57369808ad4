use vstd::prelude::*;

use vstd::string::StringSliceAdditionalSpecFns;

use crate::node_id::NodeID;
use crate::packet::{CodingInfo, Packet, PacketBuilder, PacketID};

verus! {

/// Which kind of traffic source a node is configured with. Rates are in
/// bytes per second; the period is in milliseconds.
#[derive(Debug, Copy, Clone)]
pub enum TrafficGeneratorType {
    Disabled,
    Greedy,
    Poisson(u32),
    Random(u32),
    Periodic(u64),
}

/// Why a traffic generator description could not be parsed.
#[derive(Debug)]
pub enum TrafficGeneratorTypeError {
    MissingMean,
    InvalidMean,
    InvalidFormat,
    InvalidDistribution,
}

/// A source of fresh native payloads, asked once per transmit tick; it
/// returns a partial packet (payload only) or nothing. Implementations
/// decide timing and sizing; nothing is promised of their output, and the
/// coding layer validates whatever they produce.
pub trait TGStrategy {
    fn generate(&mut self, now: u64) -> Option<PacketBuilder>;
}

/// A source that never produces traffic: what the relay uses.
pub struct NoneStrategy {}

impl NoneStrategy {
    pub fn new() -> (r: Self) {
        NoneStrategy {}
    }
}

impl TGStrategy for NoneStrategy {
    fn generate(&mut self, now: u64) -> (r: Option<PacketBuilder>)
        ensures
            r is None,
    {
        None
    }
}

/// A generator that never produces a packet.
pub struct NoneGenerator {}

impl NoneGenerator {
    pub fn new() -> (r: Self) {
        NoneGenerator {}
    }

    pub fn generate(&mut self) -> (r: Option<Packet>)
        ensures
            r is None,
    {
        None
    }
}

/// Produces one zero-filled payload of a fixed size each time at least
/// `wait_duration` milliseconds have passed since the last one.
pub struct TimedGenerator {
    generation_timestamp: u64,
    wait_duration: u64,
    packet_size: usize,
}

impl TimedGenerator {
    /// When this generator last produced a payload.
    pub closed spec fn spec_timestamp(&self) -> u64 {
        self.generation_timestamp
    }

    /// The configured wait between payloads, in milliseconds.
    pub closed spec fn spec_wait(&self) -> u64 {
        self.wait_duration
    }

    /// The configured payload size in bytes.
    pub closed spec fn spec_size(&self) -> usize {
        self.packet_size
    }

    pub fn new(wait_duration: u64, packet_size: usize, now: u64) -> (r: Self)
        ensures
            r.spec_wait() == wait_duration,
            r.spec_size() == packet_size,
            r.spec_timestamp() == now,
    {
        TimedGenerator { generation_timestamp: now, wait_duration, packet_size }
    }

    /// A payload is produced exactly when the wait has elapsed.
    pub fn generate_at(&mut self, now: u64) -> (r: Option<PacketBuilder>)
        ensures
            (now >= old(self).spec_timestamp() && now - old(self).spec_timestamp() >= old(
                self,
            ).spec_wait()) ==> {
                &&& r matches Some(b) && b@ == (crate::packet::PacketBuilderV {
                    sender: None,
                    coding_header: None,
                    ack_header: None,
                    data: Some(Seq::new(old(self).spec_size() as nat, |i: int| 0u8)),
                })
                &&& final(self).spec_timestamp() == now
            },
            !(now >= old(self).spec_timestamp() && now - old(self).spec_timestamp() >= old(
                self,
            ).spec_wait()) ==> r is None && *final(self) == *old(self),
            final(self).spec_wait() == old(self).spec_wait(),
            final(self).spec_size() == old(self).spec_size(),
    {
        if now >= self.generation_timestamp && now - self.generation_timestamp
            >= self.wait_duration {
            self.generation_timestamp = now;
            Some(PacketBuilder::new().with_data_size(self.packet_size))
        } else {
            None
        }
    }
}

impl TGStrategy for TimedGenerator {
    fn generate(&mut self, now: u64) -> (r: Option<PacketBuilder>) {
        self.generate_at(now)
    }
}

/// Relies on rand's `Rng::gen_range`: a uniformly random index strictly
/// below `bound`, which must be positive.
#[verifier::external_body]
fn random_index(bound: usize) -> (r: usize)
    requires
        bound > 0,
    ensures
        r < bound,
{
    rand::Rng::gen_range(&mut rand::thread_rng(), 0..bound)
}

/// Produces payload bytes by repeating sample text up to a requested
/// size; which sample is used is drawn at random.
pub struct DataGenerator {}

impl DataGenerator {
    pub fn new() -> (r: Self) {
        DataGenerator {}
    }

    /// Exactly `size` bytes: one of the five sample texts, drawn at
    /// random, repeated from its start cyclically until the size is
    /// reached (or a zero byte in place of a sample with no bytes, which
    /// none of the five has).
    pub fn generate(&self, size: usize) -> (r: Vec<u8>)
        ensures
            r@.len() == size,
            exists|s: Seq<u8>|
                {
                    &&& {
                        ||| s == (
                        "Lorem ipsum dolor sit amet, consectetur adipisici elit, sed eiusmod tempor incidunt ut labore et dolore magna aliqua.").spec_bytes()
                        ||| s == (
                        "Die Galaktische Republik wird von Unruhen erschuettert. Die Besteuerung der Handelsrouten zu weit entfernten Sternensystemen ist der Ausloeser.").spec_bytes()
                        ||| s == (
                        "If life seems jolly rotten There's something you've forgotten And that's to laugh and smile and dance and sing").spec_bytes()
                        ||| s == (
                        "Never gonna give you up Never gonna let you down Never gonna run around and desert you Never gonna make you cry Never gonna say goodbye").spec_bytes()
                        ||| s == (
                        "It is an ancient Mariner, And he stoppeth one of three. 'By thy long grey beard and glittering eye, Now wherefore stopp'st thou me?").spec_bytes()
                        ||| s == seq![0u8]
                    }
                    &&& s.len() > 0
                    &&& (forall|i: int|
                        0 <= i < size ==> #[trigger] r@[i] == s[i % s.len() as int])
                },
    {
        let samples: Vec<Vec<u8>> = vec![
            ("Lorem ipsum dolor sit amet, consectetur adipisici elit, sed eiusmod tempor incidunt ut labore et dolore magna aliqua.").as_bytes_vec(),
            ("Die Galaktische Republik wird von Unruhen erschuettert. Die Besteuerung der Handelsrouten zu weit entfernten Sternensystemen ist der Ausloeser.").as_bytes_vec(),
            ("If life seems jolly rotten There's something you've forgotten And that's to laugh and smile and dance and sing").as_bytes_vec(),
            ("Never gonna give you up Never gonna let you down Never gonna run around and desert you Never gonna make you cry Never gonna say goodbye").as_bytes_vec(),
            ("It is an ancient Mariner, And he stoppeth one of three. 'By thy long grey beard and glittering eye, Now wherefore stopp'st thou me?").as_bytes_vec(),
        ];
        let index = random_index(samples.len());
        let mut bytes = vstd::slice::slice_to_vec(samples[index].as_slice());
        if bytes.len() == 0 {
            bytes.push(0u8);
        }
        proof {
            assert(bytes@ == samples@[index as int]@ || bytes@ =~= seq![0u8]);
        }
        let ghost s: Seq<u8> = bytes@;
        let len = bytes.len();
        let mut generated: Vec<u8> = Vec::new();
        let mut i: usize = 0;
        let mut j: usize = 0;
        while i < size
            invariant
                i <= size,
                s == bytes@,
                len == s.len(),
                len > 0,
                j < len,
                j == i as int % len as int,
                generated@.len() == i,
                forall|k: int| 0 <= k < i ==> #[trigger] generated@[k] == s[k % len as int],
            decreases size - i,
        {
            generated.push(bytes[j]);
            i = i + 1;
            if j + 1 == len {
                j = 0;
            } else {
                j = j + 1;
            }
            proof {
                lemma_mod_step(i - 1, len as int, (i - 1) % (len as int));
            }
        }
        generated
    }
}

/// Stepping a cyclic counter tracks the remainder: if `j` is `i % n`,
/// then `i + 1` leaves remainder `j + 1`, or `0` where `j + 1` reaches
/// `n`.
proof fn lemma_mod_step(i: int, n: int, j: int)
    requires
        n > 0,
        0 <= j < n,
        j == i % n,
        i >= 0,
    ensures
        (i + 1) % n == (if j + 1 == n {
            0int
        } else {
            j + 1
        }),
{
    assert((i + 1) % n == (if j + 1 == n {
        0int
    } else {
        j + 1
    })) by (nonlinear_arith)
        requires
            n > 0,
            0 <= j < n,
            j == i % n,
            i >= 0,
    ;
}

/// Hands a leaf its next native: it wraps a strategy's payload in a
/// native header, numbering packets per node and choosing recipients
/// round-robin over the transmit whitelist.
pub struct TrafficGenerator<S: TGStrategy> {
    strategy: S,
    tx_whitelist: Vec<NodeID>,
    current_tx_id: usize,
    sender_id: NodeID,
    current_packet_id: PacketID,
}

impl<S: TGStrategy> TrafficGenerator<S> {
    /// The node this generator originates traffic for.
    pub closed spec fn spec_sender(&self) -> NodeID {
        self.sender_id
    }

    /// The recipients cycled through, in order.
    pub closed spec fn spec_txlist(&self) -> Seq<NodeID> {
        self.tx_whitelist@
    }

    /// The whitelist position of the last chosen recipient.
    pub closed spec fn spec_tx_index(&self) -> int {
        self.current_tx_id as int
    }

    /// The sequence number of the last produced native.
    pub closed spec fn spec_packet_id(&self) -> PacketID {
        self.current_packet_id
    }

    /// The recipient list is non-empty and the round-robin cursor stays
    /// inside it.
    pub open spec fn wf(&self) -> bool {
        self.spec_txlist().len() > 0 && 0 <= self.spec_tx_index() < self.spec_txlist().len()
    }

    /// The sequence number following `id`, wrapping at the maximum.
    pub open spec fn next_id_of(id: PacketID) -> PacketID {
        if id == PacketID::MAX {
            0
        } else {
            (id + 1) as PacketID
        }
    }

    /// The cursor position following `at`.
    pub open spec fn next_tx_of(&self, at: int) -> int {
        if at + 1 < self.spec_txlist().len() {
            at + 1
        } else {
            0
        }
    }

    pub fn new(strategy: S, tx_whitelist: Vec<NodeID>, sender_id: NodeID) -> (r: Self)
        requires
            tx_whitelist@.len() > 0,
        ensures
            r.wf(),
            r.spec_sender() == sender_id,
            r.spec_txlist() == tx_whitelist@,
            r.spec_tx_index() == 0,
            r.spec_packet_id() == 0,
    {
        TrafficGenerator {
            strategy,
            tx_whitelist,
            current_tx_id: 0,
            sender_id,
            current_packet_id: 0,
        }
    }

    /// Advances the round-robin cursor and returns the recipient there.
    pub fn next_receiver(&mut self) -> (r: NodeID)
        requires
            old(self).wf(),
        ensures
            final(self).wf(),
            final(self).spec_sender() == old(self).spec_sender(),
            final(self).spec_txlist() == old(self).spec_txlist(),
            final(self).spec_packet_id() == old(self).spec_packet_id(),
            final(self).spec_tx_index() == old(self).next_tx_of(old(self).spec_tx_index()),
            r == final(self).spec_txlist()[final(self).spec_tx_index()],
    {
        self.current_tx_id = if self.current_tx_id < self.tx_whitelist.len() - 1 {
            self.current_tx_id + 1
        } else {
            0
        };
        self.tx_whitelist[self.current_tx_id]
    }

    /// Advances the per-node sequence number, wrapping at its maximum.
    pub fn next_packet_id(&mut self) -> (r: PacketID)
        ensures
            final(self).spec_sender() == old(self).spec_sender(),
            final(self).spec_txlist() == old(self).spec_txlist(),
            final(self).spec_tx_index() == old(self).spec_tx_index(),
            final(self).spec_packet_id() == Self::next_id_of(old(self).spec_packet_id()),
            r == final(self).spec_packet_id(),
            old(self).wf() ==> final(self).wf(),
    {
        self.current_packet_id = match self.current_packet_id.checked_add(1) {
            Some(id) => id,
            None => 0,
        };
        self.current_packet_id
    }

    /// Asks the strategy for a payload; when one comes, stamps it with
    /// this node as sender and a native header carrying the next sequence
    /// number and the next round-robin recipient.
    pub fn generate(&mut self, now: u64) -> (r: Option<PacketBuilder>)
        requires
            old(self).wf(),
        ensures
            final(self).wf(),
            final(self).spec_sender() == old(self).spec_sender(),
            final(self).spec_txlist() == old(self).spec_txlist(),
            match r {
                None => final(self).spec_tx_index() == old(self).spec_tx_index()
                    && final(self).spec_packet_id() == old(self).spec_packet_id(),
                Some(b) => {
                    &&& final(self).spec_packet_id() == Self::next_id_of(
                        old(self).spec_packet_id(),
                    )
                    &&& final(self).spec_tx_index() == old(self).next_tx_of(
                        old(self).spec_tx_index(),
                    )
                    &&& b@.sender == Some(old(self).spec_sender())
                    &&& b@.coding_header == Some(
                        crate::packet::CodingHeaderV::Native(
                            CodingInfo {
                                source: old(self).spec_sender(),
                                id: final(self).spec_packet_id(),
                                nexthop: final(self).spec_txlist()[final(self).spec_tx_index()],
                            },
                        ),
                    )
                },
            },
    {
        let produced = self.strategy.generate(now);
        match produced {
            None => None,
            Some(builder) => {
                let id = self.next_packet_id();
                let nexthop = self.next_receiver();
                let info = CodingInfo { source: self.sender_id, id, nexthop };
                Some(builder.sender(self.sender_id).native_header(info))
            },
        }
    }
}

} // verus!
