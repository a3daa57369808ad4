use vstd::prelude::*;

use crate::node_id::NodeID;
use crate::packet_data::PacketData;

verus! {

/// Monotonic per-source counter identifying one native packet; wraps at
/// its maximum, which is rare relative to pool lifetime.
pub type PacketID = u16;

/// Errors of the wire codec.
#[derive(Debug)]
pub enum PacketError {
    InvalidSize,
}

/// Who a packet is addressed to, as far as one node can tell.
#[derive(Debug)]
pub enum PacketReceiver {
    Single(NodeID),
    Multi,
}

/// Identifies one native packet's journey across one hop: which node
/// originated it, its sequence number there, and which node should
/// consume it.
#[derive(Copy, Clone, Debug, PartialEq, Eq, Structural, Hash)]
pub struct CodingInfo {
    pub source: NodeID,
    pub id: PacketID,
    pub nexthop: NodeID,
}

/// Reserved per-source reception feedback; always absent in this layer.
#[derive(Copy, Clone, Debug, PartialEq, Eq, Structural)]
pub struct ReceptionReport {
    pub source: NodeID,
    pub last_id: PacketID,
}

/// Acknowledgement: `source` has received (or decoded) the listed natives.
#[derive(Debug)]
pub struct Ack {
    pub source: NodeID,
    pub packets: Vec<CodingInfo>,
}

/// Mathematical value of an [`Ack`].
#[verifier::ext_equal]
pub struct AckV {
    pub source: NodeID,
    pub packets: Seq<CodingInfo>,
}

impl View for Ack {
    type V = AckV;

    open spec fn view(&self) -> AckV {
        AckV { source: self.source, packets: self.packets@ }
    }
}

impl Ack {
    pub fn source(&self) -> (r: NodeID)
        ensures
            r == self@.source,
    {
        self.source
    }

    pub fn packets(&self) -> (r: &Vec<CodingInfo>)
        ensures
            r@ == self@.packets,
    {
        &self.packets
    }
}

/// The sequence of acknowledgement values carried by a vector of acks.
pub open spec fn view_acks(s: Seq<Ack>) -> Seq<AckV> {
    Seq::new(s.len(), |i: int| s[i]@)
}

/// The flattened list of acknowledged identities carried by `acks`, in
/// order of appearance.
pub open spec fn acked_infos(acks: Seq<AckV>) -> Seq<CodingInfo>
    decreases acks.len(),
{
    if acks.len() == 0 {
        Seq::empty()
    } else {
        acked_infos(acks.drop_last()) + acks.last().packets
    }
}

/// Appending one acknowledgement appends its value.
pub proof fn lemma_view_acks_push(s: Seq<Ack>, a: Ack)
    ensures
        view_acks(s.push(a)) == view_acks(s).push(a@),
{
    assert(view_acks(s.push(a)) =~= view_acks(s).push(a@));
}

impl Clone for Ack {
    fn clone(&self) -> (r: Self)
        ensures
            r@ == self@,
    {
        Ack { source: self.source, packets: vstd::slice::slice_to_vec(self.packets.as_slice()) }
    }
}

/// Clones a vector of acks, keeping its acknowledgement values.
pub fn clone_acks(acks: &Vec<Ack>) -> (r: Vec<Ack>)
    ensures
        view_acks(r@) == view_acks(acks@),
{
    let mut r: Vec<Ack> = Vec::new();
    let mut i: usize = 0;
    while i < acks.len()
        invariant
            i <= acks@.len(),
            r@.len() == i,
            forall|j: int| 0 <= j < i ==> r@[j]@ == acks@[j]@,
        decreases acks@.len() - i,
    {
        r.push(acks[i].clone());
        i = i + 1;
    }
    proof {
        assert(view_acks(r@) =~= view_acks(acks@));
    }
    r
}

/// How a packet's payload is to be interpreted.
#[derive(Debug)]
pub enum CodingHeader {
    /// One native payload for `info.nexthop`.
    Native(CodingInfo),
    /// XOR of the listed natives' payloads; each listed nexthop is the
    /// intended recipient of its own native.
    Encoded(Vec<CodingInfo>),
    /// No payload; exists to piggyback acks when no data is flowing.
    Control(NodeID),
}

/// Mathematical value of a [`CodingHeader`].
#[verifier::ext_equal]
pub enum CodingHeaderV {
    Native(CodingInfo),
    Encoded(Seq<CodingInfo>),
    Control(NodeID),
}

impl View for CodingHeader {
    type V = CodingHeaderV;

    open spec fn view(&self) -> CodingHeaderV {
        match self {
            CodingHeader::Native(info) => CodingHeaderV::Native(*info),
            CodingHeader::Encoded(infos) => CodingHeaderV::Encoded(infos@),
            CodingHeader::Control(id) => CodingHeaderV::Control(*id),
        }
    }
}

impl Clone for CodingHeader {
    fn clone(&self) -> (r: Self)
        ensures
            r@ == self@,
    {
        match self {
            CodingHeader::Native(info) => CodingHeader::Native(*info),
            CodingHeader::Encoded(infos) => CodingHeader::Encoded(
                vstd::slice::slice_to_vec(infos.as_slice()),
            ),
            CodingHeader::Control(id) => CodingHeader::Control(*id),
        }
    }
}

/// One frame on the medium.
#[derive(Debug)]
pub struct Packet {
    pub(crate) sender: NodeID,
    pub(crate) coding_header: CodingHeader,
    pub(crate) reception_header: Vec<ReceptionReport>,
    pub(crate) ack_header: Vec<Ack>,
    pub(crate) data: PacketData,
}

/// Mathematical value of a [`Packet`].
#[verifier::ext_equal]
pub struct PacketV {
    pub sender: NodeID,
    pub coding_header: CodingHeaderV,
    pub reception_header: Seq<ReceptionReport>,
    pub ack_header: Seq<AckV>,
    pub data: Seq<u8>,
}

impl View for Packet {
    type V = PacketV;

    closed spec fn view(&self) -> PacketV {
        PacketV {
            sender: self.sender,
            coding_header: self.coding_header@,
            reception_header: self.reception_header@,
            ack_header: view_acks(self.ack_header@),
            data: self.data@,
        }
    }
}

/// How a packet's value is composed from its parts, for proofs in the
/// crate's other modules.
pub(crate) proof fn lemma_packet_view(p: &Packet)
    ensures
        p@ == (PacketV {
            sender: p.sender,
            coding_header: p.coding_header@,
            reception_header: p.reception_header@,
            ack_header: view_acks(p.ack_header@),
            data: p.data@,
        }),
{
}

impl PacketV {
    /// Well-formedness: natives and encodeds carry non-empty data and at
    /// least one coding info; controls carry no data.
    pub open spec fn wf(self) -> bool {
        match self.coding_header {
            CodingHeaderV::Native(_) => self.data.len() > 0,
            CodingHeaderV::Encoded(infos) => self.data.len() > 0 && infos.len() > 0,
            CodingHeaderV::Control(_) => self.data.len() == 0,
        }
    }
}

impl Clone for Packet {
    fn clone(&self) -> (r: Self)
        ensures
            r@ == self@,
    {
        let r = Packet {
            sender: self.sender,
            coding_header: self.coding_header.clone(),
            reception_header: vstd::slice::slice_to_vec(self.reception_header.as_slice()),
            ack_header: clone_acks(&self.ack_header),
            data: self.data.clone(),
        };
        proof {
            assert(r@ =~= self@);
        }
        r
    }
}

impl Packet {
    pub fn sender(&self) -> (r: NodeID)
        ensures
            r == self@.sender,
    {
        self.sender
    }

    pub fn data(&self) -> (r: &PacketData)
        ensures
            r@ == self@.data,
    {
        &self.data
    }

    pub fn coding_header(&self) -> (r: &CodingHeader)
        ensures
            r@ == self@.coding_header,
    {
        &self.coding_header
    }

    pub fn ack_header(&self) -> (r: &Vec<Ack>)
        ensures
            view_acks(r@) == self@.ack_header,
    {
        &self.ack_header
    }

    /// Whether this packet respects the invariant tying header variant and
    /// payload presence.
    pub fn is_wf(&self) -> (r: bool)
        ensures
            r == self@.wf(),
    {
        match &self.coding_header {
            CodingHeader::Native(_) => self.data.len() > 0,
            CodingHeader::Encoded(infos) => self.data.len() > 0 && infos.len() > 0,
            CodingHeader::Control(_) => self.data.len() == 0,
        }
    }

    /// The single node this frame can be steered to on the medium: the
    /// nexthop of a native, the first listed nexthop of an encoded, or
    /// the unicast recipient of a control.
    pub fn canonical_receiver(&self) -> (r: Option<NodeID>)
        requires
            !(self@.coding_header matches CodingHeaderV::Encoded(infos) && infos.len() == 0),
        ensures
            match self@.coding_header {
                CodingHeaderV::Native(info) => r == Some(info.nexthop),
                CodingHeaderV::Encoded(infos) => r == Some(infos[0].nexthop),
                CodingHeaderV::Control(id) => r == Some(id),
            },
    {
        match &self.coding_header {
            CodingHeader::Native(info) => Some(info.nexthop),
            CodingHeader::Encoded(infos) => Some(infos[0].nexthop),
            CodingHeader::Control(id) => Some(*id),
        }
    }

    /// Classifies the audience of this frame: a native or control has one
    /// recipient; an encoded with several components addresses several.
    pub fn receiver(&self) -> (r: PacketReceiver)
        ensures
            match self@.coding_header {
                CodingHeaderV::Native(info) => r matches PacketReceiver::Single(n) && n == info.nexthop,
                CodingHeaderV::Encoded(infos) => if infos.len() == 1 {
                    r matches PacketReceiver::Single(n) && n == infos[0].nexthop
                } else {
                    r matches PacketReceiver::Multi
                },
                CodingHeaderV::Control(id) => r matches PacketReceiver::Single(n) && n == id,
            },
    {
        match &self.coding_header {
            CodingHeader::Native(info) => PacketReceiver::Single(info.nexthop),
            CodingHeader::Encoded(infos) => if infos.len() == 1 {
                PacketReceiver::Single(infos[0].nexthop)
            } else {
                PacketReceiver::Multi
            },
            CodingHeader::Control(id) => PacketReceiver::Single(*id),
        }
    }

    pub fn set_sender(self, sender: NodeID) -> (r: Self)
        ensures
            r@.sender == sender,
            r@.coding_header == self@.coding_header,
            r@.reception_header == self@.reception_header,
            r@.ack_header == self@.ack_header,
            r@.data == self@.data,
    {
        let mut p = self;
        p.sender = sender;
        p
    }
}

/// Why a packet could not be assembled.
#[derive(Debug)]
pub struct PacketBuildError(pub &'static str);

/// Assembles a [`Packet`] field by field, validating the variant/payload
/// invariant when finished.
pub struct PacketBuilder {
    pub(crate) sender: Option<NodeID>,
    pub(crate) coding_header: Option<CodingHeader>,
    pub(crate) ack_header: Option<Vec<Ack>>,
    pub(crate) data: Option<PacketData>,
}

/// Mathematical value of a [`PacketBuilder`].
#[verifier::ext_equal]
pub struct PacketBuilderV {
    pub sender: Option<NodeID>,
    pub coding_header: Option<CodingHeaderV>,
    pub ack_header: Option<Seq<AckV>>,
    pub data: Option<Seq<u8>>,
}

impl View for PacketBuilder {
    type V = PacketBuilderV;

    closed spec fn view(&self) -> PacketBuilderV {
        PacketBuilderV {
            sender: self.sender,
            coding_header: match self.coding_header {
                Some(ref h) => Some(h@),
                None => None,
            },
            ack_header: match self.ack_header {
                Some(ref a) => Some(view_acks(a@)),
                None => None,
            },
            data: match self.data {
                Some(ref d) => Some(d@),
                None => None,
            },
        }
    }
}

impl PacketBuilderV {
    /// A builder can be completed exactly when sender, coding header and
    /// ack header are set, and the payload is present and non-empty for a
    /// native or encoded header but absent for a control header.
    pub open spec fn can_build(self) -> bool {
        &&& self.sender is Some
        &&& self.ack_header is Some
        &&& match self.coding_header {
            Some(CodingHeaderV::Native(_)) => self.data matches Some(d) && d.len() > 0,
            Some(CodingHeaderV::Encoded(infos)) => (self.data matches Some(d) && d.len() > 0)
                && infos.len() > 0,
            Some(CodingHeaderV::Control(_)) => self.data is None,
            None => false,
        }
    }

    /// The packet a completable builder describes.
    pub open spec fn built(self) -> PacketV {
        PacketV {
            sender: self.sender->0,
            coding_header: self.coding_header->0,
            reception_header: Seq::empty(),
            ack_header: self.ack_header->0,
            data: match self.data {
                Some(d) => d,
                None => Seq::empty(),
            },
        }
    }
}

impl PacketBuilder {
    pub fn new() -> (r: Self)
        ensures
            r@.sender is None,
            r@.coding_header is None,
            r@.ack_header is None,
            r@.data is None,
    {
        PacketBuilder { sender: None, coding_header: None, ack_header: None, data: None }
    }

    pub fn sender(self, sender_id: NodeID) -> (r: Self)
        ensures
            r@ == (PacketBuilderV { sender: Some(sender_id), ..self@ }),
    {
        let mut b = self;
        b.sender = Some(sender_id);
        b
    }

    pub fn data(self, data: PacketData) -> (r: Self)
        ensures
            r@ == (PacketBuilderV { data: Some(data@), ..self@ }),
    {
        let mut b = self;
        b.data = Some(data);
        b
    }

    pub fn data_raw(self, data: Vec<u8>) -> (r: Self)
        ensures
            r@ == (PacketBuilderV { data: Some(data@), ..self@ }),
    {
        let mut b = self;
        b.data = Some(PacketData::new(data));
        b
    }

    /// Sets a zero-filled payload of the given size.
    pub fn with_data_size(self, data_size: usize) -> (r: Self)
        ensures
            r@ == (PacketBuilderV {
                data: Some(Seq::new(data_size as nat, |i: int| 0u8)),
                ..self@
            }),
    {
        let mut filled: Vec<u8> = Vec::new();
        let mut i: usize = 0;
        while i < data_size
            invariant
                i <= data_size,
                filled@ =~= Seq::new(i as nat, |j: int| 0u8),
            decreases data_size - i,
        {
            filled.push(0u8);
            i = i + 1;
        }
        proof {
            assert(filled@ =~= Seq::new(data_size as nat, |j: int| 0u8));
        }
        let mut b = self;
        b.data = Some(PacketData::new(filled));
        b
    }

    pub fn control_header(self, id: NodeID) -> (r: Self)
        ensures
            r@ == (PacketBuilderV { coding_header: Some(CodingHeaderV::Control(id)), ..self@ }),
    {
        let mut b = self;
        b.coding_header = Some(CodingHeader::Control(id));
        b
    }

    pub fn encoded_header(self, infos: Vec<CodingInfo>) -> (r: Self)
        ensures
            r@ == (PacketBuilderV {
                coding_header: Some(CodingHeaderV::Encoded(infos@)),
                ..self@
            }),
    {
        let mut b = self;
        b.coding_header = Some(CodingHeader::Encoded(infos));
        b
    }

    pub fn native_header(self, info: CodingInfo) -> (r: Self)
        ensures
            r@ == (PacketBuilderV { coding_header: Some(CodingHeaderV::Native(info)), ..self@ }),
    {
        let mut b = self;
        b.coding_header = Some(CodingHeader::Native(info));
        b
    }

    pub fn ack_header(self, ack_header: Vec<Ack>) -> (r: Self)
        ensures
            r@ == (PacketBuilderV { ack_header: Some(view_acks(ack_header@)), ..self@ }),
    {
        let mut b = self;
        b.ack_header = Some(ack_header);
        b
    }

    /// Validates the builder and assembles the packet: succeeds exactly
    /// when every required field is set and the payload matches the
    /// header variant, and the built packet is then well-formed.
    pub fn build(self) -> (r: Result<Packet, PacketBuildError>)
        ensures
            r is Ok <==> self@.can_build(),
            r matches Ok(p) ==> p@ == self@.built() && p@.wf(),
    {
        let PacketBuilder { sender, coding_header, ack_header, data } = self;
        let Some(sender) = sender else {
            return Err(PacketBuildError("sender must be specified"));
        };
        let Some(coding_header) = coding_header else {
            return Err(PacketBuildError("coding header must be specified"));
        };
        let Some(ack_header) = ack_header else {
            return Err(PacketBuildError("ack header must be specified"));
        };
        let data = match (&coding_header, data) {
            (CodingHeader::Native(_), Some(d)) => {
                if d.len() == 0 {
                    return Err(PacketBuildError("native packet must have non-empty data"));
                }
                d
            },
            (CodingHeader::Native(_), None) => {
                return Err(PacketBuildError("native packet must have packet data"));
            },
            (CodingHeader::Encoded(infos), Some(d)) => {
                if d.len() == 0 {
                    return Err(PacketBuildError("encoded packet must have non-empty data"));
                }
                if infos.len() == 0 {
                    return Err(PacketBuildError("encoded packet must list a component"));
                }
                d
            },
            (CodingHeader::Encoded(_), None) => {
                return Err(PacketBuildError("encoded packet must have packet data"));
            },
            (CodingHeader::Control(_), Some(_)) => {
                return Err(PacketBuildError("control packet cannot contain packet data"));
            },
            (CodingHeader::Control(_), None) => PacketData::new(Vec::new()),
        };
        Ok(Packet { sender, coding_header, reception_header: Vec::new(), ack_header, data })
    }
}

} // verus!
