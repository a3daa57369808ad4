use vstd::prelude::*;

use crate::packet::{
    view_acks, Ack, AckV, CodingHeader, CodingHeaderV, CodingInfo, Packet, PacketError, PacketV,
    ReceptionReport,
};
use crate::packet_data::PacketData;

verus! {

/// Two little-endian bytes of a 16-bit value.
pub open spec fn le16(v: u16) -> Seq<u8> {
    seq![(v & 0xff) as u8, ((v >> 8) & 0xff) as u8]
}

/// Four little-endian bytes of a 32-bit value.
pub open spec fn le32(v: u32) -> Seq<u8> {
    seq![
        (v & 0xff) as u8,
        ((v >> 8) & 0xff) as u8,
        ((v >> 16) & 0xff) as u8,
        ((v >> 24) & 0xff) as u8,
    ]
}

/// A character on the wire: its code, in four little-endian bytes.
pub open spec fn enc_char(c: char) -> Seq<u8> {
    le32(c as u32)
}

/// One coding info on the wire: source, sequence number, nexthop.
pub open spec fn enc_info(ci: CodingInfo) -> Seq<u8> {
    enc_char(ci.source.0) + le16(ci.id) + enc_char(ci.nexthop.0)
}

/// A list of coding infos on the wire, without a count.
pub open spec fn enc_info_list(s: Seq<CodingInfo>) -> Seq<u8>
    decreases s.len(),
{
    if s.len() == 0 {
        Seq::empty()
    } else {
        enc_info_list(s.drop_last()) + enc_info(s.last())
    }
}

/// A counted list of coding infos on the wire.
pub open spec fn enc_infos(s: Seq<CodingInfo>) -> Seq<u8> {
    le16(s.len() as u16) + enc_info_list(s)
}

/// One reception report on the wire.
pub open spec fn enc_report(r: ReceptionReport) -> Seq<u8> {
    enc_char(r.source.0) + le16(r.last_id)
}

/// A list of reception reports on the wire, without a count.
pub open spec fn enc_report_list(s: Seq<ReceptionReport>) -> Seq<u8>
    decreases s.len(),
{
    if s.len() == 0 {
        Seq::empty()
    } else {
        enc_report_list(s.drop_last()) + enc_report(s.last())
    }
}

/// One acknowledgement on the wire: its source and its counted infos.
pub open spec fn enc_ack(a: AckV) -> Seq<u8> {
    enc_char(a.source.0) + enc_infos(a.packets)
}

/// A list of acknowledgements on the wire, without a count.
pub open spec fn enc_ack_list(s: Seq<AckV>) -> Seq<u8>
    decreases s.len(),
{
    if s.len() == 0 {
        Seq::empty()
    } else {
        enc_ack_list(s.drop_last()) + enc_ack(s.last())
    }
}

/// Appending one info appends its encoding.
pub proof fn lemma_enc_info_list_push(s: Seq<CodingInfo>, ci: CodingInfo)
    ensures
        enc_info_list(s.push(ci)) == enc_info_list(s) + enc_info(ci),
{
    assert(s.push(ci).drop_last() =~= s);
    assert(s.push(ci).last() == ci);
}

/// Appending one report appends its encoding.
pub proof fn lemma_enc_report_list_push(s: Seq<ReceptionReport>, r: ReceptionReport)
    ensures
        enc_report_list(s.push(r)) == enc_report_list(s) + enc_report(r),
{
    assert(s.push(r).drop_last() =~= s);
    assert(s.push(r).last() == r);
}

/// Appending one acknowledgement appends its encoding.
pub proof fn lemma_enc_ack_list_push(s: Seq<AckV>, a: AckV)
    ensures
        enc_ack_list(s.push(a)) == enc_ack_list(s) + enc_ack(a),
{
    assert(s.push(a).drop_last() =~= s);
    assert(s.push(a).last() == a);
}

/// A coding header on the wire: one tag byte, then the variant's fields.
pub open spec fn enc_header(h: CodingHeaderV) -> Seq<u8> {
    match h {
        CodingHeaderV::Native(ci) => seq![0u8] + enc_info(ci),
        CodingHeaderV::Encoded(infos) => seq![1u8] + enc_infos(infos),
        CodingHeaderV::Control(id) => seq![2u8] + enc_char(id.0),
    }
}

/// A whole packet on the wire: sender, coding header, counted reception
/// reports, counted acknowledgements, and the length-prefixed payload.
pub open spec fn spec_encode_packet(p: PacketV) -> Seq<u8> {
    enc_char(p.sender.0) + enc_header(p.coding_header) + le16(p.reception_header.len() as u16)
        + enc_report_list(p.reception_header) + le16(p.ack_header.len() as u16) + enc_ack_list(
        p.ack_header,
    ) + le32(p.data.len() as u32) + p.data
}

/// Whether every list of the packet fits its length prefix.
pub open spec fn encodable(p: PacketV) -> bool {
    &&& (p.coding_header matches CodingHeaderV::Encoded(infos) ==> infos.len() <= u16::MAX)
    &&& p.reception_header.len() <= u16::MAX
    &&& p.ack_header.len() <= u16::MAX
    &&& (forall|i: int|
        0 <= i < p.ack_header.len() ==> (#[trigger] p.ack_header[i]).packets.len() <= u16::MAX)
    &&& p.data.len() <= u32::MAX
}

/// Whether the bytes at position `pos` begin with the segment `seg`.
pub open spec fn starts_with(bytes: Seq<u8>, pos: int, seg: Seq<u8>) -> bool {
    0 <= pos && pos + seg.len() <= bytes.len() && bytes.subrange(pos, pos + seg.len()) == seg
}

/// Whether a counted list of coding infos lies at `pos`.
pub open spec fn infos_at(bytes: Seq<u8>, pos: int) -> bool {
    exists|s: Seq<CodingInfo>| s.len() <= u16::MAX && starts_with(bytes, pos, enc_infos(s))
}

/// Whether a counted list of reception reports lies at `pos`.
pub open spec fn reports_at(bytes: Seq<u8>, pos: int) -> bool {
    exists|s: Seq<ReceptionReport>|
        s.len() <= u16::MAX && starts_with(bytes, pos, le16(s.len() as u16) + enc_report_list(s))
}

/// Whether a counted list of acknowledgements lies at `pos`.
pub open spec fn acks_at(bytes: Seq<u8>, pos: int) -> bool {
    exists|s: Seq<AckV>|
        s.len() <= u16::MAX && (forall|i: int|
            0 <= i < s.len() ==> (#[trigger] s[i]).packets.len() <= u16::MAX) && starts_with(
            bytes,
            pos,
            le16(s.len() as u16) + enc_ack_list(s),
        )
}

/// Whether a length-prefixed payload lies at `pos`.
pub open spec fn payload_at(bytes: Seq<u8>, pos: int) -> bool {
    exists|d: Seq<u8>|
        d.len() <= u32::MAX && starts_with(bytes, pos, le32(d.len() as u32) + d)
}

/// Concatenations agree piecewise once the leading pieces have equal
/// length.
proof fn lemma_concat_cancel<T>(x: Seq<T>, a: Seq<T>, y: Seq<T>, b: Seq<T>)
    requires
        x + a == y + b,
        x.len() == y.len(),
    ensures
        x == y,
        a == b,
{
    assert forall|i: int| 0 <= i < x.len() implies x[i] == y[i] by {
        assert((x + a)[i] == x[i]);
        assert((y + b)[i] == y[i]);
    }
    assert(x =~= y);
    assert((x + a).len() == x.len() + a.len());
    assert((y + b).len() == y.len() + b.len());
    assert(a.len() == b.len());
    assert forall|i: int| 0 <= i < a.len() implies a[i] == b[i] by {
        assert((x + a)[x.len() + i] == a[i]);
        assert((y + b)[y.len() + i] == b[i]);
    }
    assert(a =~= b);
}

/// A 16-bit value is determined by its little-endian bytes.
proof fn lemma_le16_inj(v: u16, w: u16)
    requires
        le16(v) == le16(w),
    ensures
        v == w,
{
    assert((v & 0xff) as u8 == (w & 0xff) as u8);
    assert(((v >> 8) & 0xff) as u8 == ((w >> 8) & 0xff) as u8);
    assert(v == w) by (bit_vector)
        requires
            (v & 0xff) as u8 == (w & 0xff) as u8,
            ((v >> 8) & 0xff) as u8 == ((w >> 8) & 0xff) as u8,
    ;
}

/// A 32-bit value is determined by its little-endian bytes.
proof fn lemma_le32_inj(v: u32, w: u32)
    requires
        le32(v) == le32(w),
    ensures
        v == w,
{
    assert((v & 0xff) as u8 == (w & 0xff) as u8);
    assert(((v >> 8) & 0xff) as u8 == ((w >> 8) & 0xff) as u8);
    assert(((v >> 16) & 0xff) as u8 == ((w >> 16) & 0xff) as u8);
    assert(((v >> 24) & 0xff) as u8 == ((w >> 24) & 0xff) as u8);
    assert(v == w) by (bit_vector)
        requires
            (v & 0xff) as u8 == (w & 0xff) as u8,
            ((v >> 8) & 0xff) as u8 == ((w >> 8) & 0xff) as u8,
            ((v >> 16) & 0xff) as u8 == ((w >> 16) & 0xff) as u8,
            ((v >> 24) & 0xff) as u8 == ((w >> 24) & 0xff) as u8,
    ;
}

/// A character is determined by its rendering.
proof fn lemma_enc_char_inj(c1: char, c2: char)
    requires
        enc_char(c1) == enc_char(c2),
    ensures
        c1 == c2,
{
    lemma_le32_inj(c1 as u32, c2 as u32);
}

/// A coding info is determined by its rendering.
proof fn lemma_enc_info_inj(a: CodingInfo, b: CodingInfo)
    requires
        enc_info(a) == enc_info(b),
    ensures
        a == b,
{
    assert(enc_info(a) =~= enc_char(a.source.0) + (le16(a.id) + enc_char(a.nexthop.0)));
    assert(enc_info(b) =~= enc_char(b.source.0) + (le16(b.id) + enc_char(b.nexthop.0)));
    lemma_concat_cancel(
        enc_char(a.source.0),
        le16(a.id) + enc_char(a.nexthop.0),
        enc_char(b.source.0),
        le16(b.id) + enc_char(b.nexthop.0),
    );
    lemma_enc_char_inj(a.source.0, b.source.0);
    lemma_concat_cancel(le16(a.id), enc_char(a.nexthop.0), le16(b.id), enc_char(b.nexthop.0));
    lemma_le16_inj(a.id, b.id);
    lemma_enc_char_inj(a.nexthop.0, b.nexthop.0);
}

/// Every coding info takes ten bytes on the wire.
proof fn lemma_enc_info_list_len(s: Seq<CodingInfo>)
    ensures
        enc_info_list(s).len() == 10 * s.len(),
    decreases s.len(),
{
    if s.len() > 0 {
        lemma_enc_info_list_len(s.drop_last());
    }
}

/// Equally long lists of coding infos are determined by their rendering.
proof fn lemma_enc_info_list_inj(s1: Seq<CodingInfo>, s2: Seq<CodingInfo>)
    requires
        enc_info_list(s1) == enc_info_list(s2),
        s1.len() == s2.len(),
    ensures
        s1 == s2,
    decreases s1.len(),
{
    if s1.len() > 0 {
        lemma_enc_info_list_len(s1.drop_last());
        lemma_enc_info_list_len(s2.drop_last());
        lemma_concat_cancel(
            enc_info_list(s1.drop_last()),
            enc_info(s1.last()),
            enc_info_list(s2.drop_last()),
            enc_info(s2.last()),
        );
        lemma_enc_info_list_inj(s1.drop_last(), s2.drop_last());
        lemma_enc_info_inj(s1.last(), s2.last());
        assert forall|i: int| 0 <= i < s1.len() implies s1[i] == s2[i] by {
            if i < s1.len() - 1 {
                assert(s1.drop_last()[i] == s1[i]);
                assert(s2.drop_last()[i] == s2[i]);
            }
        }
        assert(s1 =~= s2);
    } else {
        assert(s1 =~= s2);
    }
}

/// A counted list of coding infos is determined by its rendering, and so
/// is whatever follows it.
proof fn lemma_enc_infos_prefix(s1: Seq<CodingInfo>, t1: Seq<u8>, s2: Seq<CodingInfo>, t2: Seq<u8>)
    requires
        enc_infos(s1) + t1 == enc_infos(s2) + t2,
        s1.len() <= u16::MAX,
        s2.len() <= u16::MAX,
    ensures
        s1 == s2,
        t1 == t2,
{
    assert(enc_infos(s1) + t1 =~= le16(s1.len() as u16) + (enc_info_list(s1) + t1));
    assert(enc_infos(s2) + t2 =~= le16(s2.len() as u16) + (enc_info_list(s2) + t2));
    lemma_concat_cancel(
        le16(s1.len() as u16),
        enc_info_list(s1) + t1,
        le16(s2.len() as u16),
        enc_info_list(s2) + t2,
    );
    lemma_le16_inj(s1.len() as u16, s2.len() as u16);
    lemma_enc_info_list_len(s1);
    lemma_enc_info_list_len(s2);
    lemma_concat_cancel(enc_info_list(s1), t1, enc_info_list(s2), t2);
    lemma_enc_info_list_inj(s1, s2);
}

/// Every reception report takes six bytes on the wire.
proof fn lemma_enc_report_list_len(s: Seq<ReceptionReport>)
    ensures
        enc_report_list(s).len() == 6 * s.len(),
    decreases s.len(),
{
    if s.len() > 0 {
        lemma_enc_report_list_len(s.drop_last());
    }
}

/// Equally long lists of reception reports are determined by their
/// rendering.
proof fn lemma_enc_report_list_inj(s1: Seq<ReceptionReport>, s2: Seq<ReceptionReport>)
    requires
        enc_report_list(s1) == enc_report_list(s2),
        s1.len() == s2.len(),
    ensures
        s1 == s2,
    decreases s1.len(),
{
    if s1.len() > 0 {
        lemma_enc_report_list_len(s1.drop_last());
        lemma_enc_report_list_len(s2.drop_last());
        lemma_concat_cancel(
            enc_report_list(s1.drop_last()),
            enc_report(s1.last()),
            enc_report_list(s2.drop_last()),
            enc_report(s2.last()),
        );
        lemma_enc_report_list_inj(s1.drop_last(), s2.drop_last());
        let r1 = s1.last();
        let r2 = s2.last();
        lemma_concat_cancel(enc_char(r1.source.0), le16(r1.last_id), enc_char(r2.source.0), le16(r2.last_id));
        lemma_enc_char_inj(r1.source.0, r2.source.0);
        lemma_le16_inj(r1.last_id, r2.last_id);
        assert(r1 == r2);
        assert forall|i: int| 0 <= i < s1.len() implies s1[i] == s2[i] by {
            if i < s1.len() - 1 {
                assert(s1.drop_last()[i] == s1[i]);
                assert(s2.drop_last()[i] == s2[i]);
            }
        }
        assert(s1 =~= s2);
    } else {
        assert(s1 =~= s2);
    }
}

/// An acknowledgement is determined by its rendering, and so is whatever
/// follows it.
proof fn lemma_enc_ack_prefix(a1: AckV, t1: Seq<u8>, a2: AckV, t2: Seq<u8>)
    requires
        enc_ack(a1) + t1 == enc_ack(a2) + t2,
        a1.packets.len() <= u16::MAX,
        a2.packets.len() <= u16::MAX,
    ensures
        a1 == a2,
        t1 == t2,
{
    assert(enc_ack(a1) + t1 =~= enc_char(a1.source.0) + (enc_infos(a1.packets) + t1));
    assert(enc_ack(a2) + t2 =~= enc_char(a2.source.0) + (enc_infos(a2.packets) + t2));
    lemma_concat_cancel(
        enc_char(a1.source.0),
        enc_infos(a1.packets) + t1,
        enc_char(a2.source.0),
        enc_infos(a2.packets) + t2,
    );
    lemma_enc_char_inj(a1.source.0, a2.source.0);
    lemma_enc_infos_prefix(a1.packets, t1, a2.packets, t2);
    assert(a1 =~= a2);
}

/// An acknowledgement list also renders front to back.
proof fn lemma_enc_ack_list_first(s: Seq<AckV>)
    requires
        s.len() > 0,
    ensures
        enc_ack_list(s) == enc_ack(s[0]) + enc_ack_list(s.drop_first()),
    decreases s.len(),
{
    if s.len() == 1 {
        assert(s.drop_last() =~= Seq::<AckV>::empty());
        assert(s.drop_first() =~= Seq::<AckV>::empty());
        assert(enc_ack_list(s) =~= enc_ack(s[0]) + enc_ack_list(s.drop_first()));
    } else {
        lemma_enc_ack_list_first(s.drop_last());
        assert(s.drop_last()[0] == s[0]);
        assert(s.drop_last().drop_first() =~= s.drop_first().drop_last());
        assert(s.drop_first().last() == s.last());
        assert(enc_ack_list(s.drop_first()) == enc_ack_list(s.drop_first().drop_last()) + enc_ack(
            s.last(),
        ));
        assert(enc_ack_list(s) =~= enc_ack(s[0]) + enc_ack_list(s.drop_first()));
    }
}

/// A rendered list of coding infos holds each info at its slot.
proof fn lemma_enc_info_list_index(s: Seq<CodingInfo>, k: int)
    requires
        0 <= k < s.len(),
    ensures
        enc_info_list(s).len() == 10 * s.len(),
        enc_info_list(s).subrange(10 * k, 10 * k + 10) == enc_info(s[k]),
    decreases s.len(),
{
    lemma_enc_info_list_len(s);
    lemma_enc_info_list_len(s.drop_last());
    if k == s.len() - 1 {
        assert(enc_info_list(s).subrange(10 * k, 10 * k + 10) =~= enc_info(s.last()));
    } else {
        lemma_enc_info_list_index(s.drop_last(), k);
        assert(enc_info_list(s).subrange(10 * k, 10 * k + 10) =~= enc_info_list(
            s.drop_last(),
        ).subrange(10 * k, 10 * k + 10));
    }
}

/// A rendered list of reception reports holds each report at its slot.
proof fn lemma_enc_report_list_index(s: Seq<ReceptionReport>, k: int)
    requires
        0 <= k < s.len(),
    ensures
        enc_report_list(s).len() == 6 * s.len(),
        enc_report_list(s).subrange(6 * k, 6 * k + 6) == enc_report(s[k]),
    decreases s.len(),
{
    lemma_enc_report_list_len(s);
    lemma_enc_report_list_len(s.drop_last());
    if k == s.len() - 1 {
        assert(enc_report_list(s).subrange(6 * k, 6 * k + 6) =~= enc_report(s.last()));
    } else {
        lemma_enc_report_list_index(s.drop_last(), k);
        assert(enc_report_list(s).subrange(6 * k, 6 * k + 6) =~= enc_report_list(
            s.drop_last(),
        ).subrange(6 * k, 6 * k + 6));
    }
}

/// A rendered list of acknowledgements splits at any position.
proof fn lemma_enc_ack_list_split(s: Seq<AckV>, k: int)
    requires
        0 <= k <= s.len(),
    ensures
        enc_ack_list(s) == enc_ack_list(s.subrange(0, k)) + enc_ack_list(
            s.subrange(k, s.len() as int),
        ),
    decreases s.len() - k,
{
    if k == s.len() {
        assert(s.subrange(0, k) =~= s);
        assert(enc_ack_list(s.subrange(k, s.len() as int)) =~= Seq::<u8>::empty());
        assert(enc_ack_list(s) =~= enc_ack_list(s.subrange(0, k)) + enc_ack_list(
            s.subrange(k, s.len() as int),
        ));
    } else {
        lemma_enc_ack_list_split(s, k + 1);
        lemma_enc_ack_list_first(s.subrange(k, s.len() as int));
        assert(s.subrange(k, s.len() as int)[0] == s[k]);
        assert(s.subrange(k, s.len() as int).drop_first() =~= s.subrange(k + 1, s.len() as int));
        assert(s.subrange(0, k + 1).drop_last() =~= s.subrange(0, k));
        assert(s.subrange(0, k + 1).last() == s[k]);
        assert(enc_ack_list(s.subrange(0, k + 1)) == enc_ack_list(s.subrange(0, k)) + enc_ack(
            s[k],
        ));
        assert(enc_ack_list(s.subrange(0, k)) + enc_ack_list(s.subrange(k, s.len() as int))
            =~= (enc_ack_list(s.subrange(0, k)) + enc_ack(s[k])) + enc_ack_list(
            s.subrange(k + 1, s.len() as int),
        ));
    }
}

/// Equally long lists of acknowledgements are determined by their
/// rendering, and so is whatever follows them.
proof fn lemma_enc_ack_list_prefix(s1: Seq<AckV>, t1: Seq<u8>, s2: Seq<AckV>, t2: Seq<u8>)
    requires
        enc_ack_list(s1) + t1 == enc_ack_list(s2) + t2,
        s1.len() == s2.len(),
        forall|i: int| 0 <= i < s1.len() ==> (#[trigger] s1[i]).packets.len() <= u16::MAX,
        forall|i: int| 0 <= i < s2.len() ==> (#[trigger] s2[i]).packets.len() <= u16::MAX,
    ensures
        s1 == s2,
        t1 == t2,
    decreases s1.len(),
{
    if s1.len() == 0 {
        assert(enc_ack_list(s1) =~= Seq::<u8>::empty());
        assert(enc_ack_list(s2) =~= Seq::<u8>::empty());
        assert(enc_ack_list(s1) + t1 =~= t1);
        assert(enc_ack_list(s2) + t2 =~= t2);
        assert(s1 =~= s2);
    } else {
        lemma_enc_ack_list_first(s1);
        lemma_enc_ack_list_first(s2);
        assert(enc_ack_list(s1) + t1 =~= enc_ack(s1[0]) + (enc_ack_list(s1.drop_first()) + t1));
        assert(enc_ack_list(s2) + t2 =~= enc_ack(s2[0]) + (enc_ack_list(s2.drop_first()) + t2));
        lemma_enc_ack_prefix(s1[0], enc_ack_list(s1.drop_first()) + t1, s2[0], enc_ack_list(
            s2.drop_first(),
        ) + t2);
        lemma_enc_ack_list_prefix(s1.drop_first(), t1, s2.drop_first(), t2);
        assert forall|i: int| 0 <= i < s1.len() implies s1[i] == s2[i] by {
            if i > 0 {
                assert(s1.drop_first()[i - 1] == s1[i]);
                assert(s2.drop_first()[i - 1] == s2[i]);
            }
        }
        assert(s1 =~= s2);
    }
}

/// A coding header is determined by its rendering together with the
/// length of the bytes that follow it; only the byte spans matter here.
proof fn lemma_enc_header_prefix(h1: CodingHeaderV, t1: Seq<u8>, h2: CodingHeaderV, t2: Seq<u8>)
    requires
        enc_header(h1) + t1 == enc_header(h2) + t2,
        h1 matches CodingHeaderV::Encoded(a) ==> a.len() <= u16::MAX,
        h2 matches CodingHeaderV::Encoded(b) ==> b.len() <= u16::MAX,
    ensures
        h1 == h2,
        t1 == t2,
{
    let w1 = enc_header(h1) + t1;
    let w2 = enc_header(h2) + t2;
    assert(w1[0] == w2[0]);
    match (h1, h2) {
        (CodingHeaderV::Native(a), CodingHeaderV::Native(b)) => {
            assert(w1 =~= seq![0u8] + (enc_info(a) + t1));
            assert(w2 =~= seq![0u8] + (enc_info(b) + t2));
            lemma_concat_cancel(seq![0u8], enc_info(a) + t1, seq![0u8], enc_info(b) + t2);
            lemma_concat_cancel(enc_info(a), t1, enc_info(b), t2);
            lemma_enc_info_inj(a, b);
        },
        (CodingHeaderV::Encoded(a), CodingHeaderV::Encoded(b)) => {
            assert(w1 =~= seq![1u8] + (enc_infos(a) + t1));
            assert(w2 =~= seq![1u8] + (enc_infos(b) + t2));
            lemma_concat_cancel(seq![1u8], enc_infos(a) + t1, seq![1u8], enc_infos(b) + t2);
            lemma_enc_infos_prefix(a, t1, b, t2);
        },
        (CodingHeaderV::Control(a), CodingHeaderV::Control(b)) => {
            assert(w1 =~= seq![2u8] + (enc_char(a.0) + t1));
            assert(w2 =~= seq![2u8] + (enc_char(b.0) + t2));
            lemma_concat_cancel(seq![2u8], enc_char(a.0) + t1, seq![2u8], enc_char(b.0) + t2);
            lemma_concat_cancel(enc_char(a.0), t1, enc_char(b.0), t2);
            lemma_enc_char_inj(a.0, b.0);
        },
        _ => {
            assert(w1[0] != w2[0]);
        },
    }
    assert(h1 =~= h2);
}

/// A well-formed packet is determined by its rendering, and so is
/// whatever follows it on the wire.
#[verifier::rlimit(100)]
#[verifier::spinoff_prover]
pub proof fn lemma_encode_prefix(p1: PacketV, p2: PacketV, t1: Seq<u8>, t2: Seq<u8>)
    requires
        encodable(p1),
        encodable(p2),
        spec_encode_packet(p1) + t1 == spec_encode_packet(p2) + t2,
    ensures
        p1 == p2,
        t1 == t2,
{
    let tail1 = le16(p1.reception_header.len() as u16) + (enc_report_list(p1.reception_header) + (
    le16(p1.ack_header.len() as u16) + (enc_ack_list(p1.ack_header) + (le32(p1.data.len() as u32)
        + (p1.data + t1)))));
    let tail2 = le16(p2.reception_header.len() as u16) + (enc_report_list(p2.reception_header) + (
    le16(p2.ack_header.len() as u16) + (enc_ack_list(p2.ack_header) + (le32(p2.data.len() as u32)
        + (p2.data + t2)))));
    assert(spec_encode_packet(p1) + t1 =~= enc_char(p1.sender.0) + (enc_header(p1.coding_header)
        + tail1));
    assert(spec_encode_packet(p2) + t2 =~= enc_char(p2.sender.0) + (enc_header(p2.coding_header)
        + tail2));
    lemma_concat_cancel(
        enc_char(p1.sender.0),
        enc_header(p1.coding_header) + tail1,
        enc_char(p2.sender.0),
        enc_header(p2.coding_header) + tail2,
    );
    lemma_enc_char_inj(p1.sender.0, p2.sender.0);
    // the leading tag byte decides the header variant
    let h1 = enc_header(p1.coding_header) + tail1;
    let h2 = enc_header(p2.coding_header) + tail2;
    assert(h1[0] == h2[0]);
    match (p1.coding_header, p2.coding_header) {
        (CodingHeaderV::Native(a), CodingHeaderV::Native(b)) => {
            assert(h1 =~= seq![0u8] + (enc_info(a) + tail1));
            assert(h2 =~= seq![0u8] + (enc_info(b) + tail2));
            lemma_concat_cancel(seq![0u8], enc_info(a) + tail1, seq![0u8], enc_info(b) + tail2);
            lemma_concat_cancel(enc_info(a), tail1, enc_info(b), tail2);
            lemma_enc_info_inj(a, b);
            lemma_tail_prefix(p1, p2, t1, t2, tail1, tail2);
        },
        (CodingHeaderV::Encoded(a), CodingHeaderV::Encoded(b)) => {
            assert(h1 =~= seq![1u8] + (enc_infos(a) + tail1));
            assert(h2 =~= seq![1u8] + (enc_infos(b) + tail2));
            lemma_concat_cancel(seq![1u8], enc_infos(a) + tail1, seq![1u8], enc_infos(b) + tail2);
            lemma_enc_infos_prefix(a, tail1, b, tail2);
            lemma_tail_prefix(p1, p2, t1, t2, tail1, tail2);
        },
        (CodingHeaderV::Control(a), CodingHeaderV::Control(b)) => {
            assert(h1 =~= seq![2u8] + (enc_char(a.0) + tail1));
            assert(h2 =~= seq![2u8] + (enc_char(b.0) + tail2));
            lemma_concat_cancel(seq![2u8], enc_char(a.0) + tail1, seq![2u8], enc_char(b.0) + tail2);
            lemma_concat_cancel(enc_char(a.0), tail1, enc_char(b.0), tail2);
            lemma_enc_char_inj(a.0, b.0);
            lemma_tail_prefix(p1, p2, t1, t2, tail1, tail2);
        },
        _ => {
            assert(h1[0] != h2[0]);
        },
    }
    assert(p1 =~= p2);
}

/// No two well-formed packets share a rendering: a parsed frame pins the
/// packet that was sent uniquely.
pub proof fn lemma_encoding_injective(p1: PacketV, p2: PacketV)
    requires
        encodable(p1),
        encodable(p2),
        spec_encode_packet(p1) == spec_encode_packet(p2),
    ensures
        p1 == p2,
{
    assert(spec_encode_packet(p1) + Seq::<u8>::empty() =~= spec_encode_packet(p1));
    assert(spec_encode_packet(p2) + Seq::<u8>::empty() =~= spec_encode_packet(p2));
    lemma_encode_prefix(p1, p2, Seq::empty(), Seq::empty());
}

/// The parts of a packet behind the coding header are determined by
/// their rendering, and so is whatever follows them on the wire.
proof fn lemma_tail_prefix(
    p1: PacketV,
    p2: PacketV,
    t1: Seq<u8>,
    t2: Seq<u8>,
    tail1: Seq<u8>,
    tail2: Seq<u8>,
)
    requires
        encodable(p1),
        encodable(p2),
        tail1 == le16(p1.reception_header.len() as u16) + (enc_report_list(p1.reception_header) + (
        le16(p1.ack_header.len() as u16) + (enc_ack_list(p1.ack_header) + (le32(
            p1.data.len() as u32,
        ) + (p1.data + t1))))),
        tail2 == le16(p2.reception_header.len() as u16) + (enc_report_list(p2.reception_header) + (
        le16(p2.ack_header.len() as u16) + (enc_ack_list(p2.ack_header) + (le32(
            p2.data.len() as u32,
        ) + (p2.data + t2))))),
        tail1 == tail2,
    ensures
        p1.reception_header == p2.reception_header,
        p1.ack_header == p2.ack_header,
        p1.data == p2.data,
        t1 == t2,
{
    lemma_concat_cancel(
        le16(p1.reception_header.len() as u16),
        enc_report_list(p1.reception_header) + (le16(p1.ack_header.len() as u16) + (enc_ack_list(
            p1.ack_header,
        ) + (le32(p1.data.len() as u32) + (p1.data + t1)))),
        le16(p2.reception_header.len() as u16),
        enc_report_list(p2.reception_header) + (le16(p2.ack_header.len() as u16) + (enc_ack_list(
            p2.ack_header,
        ) + (le32(p2.data.len() as u32) + (p2.data + t2)))),
    );
    lemma_le16_inj(p1.reception_header.len() as u16, p2.reception_header.len() as u16);
    lemma_enc_report_list_len(p1.reception_header);
    lemma_enc_report_list_len(p2.reception_header);
    lemma_concat_cancel(
        enc_report_list(p1.reception_header),
        le16(p1.ack_header.len() as u16) + (enc_ack_list(p1.ack_header) + (le32(
            p1.data.len() as u32,
        ) + (p1.data + t1))),
        enc_report_list(p2.reception_header),
        le16(p2.ack_header.len() as u16) + (enc_ack_list(p2.ack_header) + (le32(
            p2.data.len() as u32,
        ) + (p2.data + t2))),
    );
    lemma_enc_report_list_inj(p1.reception_header, p2.reception_header);
    lemma_concat_cancel(
        le16(p1.ack_header.len() as u16),
        enc_ack_list(p1.ack_header) + (le32(p1.data.len() as u32) + (p1.data + t1)),
        le16(p2.ack_header.len() as u16),
        enc_ack_list(p2.ack_header) + (le32(p2.data.len() as u32) + (p2.data + t2)),
    );
    lemma_le16_inj(p1.ack_header.len() as u16, p2.ack_header.len() as u16);
    lemma_enc_ack_list_prefix(
        p1.ack_header,
        le32(p1.data.len() as u32) + (p1.data + t1),
        p2.ack_header,
        le32(p2.data.len() as u32) + (p2.data + t2),
    );
    lemma_concat_cancel(
        le32(p1.data.len() as u32),
        p1.data + t1,
        le32(p2.data.len() as u32),
        p2.data + t2,
    );
    lemma_le32_inj(p1.data.len() as u32, p2.data.len() as u32);
    lemma_concat_cancel(p1.data, t1, p2.data, t2);
}

/// Assembling a 32-bit value from four bytes gives those bytes back,
/// little-endian.
proof fn lemma_le32_bytes(v: u32, b0: u8, b1: u8, b2: u8, b3: u8)
    requires
        v == (b0 as u32) | ((b1 as u32) << 8) | ((b2 as u32) << 16) | ((b3 as u32) << 24),
    ensures
        (v & 0xff) as u8 == b0,
        ((v >> 8) & 0xff) as u8 == b1,
        ((v >> 16) & 0xff) as u8 == b2,
        ((v >> 24) & 0xff) as u8 == b3,
{
    assert((v & 0xff) as u8 == b0 && ((v >> 8) & 0xff) as u8 == b1 && ((v >> 16) & 0xff) as u8
        == b2 && ((v >> 24) & 0xff) as u8 == b3) by (bit_vector)
        requires
            v == (b0 as u32) | ((b1 as u32) << 8) | ((b2 as u32) << 16) | ((b3 as u32) << 24),
    ;
}

/// Assembling a 16-bit value from two bytes gives those bytes back,
/// little-endian.
proof fn lemma_le16_bytes(v: u16, b0: u8, b1: u8)
    requires
        v == (b0 as u16) | ((b1 as u16) << 8),
    ensures
        (v & 0xff) as u8 == b0,
        ((v >> 8) & 0xff) as u8 == b1,
{
    assert((v & 0xff) as u8 == b0 && ((v >> 8) & 0xff) as u8 == b1) by (bit_vector)
        requires
            v == (b0 as u16) | ((b1 as u16) << 8),
    ;
}

/// Appends a 16-bit value little-endian.
fn write_u16(out: &mut Vec<u8>, v: u16)
    ensures
        final(out)@ == old(out)@ + le16(v),
{
    out.push(#[verifier::truncate] ((v & 0xff) as u8));
    out.push(#[verifier::truncate] (((v >> 8) & 0xff) as u8));
    proof {
        assert(final(out)@ =~= old(out)@ + le16(v));
    }
}

/// Appends a 32-bit value little-endian.
fn write_u32(out: &mut Vec<u8>, v: u32)
    ensures
        final(out)@ == old(out)@ + le32(v),
{
    out.push(#[verifier::truncate] ((v & 0xff) as u8));
    out.push(#[verifier::truncate] (((v >> 8) & 0xff) as u8));
    out.push(#[verifier::truncate] (((v >> 16) & 0xff) as u8));
    out.push(#[verifier::truncate] (((v >> 24) & 0xff) as u8));
    proof {
        assert(final(out)@ =~= old(out)@ + le32(v));
    }
}

/// Appends a character's code.
fn write_char(out: &mut Vec<u8>, c: char)
    ensures
        final(out)@ == old(out)@ + enc_char(c),
{
    write_u32(out, c as u32);
}

/// Appends one coding info.
fn write_info(out: &mut Vec<u8>, ci: &CodingInfo)
    ensures
        final(out)@ == old(out)@ + enc_info(*ci),
{
    write_char(out, ci.source.0);
    write_u16(out, ci.id);
    write_char(out, ci.nexthop.0);
    proof {
        assert(final(out)@ =~= old(out)@ + enc_info(*ci));
    }
}

/// Appends a counted list of coding infos; the count must fit.
fn write_infos(out: &mut Vec<u8>, infos: &Vec<CodingInfo>)
    requires
        infos@.len() <= u16::MAX,
    ensures
        final(out)@ == old(out)@ + enc_infos(infos@),
{
    write_u16(out, infos.len() as u16);
    let mut k: usize = 0;
    while k < infos.len()
        invariant
            k <= infos@.len(),
            out@ == old(out)@ + le16(infos@.len() as u16) + enc_info_list(
                infos@.subrange(0, k as int),
            ),
        decreases infos@.len() - k,
    {
        let ghost prefix = infos@.subrange(0, k as int);
        let ghost prefix1 = infos@.subrange(0, k + 1 as int);
        proof {
            assert(prefix1.drop_last() =~= prefix);
            assert(prefix1.last() == infos@[k as int]);
        }
        write_info(out, &infos[k]);
        proof {
            assert(out@ =~= old(out)@ + le16(infos@.len() as u16) + enc_info_list(prefix1));
        }
        k = k + 1;
    }
    proof {
        assert(infos@.subrange(0, infos@.len() as int) =~= infos@);
    }
}


/// Appends a counted list of reception reports; the count must fit.
fn write_reports(out: &mut Vec<u8>, reports: &Vec<ReceptionReport>)
    requires
        reports@.len() <= u16::MAX,
    ensures
        final(out)@ == old(out)@ + le16(reports@.len() as u16) + enc_report_list(reports@),
{
    write_u16(out, reports.len() as u16);
    let mut k: usize = 0;
    while k < reports.len()
        invariant
            k <= reports@.len(),
            out@ == old(out)@ + le16(reports@.len() as u16) + enc_report_list(
                reports@.subrange(0, k as int),
            ),
        decreases reports@.len() - k,
    {
        let ghost prefix = reports@.subrange(0, k as int);
        let ghost prefix1 = reports@.subrange(0, k + 1 as int);
        proof {
            assert(prefix1.drop_last() =~= prefix);
            assert(prefix1.last() == reports@[k as int]);
        }
        write_char(out, reports[k].source.0);
        write_u16(out, reports[k].last_id);
        proof {
            assert(out@ =~= old(out)@ + le16(reports@.len() as u16) + enc_report_list(prefix1));
        }
        k = k + 1;
    }
    proof {
        assert(reports@.subrange(0, reports@.len() as int) =~= reports@);
    }
}

/// Appends a counted list of acknowledgements; every count must fit.
fn write_acks(out: &mut Vec<u8>, acks: &Vec<Ack>) -> (r: Result<(), PacketError>)
    requires
        acks@.len() <= u16::MAX,
    ensures
        r is Ok <==> (forall|i: int|
            0 <= i < acks@.len() ==> (#[trigger] view_acks(acks@)[i]).packets.len() <= u16::MAX),
        r is Ok ==> final(out)@ == old(out)@ + le16(acks@.len() as u16) + enc_ack_list(
            view_acks(acks@),
        ),
{
    write_u16(out, acks.len() as u16);
    let mut k: usize = 0;
    while k < acks.len()
        invariant
            k <= acks@.len(),
            out@ == old(out)@ + le16(acks@.len() as u16) + enc_ack_list(
                view_acks(acks@).subrange(0, k as int),
            ),
            forall|i: int|
                0 <= i < k ==> (#[trigger] view_acks(acks@)[i]).packets.len() <= u16::MAX,
        decreases acks@.len() - k,
    {
        let ghost prefix = view_acks(acks@).subrange(0, k as int);
        let ghost prefix1 = view_acks(acks@).subrange(0, k + 1 as int);
        proof {
            assert(prefix1.drop_last() =~= prefix);
            assert(prefix1.last() == view_acks(acks@)[k as int]);
            assert(view_acks(acks@)[k as int] == acks@[k as int]@);
        }
        let ack = &acks[k];
        if ack.packets.len() > u16::MAX as usize {
            return Err(PacketError::InvalidSize);
        }
        write_char(out, ack.source.0);
        write_infos(out, &ack.packets);
        proof {
            assert(out@ =~= old(out)@ + le16(acks@.len() as u16) + enc_ack_list(prefix1));
        }
        k = k + 1;
    }
    proof {
        assert(view_acks(acks@).subrange(0, view_acks(acks@).len() as int) =~= view_acks(acks@));
    }
    Ok(())
}

impl Packet {
    /// Renders this packet in the layer's little-endian wire format; it
    /// fails with an invalid size exactly when some list outgrows its
    /// length prefix.
    #[verifier::rlimit(100)]
    #[verifier::spinoff_prover]
    pub fn serialize_into(&self) -> (r: Result<Vec<u8>, PacketError>)
        ensures
            r is Ok <==> encodable(self@),
            r matches Ok(b) ==> b@ == spec_encode_packet(self@),
    {
        proof {
            crate::packet::lemma_packet_view(self);
        }
        let mut out: Vec<u8> = Vec::new();
        write_char(&mut out, self.sender.0);
        match &self.coding_header {
            CodingHeader::Native(ci) => {
                out.push(0u8);
                write_info(&mut out, ci);
                proof {
                    assert(out@ =~= enc_char(self@.sender.0) + enc_header(self@.coding_header));
                }
            },
            CodingHeader::Encoded(infos) => {
                if infos.len() > u16::MAX as usize {
                    proof {
                        assert(self@.coding_header == CodingHeaderV::Encoded(infos@));
                        assert(!encodable(self@));
                    }
                    return Err(PacketError::InvalidSize);
                }
                out.push(1u8);
                write_infos(&mut out, infos);
                proof {
                    assert(self@.coding_header == CodingHeaderV::Encoded(infos@));
                    assert(out@ =~= enc_char(self@.sender.0) + enc_header(self@.coding_header));
                }
            },
            CodingHeader::Control(id) => {
                out.push(2u8);
                write_char(&mut out, id.0);
                proof {
                    assert(out@ =~= enc_char(self@.sender.0) + enc_header(self@.coding_header));
                }
            },
        }
        let ghost head = out@;
        if self.reception_header.len() > u16::MAX as usize {
            return Err(PacketError::InvalidSize);
        }
        write_reports(&mut out, &self.reception_header);
        if self.ack_header.len() > u16::MAX as usize {
            return Err(PacketError::InvalidSize);
        }
        let wrote = write_acks(&mut out, &self.ack_header);
        if let Err(e) = wrote {
            return Err(e);
        }
        if self.data.0.len() > u32::MAX as usize {
            return Err(PacketError::InvalidSize);
        }
        write_u32(&mut out, self.data.0.len() as u32);
        let ghost head3 = out@;
        let mut d: usize = 0;
        while d < self.data.0.len()
            invariant
                d <= self.data.0@.len(),
                out@ == head3 + self.data.0@.subrange(0, d as int),
            decreases self.data.0@.len() - d,
        {
            out.push(self.data.0[d]);
            proof {
                assert(out@ =~= head3 + self.data.0@.subrange(0, d + 1 as int));
            }
            d = d + 1;
        }
        proof {
            assert(self.data.0@.subrange(0, self.data.0@.len() as int) =~= self.data.0@);
            assert(out@ =~= spec_encode_packet(self@));
        }
        Ok(out)
    }
}

/// Whether `v` is a unicode scalar value, the codes characters can carry.
pub open spec fn scalar_value(v: u32) -> bool {
    v < 0xD800 || (0xE000 <= v && v <= 0x10FFFF)
}

/// Relies on char::from_u32: the character with code `v` exactly when
/// `v` is a unicode scalar value, and nothing otherwise.
#[verifier::external_body]
fn char_from_u32(v: u32) -> (r: Option<char>)
    ensures
        r matches Some(c) ==> c as u32 == v,
        r is Some <==> scalar_value(v),
{
    char::from_u32(v)
}

/// Reads one byte, advancing the cursor.
fn read_u8(bytes: &[u8], pos: &mut usize) -> (r: Result<u8, PacketError>)
    ensures
        r matches Ok(v) ==> *old(pos) < bytes@.len() && *final(pos) == *old(pos) + 1 && v
            == bytes@[*old(pos) as int],
        r is Err ==> *final(pos) == *old(pos),
        *old(pos) < bytes@.len() ==> r is Ok,
{
    if *pos < bytes.len() {
        let v = bytes[*pos];
        *pos = *pos + 1;
        Ok(v)
    } else {
        Err(PacketError::InvalidSize)
    }
}

/// Reads a 16-bit value little-endian, advancing the cursor.
fn read_u16(bytes: &[u8], pos: &mut usize) -> (r: Result<u16, PacketError>)
    ensures
        r matches Ok(v) ==> *final(pos) == *old(pos) + 2 && *final(pos) <= bytes@.len() && le16(v)
            == bytes@.subrange(*old(pos) as int, *final(pos) as int),
        *old(pos) + 2 <= bytes@.len() ==> r is Ok,
{
    let b0 = read_u8(bytes, pos)?;
    let b1 = read_u8(bytes, pos)?;
    let v: u16 = (b0 as u16) | ((b1 as u16) << 8u16);
    proof {
        lemma_le16_bytes(v, b0, b1);
        assert(le16(v) =~= bytes@.subrange(*old(pos) as int, *old(pos) + 2));
    }
    Ok(v)
}

/// Reads a 32-bit value little-endian, advancing the cursor.
fn read_u32(bytes: &[u8], pos: &mut usize) -> (r: Result<u32, PacketError>)
    ensures
        r matches Ok(v) ==> *final(pos) == *old(pos) + 4 && *final(pos) <= bytes@.len() && le32(v)
            == bytes@.subrange(*old(pos) as int, *final(pos) as int),
        *old(pos) + 4 <= bytes@.len() ==> r is Ok,
{
    let b0 = read_u8(bytes, pos)?;
    let b1 = read_u8(bytes, pos)?;
    let b2 = read_u8(bytes, pos)?;
    let b3 = read_u8(bytes, pos)?;
    let v: u32 = (b0 as u32) | ((b1 as u32) << 8u32) | ((b2 as u32) << 16u32) | ((b3 as u32)
        << 24u32);
    proof {
        lemma_le32_bytes(v, b0, b1, b2, b3);
        assert(le32(v) =~= bytes@.subrange(*old(pos) as int, *old(pos) + 4));
    }
    Ok(v)
}

/// Reads one character, advancing the cursor; fails on codes that are no
/// unicode scalar value.
fn read_char(bytes: &[u8], pos: &mut usize) -> (r: Result<char, PacketError>)
    ensures
        r matches Ok(c) ==> *final(pos) == *old(pos) + 4 && *final(pos) <= bytes@.len() && enc_char(
            c,
        ) == bytes@.subrange(*old(pos) as int, *final(pos) as int),
        (exists|c: char| starts_with(bytes@, *old(pos) as int, enc_char(c))) ==> r is Ok,
{
    let v = read_u32(bytes, pos)?;
    let c = char_from_u32(v);
    match c {
        Some(c) => {
            proof {
                assert(enc_char(c) == le32(v));
            }
            Ok(c)
        },
        None => {
            proof {
                // every character's code is a scalar value, so the bytes
                // here render no character at all
                if exists|c: char| starts_with(bytes@, *old(pos) as int, enc_char(c)) {
                    let c = choose|c: char| starts_with(bytes@, *old(pos) as int, enc_char(c));
                    lemma_le32_inj(v, c as u32);
                    vstd::utf8::char_is_scalar(c);
                    assert(scalar_value(c as u32));
                    assert(false);
                }
            }
            Err(PacketError::InvalidSize)
        },
    }
}

/// Reads one coding info, advancing the cursor.
fn read_info(bytes: &[u8], pos: &mut usize) -> (r: Result<CodingInfo, PacketError>)
    ensures
        r matches Ok(ci) ==> *final(pos) == *old(pos) + 10 && *final(pos) <= bytes@.len()
            && enc_info(ci) == bytes@.subrange(*old(pos) as int, *final(pos) as int),
        (exists|ci: CodingInfo| starts_with(bytes@, *old(pos) as int, enc_info(ci))) ==> r is Ok,
{
    let ghost p0 = *pos;
    let ghost expected = exists|ci: CodingInfo| starts_with(bytes@, p0 as int, enc_info(ci));
    proof {
        if expected {
            let ci = choose|ci: CodingInfo| starts_with(bytes@, p0 as int, enc_info(ci));
            assert(bytes@.subrange(p0 as int, p0 + 4) =~= enc_info(ci).subrange(0, 4));
            assert(enc_info(ci).subrange(0, 4) =~= enc_char(ci.source.0));
            assert(starts_with(bytes@, p0 as int, enc_char(ci.source.0)));
        }
    }
    let source = match read_char(bytes, pos) {
        Ok(v) => v,
        Err(e) => {
            return Err(e);
        },
    };
    let ghost p1 = *pos;
    let id = match read_u16(bytes, pos) {
        Ok(v) => v,
        Err(e) => {
            proof {
                if expected {
                    let ci = choose|ci: CodingInfo| starts_with(bytes@, p0 as int, enc_info(ci));
                    assert(p1 + 2 <= p0 + 10 <= bytes@.len());
                    assert(false);
                }
            }
            return Err(e);
        },
    };
    let ghost p2 = *pos;
    proof {
        if expected {
            let ci = choose|ci: CodingInfo| starts_with(bytes@, p0 as int, enc_info(ci));
            assert(bytes@.subrange(p0 + 6, p0 + 10) =~= enc_info(ci).subrange(6, 10));
            assert(enc_info(ci).subrange(6, 10) =~= enc_char(ci.nexthop.0));
            assert(starts_with(bytes@, p2 as int, enc_char(ci.nexthop.0)));
        }
    }
    let nexthop = match read_char(bytes, pos) {
        Ok(v) => v,
        Err(e) => {
            return Err(e);
        },
    };
    let ci = CodingInfo {
        source: crate::node_id::NodeID(source),
        id,
        nexthop: crate::node_id::NodeID(nexthop),
    };
    proof {
        assert(bytes@.subrange(p0 as int, *pos as int) =~= bytes@.subrange(p0 as int, p1 as int)
            + bytes@.subrange(p1 as int, p2 as int) + bytes@.subrange(p2 as int, *pos as int));
        assert(enc_info(ci) == bytes@.subrange(p0 as int, *pos as int));
    }
    Ok(ci)
}

/// Reads a counted list of coding infos, advancing the cursor.
#[verifier::loop_isolation(false)]
fn read_info_list(bytes: &[u8], pos: &mut usize) -> (r: Result<Vec<CodingInfo>, PacketError>)
    ensures
        r matches Ok(infos) ==> *old(pos) <= *final(pos) <= bytes@.len() && infos@.len()
            <= u16::MAX && enc_infos(infos@) == bytes@.subrange(
            *old(pos) as int,
            *final(pos) as int,
        ),
        infos_at(bytes@, *old(pos) as int) ==> r is Ok,
{
    let ghost p0 = *pos;
    let ghost expected = infos_at(bytes@, p0 as int);
    let ghost sw = choose|s: Seq<CodingInfo>|
        s.len() <= u16::MAX && starts_with(bytes@, p0 as int, enc_infos(s));
    proof {
        if expected {
            lemma_enc_info_list_len(sw);
            assert(bytes@.subrange(p0 as int, p0 + 2) =~= enc_infos(sw).subrange(0, 2));
            assert(enc_infos(sw).subrange(0, 2) =~= le16(sw.len() as u16));
        }
    }
    let count = read_u16(bytes, pos)?;
    let ghost p1 = *pos;
    proof {
        if expected {
            lemma_le16_inj(count, sw.len() as u16);
        }
    }
    let mut infos: Vec<CodingInfo> = Vec::new();
    let mut k: u16 = 0;
    while k < count
        invariant
            k <= count,
            infos@.len() == k,
            p1 <= *pos <= bytes@.len(),
            le16(count) == bytes@.subrange(p0 as int, p1 as int),
            p1 == p0 + 2,
            enc_info_list(infos@) == bytes@.subrange(p1 as int, *pos as int),
            expected == exists|s: Seq<CodingInfo>|
                s.len() <= u16::MAX && starts_with(bytes@, p0 as int, enc_infos(s)),
            expected ==> {
                &&& sw.len() == count
                &&& starts_with(bytes@, p0 as int, enc_infos(sw))
                &&& *pos == p1 + 10 * k
            },
        decreases count - k,
    {
        let ghost p_pre = *pos;
        let ghost before = infos@;
        proof {
            if expected {
                lemma_enc_info_list_index(sw, k as int);
                assert(enc_infos(sw).len() == 2 + 10 * sw.len());
                assert(bytes@.subrange(p0 as int, p0 + 2 + 10 * sw.len() as int) == enc_infos(sw));
                assert(p_pre + 10 <= bytes@.len());
                assert forall|j: int| 0 <= j < 10 implies bytes@[p_pre + j] == enc_info(
                    sw[k as int],
                )[j] by {
                    assert(bytes@[p_pre + j] == bytes@.subrange(
                        p0 as int,
                        p0 + 2 + 10 * sw.len(),
                    )[2 + 10 * (k as int) + j]);
                    assert(enc_infos(sw)[2 + 10 * (k as int) + j] == enc_info_list(sw)[10 * (
                    k as int) + j]);
                    assert(enc_info(sw[k as int])[j] == enc_info_list(sw).subrange(
                        10 * (k as int),
                        10 * (k as int) + 10,
                    )[j]);
                }
                assert(bytes@.subrange(p_pre as int, p_pre + 10) =~= enc_info(sw[k as int]));
                assert(starts_with(bytes@, p_pre as int, enc_info(sw[k as int])));
            }
        }
        let next = read_info(bytes, pos);
        let ci = match next {
            Ok(ci) => ci,
            Err(e) => {
                proof {
                    if expected {
                        assert(starts_with(bytes@, p_pre as int, enc_info(sw[k as int])));
                        assert(exists|ci: CodingInfo|
                            starts_with(bytes@, p_pre as int, enc_info(ci)));
                        assert(false);
                    }
                }
                return Err(e);
            },
        };
        infos.push(ci);
        proof {
            lemma_enc_info_list_push(before, ci);
            assert(infos@ == before.push(ci));
            assert(bytes@.subrange(p1 as int, *pos as int) =~= bytes@.subrange(
                p1 as int,
                p_pre as int,
            ) + bytes@.subrange(p_pre as int, *pos as int));
        }
        k = k + 1;
    }
    proof {
        assert(enc_infos(infos@) =~= bytes@.subrange(p0 as int, *pos as int));
    }
    Ok(infos)
}

/// Reads one reception report, advancing the cursor.
fn read_report(bytes: &[u8], pos: &mut usize) -> (r: Result<ReceptionReport, PacketError>)
    ensures
        r matches Ok(report) ==> *final(pos) == *old(pos) + 6 && *final(pos) <= bytes@.len()
            && enc_report(report) == bytes@.subrange(*old(pos) as int, *final(pos) as int),
        (exists|rp: ReceptionReport| starts_with(bytes@, *old(pos) as int, enc_report(rp))) ==> r
            is Ok,
{
    let ghost p0 = *pos;
    let ghost expected = exists|rp: ReceptionReport|
        starts_with(bytes@, p0 as int, enc_report(rp));
    proof {
        if expected {
            let rp = choose|rp: ReceptionReport| starts_with(bytes@, p0 as int, enc_report(rp));
            assert(bytes@.subrange(p0 as int, p0 + 4) =~= enc_report(rp).subrange(0, 4));
            assert(enc_report(rp).subrange(0, 4) =~= enc_char(rp.source.0));
            assert(starts_with(bytes@, p0 as int, enc_char(rp.source.0)));
        }
    }
    let source = match read_char(bytes, pos) {
        Ok(v) => v,
        Err(e) => {
            return Err(e);
        },
    };
    let ghost p1 = *pos;
    let last_id = match read_u16(bytes, pos) {
        Ok(v) => v,
        Err(e) => {
            proof {
                if expected {
                    let rp = choose|rp: ReceptionReport|
                        starts_with(bytes@, p0 as int, enc_report(rp));
                    assert(p1 + 2 <= p0 + 6 <= bytes@.len());
                    assert(false);
                }
            }
            return Err(e);
        },
    };
    let report = ReceptionReport { source: crate::node_id::NodeID(source), last_id };
    proof {
        assert(bytes@.subrange(p0 as int, *pos as int) =~= bytes@.subrange(p0 as int, p1 as int)
            + bytes@.subrange(p1 as int, *pos as int));
        assert(enc_report(report) == bytes@.subrange(p0 as int, *pos as int));
    }
    Ok(report)
}

/// Reads one acknowledgement, advancing the cursor.
fn read_ack(bytes: &[u8], pos: &mut usize) -> (r: Result<Ack, PacketError>)
    ensures
        r matches Ok(ack) ==> *old(pos) <= *final(pos) <= bytes@.len() && ack@.packets.len()
            <= u16::MAX && enc_ack(ack@) == bytes@.subrange(*old(pos) as int, *final(pos) as int),
        (exists|a: AckV|
            a.packets.len() <= u16::MAX && starts_with(bytes@, *old(pos) as int, enc_ack(a))) ==> r
            is Ok,
{
    let ghost p0 = *pos;
    let ghost expected = exists|a: AckV|
        a.packets.len() <= u16::MAX && starts_with(bytes@, p0 as int, enc_ack(a));
    proof {
        if expected {
            let a = choose|a: AckV|
                a.packets.len() <= u16::MAX && starts_with(bytes@, p0 as int, enc_ack(a));
            assert(bytes@.subrange(p0 as int, p0 + 4) =~= enc_ack(a).subrange(0, 4));
            assert(enc_ack(a).subrange(0, 4) =~= enc_char(a.source.0));
            assert(starts_with(bytes@, p0 as int, enc_char(a.source.0)));
        }
    }
    let source = match read_char(bytes, pos) {
        Ok(v) => v,
        Err(e) => {
            return Err(e);
        },
    };
    let ghost p1 = *pos;
    proof {
        if expected {
            let a = choose|a: AckV|
                a.packets.len() <= u16::MAX && starts_with(bytes@, p0 as int, enc_ack(a));
            assert(bytes@.subrange(p1 as int, p1 + enc_infos(a.packets).len())
                =~= enc_ack(a).subrange(4, enc_ack(a).len() as int));
            assert(enc_ack(a).subrange(4, enc_ack(a).len() as int) =~= enc_infos(a.packets));
            assert(starts_with(bytes@, p1 as int, enc_infos(a.packets)));
            assert(infos_at(bytes@, p1 as int));
        }
    }
    let packets = match read_info_list(bytes, pos) {
        Ok(v) => v,
        Err(e) => {
            return Err(e);
        },
    };
    let ack = Ack { source: crate::node_id::NodeID(source), packets };
    proof {
        assert(bytes@.subrange(p0 as int, *pos as int) =~= bytes@.subrange(p0 as int, p1 as int)
            + bytes@.subrange(p1 as int, *pos as int));
        assert(enc_ack(ack@) == bytes@.subrange(p0 as int, *pos as int));
    }
    Ok(ack)
}

/// Reads a counted list of reception reports, advancing the cursor.
#[verifier::rlimit(80)]
#[verifier::spinoff_prover]
#[verifier::loop_isolation(false)]
fn read_report_list(bytes: &[u8], pos: &mut usize) -> (r: Result<Vec<ReceptionReport>, PacketError>)
    ensures
        r matches Ok(reports) ==> *old(pos) <= *final(pos) <= bytes@.len() && reports@.len()
            <= u16::MAX && le16(reports@.len() as u16) + enc_report_list(reports@)
            == bytes@.subrange(*old(pos) as int, *final(pos) as int),
        reports_at(bytes@, *old(pos) as int) ==> r is Ok,
{
    let ghost p0 = *pos;
    let ghost expected = reports_at(bytes@, p0 as int);
    let ghost sw = choose|s: Seq<ReceptionReport>|
        s.len() <= u16::MAX && starts_with(bytes@, p0 as int, le16(s.len() as u16)
            + enc_report_list(s));
    proof {
        if expected {
            lemma_enc_report_list_len(sw);
            assert(bytes@.subrange(p0 as int, p0 + 2) =~= (le16(sw.len() as u16)
                + enc_report_list(sw)).subrange(0, 2));
            assert((le16(sw.len() as u16) + enc_report_list(sw)).subrange(0, 2) =~= le16(
                sw.len() as u16,
            ));
        }
    }
    let count = read_u16(bytes, pos)?;
    let ghost p1 = *pos;
    proof {
        if expected {
            lemma_le16_inj(count, sw.len() as u16);
        }
    }
    let mut reports: Vec<ReceptionReport> = Vec::new();
    let mut k: u16 = 0;
    while k < count
        invariant
            k <= count,
            reports@.len() == k,
            p1 <= *pos <= bytes@.len(),
            le16(count) == bytes@.subrange(p0 as int, p1 as int),
            p1 == p0 + 2,
            enc_report_list(reports@) == bytes@.subrange(p1 as int, *pos as int),
            expected ==> {
                &&& sw.len() == count
                &&& *pos == p1 + 6 * k
            },
        decreases count - k,
    {
        let ghost p_pre = *pos;
        let ghost before = reports@;
        proof {
            if expected {
                lemma_enc_report_list_index(sw, k as int);
                let whole = le16(sw.len() as u16) + enc_report_list(sw);
                assert(whole.len() == 2 + 6 * sw.len());
                assert(bytes@.subrange(p0 as int, p0 + 2 + 6 * sw.len()) == whole);
                assert(p_pre + 6 <= bytes@.len());
                assert forall|j: int| 0 <= j < 6 implies bytes@[p_pre + j] == enc_report(
                    sw[k as int],
                )[j] by {
                    assert(bytes@[p_pre + j] == bytes@.subrange(
                        p0 as int,
                        p0 + 2 + 6 * sw.len(),
                    )[2 + 6 * (k as int) + j]);
                    assert(whole[2 + 6 * (k as int) + j] == enc_report_list(sw)[6 * (k as int)
                        + j]);
                    assert(enc_report(sw[k as int])[j] == enc_report_list(sw).subrange(
                        6 * (k as int),
                        6 * (k as int) + 6,
                    )[j]);
                }
                assert(bytes@.subrange(p_pre as int, p_pre + 6) =~= enc_report(sw[k as int]));
                assert(starts_with(bytes@, p_pre as int, enc_report(sw[k as int])));
            }
        }
        let next = read_report(bytes, pos);
        let report = match next {
            Ok(v) => v,
            Err(e) => {
                proof {
                    if expected {
                        assert(exists|rp: ReceptionReport|
                            starts_with(bytes@, p_pre as int, enc_report(rp)));
                        assert(false);
                    }
                }
                return Err(e);
            },
        };
        reports.push(report);
        proof {
            lemma_enc_report_list_push(before, report);
            assert(reports@ == before.push(report));
            assert(bytes@.subrange(p1 as int, *pos as int) =~= bytes@.subrange(
                p1 as int,
                p_pre as int,
            ) + bytes@.subrange(p_pre as int, *pos as int));
            assert(enc_report_list(reports@) == bytes@.subrange(p1 as int, *pos as int));
        }
        k = k + 1;
    }
    proof {
        assert(le16(reports@.len() as u16) + enc_report_list(reports@) =~= bytes@.subrange(
            p0 as int,
            *pos as int,
        ));
    }
    Ok(reports)
}

/// Reads a counted list of acknowledgements, advancing the cursor.
#[verifier::rlimit(80)]
#[verifier::spinoff_prover]
#[verifier::rlimit(100)]
#[verifier::spinoff_prover]
#[verifier::loop_isolation(false)]
fn read_ack_list(bytes: &[u8], pos: &mut usize) -> (r: Result<Vec<Ack>, PacketError>)
    ensures
        r matches Ok(acks) ==> *old(pos) <= *final(pos) <= bytes@.len() && acks@.len() <= u16::MAX
            && (forall|i: int|
            0 <= i < acks@.len() ==> (#[trigger] view_acks(acks@)[i]).packets.len() <= u16::MAX)
            && le16(acks@.len() as u16) + enc_ack_list(view_acks(acks@)) == bytes@.subrange(
            *old(pos) as int,
            *final(pos) as int,
        ),
        acks_at(bytes@, *old(pos) as int) ==> r is Ok,
{
    let ghost p0 = *pos;
    let ghost expected = acks_at(bytes@, p0 as int);
    let ghost sw = choose|s: Seq<AckV>|
        s.len() <= u16::MAX && (forall|i: int|
            0 <= i < s.len() ==> (#[trigger] s[i]).packets.len() <= u16::MAX) && starts_with(
            bytes@,
            p0 as int,
            le16(s.len() as u16) + enc_ack_list(s),
        );
    proof {
        if expected {
            assert(bytes@.subrange(p0 as int, p0 + 2) =~= (le16(sw.len() as u16) + enc_ack_list(
                sw,
            )).subrange(0, 2));
            assert((le16(sw.len() as u16) + enc_ack_list(sw)).subrange(0, 2) =~= le16(
                sw.len() as u16,
            ));
        }
    }
    let count = read_u16(bytes, pos)?;
    let ghost p1 = *pos;
    proof {
        if expected {
            lemma_le16_inj(count, sw.len() as u16);
        }
    }
    let mut acks: Vec<Ack> = Vec::new();
    let mut k: u16 = 0;
    while k < count
        invariant
            k <= count,
            acks@.len() == k,
            p1 <= *pos <= bytes@.len(),
            le16(count) == bytes@.subrange(p0 as int, p1 as int),
            p1 == p0 + 2,
            enc_ack_list(view_acks(acks@)) == bytes@.subrange(p1 as int, *pos as int),
            forall|i: int|
                0 <= i < acks@.len() ==> (#[trigger] view_acks(acks@)[i]).packets.len()
                    <= u16::MAX,
            expected ==> {
                &&& sw.len() == count
                &&& *pos == p1 + enc_ack_list(sw.subrange(0, k as int)).len()
            },
        decreases count - k,
    {
        let ghost p_pre = *pos;
        let ghost before = acks@;
        proof {
            if expected {
                lemma_enc_ack_list_split(sw, k as int);
                lemma_enc_ack_list_first(sw.subrange(k as int, sw.len() as int));
                assert(sw.subrange(k as int, sw.len() as int)[0] == sw[k as int]);
                let whole = le16(sw.len() as u16) + enc_ack_list(sw);
                let front = enc_ack_list(sw.subrange(0, k as int));
                let item = enc_ack(sw[k as int]);
                assert(enc_ack_list(sw) == front + (item + enc_ack_list(
                    sw.subrange(k as int, sw.len() as int).drop_first(),
                ))) by {
                    assert(front + (item + enc_ack_list(
                        sw.subrange(k as int, sw.len() as int).drop_first(),
                    )) =~= (front + item) + enc_ack_list(
                        sw.subrange(k as int, sw.len() as int).drop_first(),
                    ));
                }
                assert(bytes@.subrange(p0 as int, p0 + whole.len()) == whole);
                assert(p_pre + item.len() <= bytes@.len());
                assert forall|j: int| 0 <= j < item.len() implies bytes@[p_pre + j] == item[j] by {
                    assert(bytes@[p_pre + j] == whole[2 + front.len() + j]);
                    assert(whole[2 + front.len() + j] == enc_ack_list(sw)[front.len() + j]);
                }
                assert(bytes@.subrange(p_pre as int, p_pre + item.len()) =~= item);
                assert(starts_with(bytes@, p_pre as int, item));
                assert(sw[k as int].packets.len() <= u16::MAX);
            }
        }
        let next = read_ack(bytes, pos);
        let ack = match next {
            Ok(v) => v,
            Err(e) => {
                proof {
                    if expected {
                        assert(exists|a: AckV|
                            a.packets.len() <= u16::MAX && starts_with(
                                bytes@,
                                p_pre as int,
                                enc_ack(a),
                            ));
                        assert(false);
                    }
                }
                return Err(e);
            },
        };
        let ghost pushed = ack;
        let ghost pushed_v = ack@;
        acks.push(ack);
        proof {
            assert(acks@ == before.push(pushed));
            lemma_enc_ack_list_push(view_acks(before), pushed_v);
            crate::packet::lemma_view_acks_push(before, pushed);
            assert(view_acks(acks@) == view_acks(before).push(pushed_v));
            assert(bytes@.subrange(p1 as int, *pos as int) =~= bytes@.subrange(
                p1 as int,
                p_pre as int,
            ) + bytes@.subrange(p_pre as int, *pos as int));
            assert(enc_ack_list(view_acks(acks@)) == bytes@.subrange(p1 as int, *pos as int));
            if expected {
                // the parsed acknowledgement is the listed one, so the
                // cursor sits at the next item's slot
                let item = enc_ack(sw[k as int]);
                let t1 = bytes@.subrange(*pos as int, bytes@.len() as int);
                let t2 = bytes@.subrange(p_pre + item.len(), bytes@.len() as int);
                assert(enc_ack(pushed_v) + t1 =~= bytes@.subrange(
                    p_pre as int,
                    bytes@.len() as int,
                ));
                assert(item + t2 =~= bytes@.subrange(p_pre as int, bytes@.len() as int));
                lemma_enc_ack_prefix(pushed_v, t1, sw[k as int], t2);
                assert(sw.subrange(0, k + 1 as int).drop_last() =~= sw.subrange(0, k as int));
                assert(sw.subrange(0, k + 1 as int).last() == sw[k as int]);
                assert(enc_ack_list(sw.subrange(0, k + 1 as int)) == enc_ack_list(
                    sw.subrange(0, k as int),
                ) + item);
                assert(*pos == p1 + enc_ack_list(sw.subrange(0, k + 1 as int)).len());
            }
        }
        k = k + 1;
    }
    proof {
        assert(le16(acks@.len() as u16) + enc_ack_list(view_acks(acks@)) =~= bytes@.subrange(
            p0 as int,
            *pos as int,
        ));
    }
    Ok(acks)
}

/// Reads the length-prefixed payload, advancing the cursor.
#[verifier::loop_isolation(false)]
fn read_payload(bytes: &[u8], pos: &mut usize) -> (r: Result<Vec<u8>, PacketError>)
    ensures
        r matches Ok(data) ==> *old(pos) <= *final(pos) <= bytes@.len() && data@.len() <= u32::MAX
            && le32(data@.len() as u32) + data@ == bytes@.subrange(
            *old(pos) as int,
            *final(pos) as int,
        ),
        payload_at(bytes@, *old(pos) as int) ==> r is Ok,
{
    let ghost p0 = *pos;
    let ghost expected = payload_at(bytes@, p0 as int);
    let ghost dw = choose|d: Seq<u8>|
        d.len() <= u32::MAX && starts_with(bytes@, p0 as int, le32(d.len() as u32) + d);
    proof {
        if expected {
            assert(bytes@.subrange(p0 as int, p0 + 4) =~= (le32(dw.len() as u32) + dw).subrange(
                0,
                4,
            ));
            assert((le32(dw.len() as u32) + dw).subrange(0, 4) =~= le32(dw.len() as u32));
        }
    }
    let dlen = read_u32(bytes, pos)?;
    let ghost p1 = *pos;
    proof {
        if expected {
            lemma_le32_inj(dlen, dw.len() as u32);
            assert(p1 + dw.len() <= bytes@.len());
        }
    }
    let mut data: Vec<u8> = Vec::new();
    let mut d: u32 = 0;
    while d < dlen
        invariant
            d <= dlen,
            data@.len() == d,
            p1 <= *pos <= bytes@.len(),
            le32(dlen) == bytes@.subrange(p0 as int, p1 as int),
            p1 == p0 + 4,
            data@ == bytes@.subrange(p1 as int, *pos as int),
            expected ==> dlen == dw.len() && p1 + dlen <= bytes@.len(),
        decreases dlen - d,
    {
        let b = read_u8(bytes, pos)?;
        data.push(b);
        proof {
            assert(data@ =~= bytes@.subrange(p1 as int, *pos as int));
        }
        d = d + 1;
    }
    proof {
        assert(le32(data@.len() as u32) + data@ =~= bytes@.subrange(p0 as int, *pos as int));
    }
    Ok(data)
}

/// The tail of a packet's rendering behind the coding header.
pub open spec fn enc_tail(q: PacketV) -> Seq<u8> {
    le16(q.reception_header.len() as u16) + (enc_report_list(q.reception_header) + (le16(
        q.ack_header.len() as u16,
    ) + (enc_ack_list(q.ack_header) + (le32(q.data.len() as u32) + q.data))))
}

/// After parsing an opening that covers the same bytes as the listed
/// packet's, the cursor sits where the listed reports begin.
proof fn lemma_align_after_header(
    bytes: Seq<u8>,
    qw: PacketV,
    sender: char,
    headerv: CodingHeaderV,
    p2: int,
)
    requires
        encodable(qw),
        bytes == (enc_char(qw.sender.0) + enc_header(qw.coding_header)) + enc_tail(qw),
        headerv matches CodingHeaderV::Encoded(a) ==> a.len() <= u16::MAX,
        0 <= p2 <= bytes.len(),
        enc_char(sender) + enc_header(headerv) == bytes.subrange(0, p2),
    ensures
        bytes.subrange(p2, bytes.len() as int) == enc_tail(qw),
        reports_at(bytes, p2),
{
    let qtail = enc_tail(qw);
    let t1 = bytes.subrange(p2, bytes.len() as int);
    assert((enc_char(sender) + enc_header(headerv)) + t1 =~= bytes);
    assert(enc_char(sender) + (enc_header(headerv) + t1) =~= (enc_char(sender) + enc_header(
        headerv,
    )) + t1);
    assert(enc_char(qw.sender.0) + (enc_header(qw.coding_header) + qtail) =~= (enc_char(
        qw.sender.0,
    ) + enc_header(qw.coding_header)) + qtail);
    lemma_concat_cancel(
        enc_char(sender),
        enc_header(headerv) + t1,
        enc_char(qw.sender.0),
        enc_header(qw.coding_header) + qtail,
    );
    lemma_enc_header_prefix(headerv, t1, qw.coding_header, qtail);
    lemma_enc_report_list_len(qw.reception_header);
    assert(qtail.subrange(0, 2 + 6 * qw.reception_header.len() as int) =~= le16(
        qw.reception_header.len() as u16,
    ) + enc_report_list(qw.reception_header));
    assert(bytes.subrange(p2, p2 + 2 + 6 * qw.reception_header.len() as int) =~= qtail.subrange(
        0,
        2 + 6 * qw.reception_header.len() as int,
    ));
    assert(starts_with(
        bytes,
        p2,
        le16(qw.reception_header.len() as u16) + enc_report_list(qw.reception_header),
    ));
}

/// After parsing reports that cover the same bytes as the listed ones,
/// the cursor sits where the listed acknowledgements begin.
proof fn lemma_align_after_reports(
    bytes: Seq<u8>,
    qw: PacketV,
    p2: int,
    p3: int,
    receptionv: Seq<ReceptionReport>,
)
    requires
        encodable(qw),
        0 <= p2 <= p3 <= bytes.len(),
        bytes.subrange(p2, bytes.len() as int) == enc_tail(qw),
        le16(receptionv.len() as u16) + enc_report_list(receptionv) == bytes.subrange(p2, p3),
        receptionv.len() <= u16::MAX,
    ensures
        bytes.subrange(p3, bytes.len() as int) == le16(qw.ack_header.len() as u16) + (enc_ack_list(
            qw.ack_header,
        ) + (le32(qw.data.len() as u32) + qw.data)),
        acks_at(bytes, p3),
{
    let seg1 = le16(receptionv.len() as u16) + enc_report_list(receptionv);
    lemma_enc_report_list_len(receptionv);
    lemma_enc_report_list_len(qw.reception_header);
    assert(seg1.len() == p3 - p2);
    assert(le16(receptionv.len() as u16) =~= bytes.subrange(p2, p2 + 2));
    assert(le16(qw.reception_header.len() as u16) =~= bytes.subrange(p2, p2 + 2));
    lemma_le16_inj(receptionv.len() as u16, qw.reception_header.len() as u16);
    assert(receptionv.len() == qw.reception_header.len());
    assert(p3 == p2 + 2 + 6 * qw.reception_header.len() as int);
    let rest = le16(qw.ack_header.len() as u16) + (enc_ack_list(qw.ack_header) + (le32(
        qw.data.len() as u32,
    ) + qw.data));
    assert(enc_tail(qw) =~= (le16(qw.reception_header.len() as u16) + enc_report_list(
        qw.reception_header,
    )) + rest);
    assert forall|j: int| 0 <= j < rest.len() implies bytes[p3 + j] == rest[j] by {
        assert(bytes.subrange(p2, bytes.len() as int)[(p3 - p2) + j] == bytes[p3 + j]);
        assert(enc_tail(qw)[(p3 - p2) + j] == rest[j]);
    }
    assert(bytes.subrange(p3, bytes.len() as int) =~= rest);
    assert(bytes.subrange(p3, p3 + 2 + enc_ack_list(qw.ack_header).len() as int) =~= le16(
        qw.ack_header.len() as u16,
    ) + enc_ack_list(qw.ack_header));
    assert(starts_with(
        bytes,
        p3,
        le16(qw.ack_header.len() as u16) + enc_ack_list(qw.ack_header),
    ));
}

/// After parsing acknowledgements that cover the same bytes as the
/// listed ones, the cursor sits where the listed payload begins.
proof fn lemma_align_after_acks(bytes: Seq<u8>, qw: PacketV, p3: int, p4: int, acksv: Seq<AckV>)
    requires
        encodable(qw),
        0 <= p3 <= p4 <= bytes.len(),
        bytes.subrange(p3, bytes.len() as int) == le16(qw.ack_header.len() as u16) + (enc_ack_list(
            qw.ack_header,
        ) + (le32(qw.data.len() as u32) + qw.data)),
        le16(acksv.len() as u16) + enc_ack_list(acksv) == bytes.subrange(p3, p4),
        acksv.len() <= u16::MAX,
        forall|i: int| 0 <= i < acksv.len() ==> (#[trigger] acksv[i]).packets.len() <= u16::MAX,
    ensures
        bytes.subrange(p4, bytes.len() as int) == le32(qw.data.len() as u32) + qw.data,
        payload_at(bytes, p4),
{
    let t1 = bytes.subrange(p4, bytes.len() as int);
    let t2 = le32(qw.data.len() as u32) + qw.data;
    let seg = le16(acksv.len() as u16) + enc_ack_list(acksv);
    let whole = le16(qw.ack_header.len() as u16) + (enc_ack_list(qw.ack_header) + t2);
    assert(seg.len() == p4 - p3);
    assert(bytes.subrange(p3, bytes.len() as int).len() == whole.len());
    assert(whole.len() == 2 + enc_ack_list(qw.ack_header).len() + t2.len());
    assert forall|j: int| 0 <= j < 2 implies bytes[p3 + j] == seg[j] && bytes[p3 + j]
        == whole[j] by {
        assert(bytes.subrange(p3, p4)[j] == bytes[p3 + j]);
        assert(bytes.subrange(p3, bytes.len() as int)[j] == bytes[p3 + j]);
    }
    assert(le16(acksv.len() as u16) =~= bytes.subrange(p3, p3 + 2));
    assert(le16(qw.ack_header.len() as u16) =~= bytes.subrange(p3, p3 + 2));
    lemma_le16_inj(acksv.len() as u16, qw.ack_header.len() as u16);
    assert(enc_ack_list(acksv) + t1 =~= bytes.subrange(p3 + 2, bytes.len() as int)) by {
        assert forall|j: int| 0 <= j < enc_ack_list(acksv).len() implies bytes[p3 + 2 + j]
            == enc_ack_list(acksv)[j] by {
            assert(bytes.subrange(p3, p4)[2 + j] == bytes[p3 + 2 + j]);
            assert(seg[2 + j] == enc_ack_list(acksv)[j]);
        }
    }
    assert(enc_ack_list(qw.ack_header) + t2 =~= bytes.subrange(p3 + 2, bytes.len() as int)) by {
        assert forall|j: int| 0 <= j < enc_ack_list(qw.ack_header).len() + t2.len() implies bytes[p3
            + 2 + j] == (enc_ack_list(qw.ack_header) + t2)[j] by {
            assert(bytes.subrange(p3, bytes.len() as int)[2 + j] == bytes[p3 + 2 + j]);
            assert(whole[2 + j] == (enc_ack_list(qw.ack_header) + t2)[j]);
        }
    }
    lemma_enc_ack_list_prefix(acksv, t1, qw.ack_header, t2);
    assert(bytes.subrange(p4, p4 + 4 + qw.data.len() as int) =~= le32(qw.data.len() as u32)
        + qw.data);
    assert(starts_with(bytes, p4, le32(qw.data.len() as u32) + qw.data));
}

/// After parsing a payload that covers the same bytes as the listed one,
/// the cursor sits at the end of the input.
proof fn lemma_align_after_payload(bytes: Seq<u8>, qw: PacketV, p4: int, p5: int, datav: Seq<u8>)
    requires
        0 <= p4 <= p5 <= bytes.len(),
        bytes.subrange(p4, bytes.len() as int) == le32(qw.data.len() as u32) + qw.data,
        le32(datav.len() as u32) + datav == bytes.subrange(p4, p5),
        datav.len() <= u32::MAX,
        qw.data.len() <= u32::MAX,
    ensures
        p5 == bytes.len(),
{
    let t1 = bytes.subrange(p5, bytes.len() as int);
    assert((le32(datav.len() as u32) + datav).len() == p5 - p4);
    assert(p5 - p4 == 4 + datav.len());
    assert(le32(datav.len() as u32) + (datav + t1) =~= bytes.subrange(p4, bytes.len() as int)) by {
        assert forall|j: int| 0 <= j < p5 - p4 implies #[trigger] bytes[p4 + j] == (le32(
            datav.len() as u32,
        ) + datav)[j] by {
            assert(bytes.subrange(p4, p5)[j] == bytes[p4 + j]);
        }
    }
    assert(le32(qw.data.len() as u32) + (qw.data + Seq::<u8>::empty()) =~= bytes.subrange(
        p4,
        bytes.len() as int,
    ));
    assert(le32(datav.len() as u32) =~= bytes.subrange(p4, p4 + 4));
    assert(le32(qw.data.len() as u32) =~= bytes.subrange(p4, p4 + 4));
    lemma_le32_inj(datav.len() as u32, qw.data.len() as u32);
    lemma_concat_cancel(
        le32(datav.len() as u32),
        datav + t1,
        le32(qw.data.len() as u32),
        qw.data + Seq::<u8>::empty(),
    );
    lemma_concat_cancel(datav, t1, qw.data, Seq::<u8>::empty());
}

impl Packet {
    /// Parses one packet from the layer's little-endian wire format: a
    /// successful parse returns exactly the packet whose rendering the
    /// whole input is, every well-formed rendering parses successfully,
    /// and trailing or malformed input is rejected.
    #[verifier::rlimit(100)]
    #[verifier::spinoff_prover]
    pub fn deserialize_from(bytes: &[u8]) -> (r: Result<Packet, PacketError>)
        ensures
            r matches Ok(p) ==> bytes@ == spec_encode_packet(p@) && encodable(p@),
            forall|q: PacketV|
                bytes@ == #[trigger] spec_encode_packet(q) && encodable(q) ==> r is Ok,
    {
        let ghost expected = exists|q: PacketV|
            bytes@ == #[trigger] spec_encode_packet(q) && encodable(q);
        let ghost qw = choose|q: PacketV|
            bytes@ == #[trigger] spec_encode_packet(q) && encodable(q);
        proof {
            if expected {
                assert(bytes@ == (enc_char(qw.sender.0) + enc_header(qw.coding_header)) + enc_tail(
                    qw,
                )) by {
                    assert(bytes@ =~= (enc_char(qw.sender.0) + enc_header(qw.coding_header))
                        + enc_tail(qw));
                }
                assert(header_at(bytes@, 0)) by {
                    assert(bytes@.subrange(
                        0,
                        (enc_char(qw.sender.0) + enc_header(qw.coding_header)).len() as int,
                    ) =~= enc_char(qw.sender.0) + enc_header(qw.coding_header));
                    assert(starts_with(bytes@, 0, enc_char(qw.sender.0) + enc_header(
                        qw.coding_header,
                    )));
                }
            }
        }
        let mut cursor: usize = 0;
        let ghost p0 = 0int;
        let (sender, coding_header) = read_header(bytes, &mut cursor)?;
        let ghost p2 = cursor;
        let ghost headerv = coding_header@;
        proof {
            if expected {
                lemma_align_after_header(bytes@, qw, sender, headerv, p2 as int);
            }
        }
        let reception_header = read_report_list(bytes, &mut cursor)?;
        let ghost p3 = cursor;
        let ghost receptionv = reception_header@;
        proof {
            if expected {
                lemma_align_after_reports(bytes@, qw, p2 as int, p3 as int, receptionv);
            }
        }
        let ack_header = read_ack_list(bytes, &mut cursor)?;
        let ghost p4 = cursor;
        let ghost acksv = view_acks(ack_header@);
        proof {
            if expected {
                lemma_align_after_acks(bytes@, qw, p3 as int, p4 as int, acksv);
            }
        }
        let data = read_payload(bytes, &mut cursor)?;
        let ghost p5 = cursor;
        let ghost datav = data@;
        if cursor != bytes.len() {
            proof {
                if expected {
                    lemma_align_after_payload(bytes@, qw, p4 as int, p5 as int, datav);
                    assert(false);
                }
            }
            return Err(PacketError::InvalidSize);
        }
        let packet = Packet {
            sender: crate::node_id::NodeID(sender),
            coding_header,
            reception_header,
            ack_header,
            data: PacketData::new(data),
        };
        proof {
            crate::packet::lemma_packet_view(&packet);
            assert(encodable(packet@)) by {
                assert(packet@.coding_header == headerv);
                assert(packet@.reception_header == receptionv);
                assert(packet@.ack_header == acksv);
                assert(packet@.data == datav);
            }
            assert(bytes@ == spec_encode_packet(packet@)) by {
                assert(packet@.coding_header == headerv);
                assert(packet@.reception_header == receptionv);
                assert(packet@.ack_header == acksv);
                assert(packet@.data == datav);
                assert(bytes@ =~= bytes@.subrange(p0, p2 as int) + bytes@.subrange(
                    p2 as int,
                    p3 as int,
                ) + bytes@.subrange(p3 as int, p4 as int) + bytes@.subrange(p4 as int, p5 as int));
                assert(bytes@ =~= spec_encode_packet(packet@));
            }
        }
        Ok(packet)
    }
}

/// Whether a sender and a coding header lie at `pos`.
pub open spec fn header_at(bytes: Seq<u8>, pos: int) -> bool {
    exists|c: char, hv: CodingHeaderV|
        (hv matches CodingHeaderV::Encoded(a) ==> a.len() <= u16::MAX) && starts_with(
            bytes,
            pos,
            enc_char(c) + enc_header(hv),
        )
}

/// Reads a frame's opening: the sender and the coding header.
#[verifier::rlimit(100)]
#[verifier::spinoff_prover]
fn read_header(bytes: &[u8], pos: &mut usize) -> (r: Result<(char, CodingHeader), PacketError>)
    ensures
        r matches Ok((sv, h)) ==> *old(pos) <= *final(pos) <= bytes@.len() && (h@ matches
            CodingHeaderV::Encoded(a) ==> a.len() <= u16::MAX) && enc_char(sv) + enc_header(h@)
            == bytes@.subrange(*old(pos) as int, *final(pos) as int),
        header_at(bytes@, *old(pos) as int) ==> r is Ok,
{
    let ghost pstart = *pos;
    let ghost expected = header_at(bytes@, pstart as int);
    let ghost (cw, hw) = choose|c: char, hv: CodingHeaderV|
        (hv matches CodingHeaderV::Encoded(a) ==> a.len() <= u16::MAX) && starts_with(
            bytes@,
            pstart as int,
            enc_char(c) + enc_header(hv),
        );
    proof {
        if expected {
            assert(starts_with(bytes@, pstart as int, enc_char(cw))) by {
                assert(bytes@.subrange(pstart as int, pstart + 4) =~= (enc_char(cw) + enc_header(
                    hw,
                )).subrange(0, 4));
                assert((enc_char(cw) + enc_header(hw)).subrange(0, 4) =~= enc_char(cw));
            }
        }
    }
    let sender = read_char(bytes, pos)?;
    let ghost p1 = *pos;
    proof {
        if expected {
            assert(bytes@[p1 as int] == enc_header(hw)[0]) by {
                assert(bytes@[p1 as int] == (enc_char(cw) + enc_header(hw))[4]);
            }
        }
    }
    let tag = read_u8(bytes, pos)?;
    let coding_header: CodingHeader = if tag == 0 {
        proof {
            if expected {
                assert(starts_with(bytes@, p1 + 1, enc_info(hw->Native_0))) by {
                    assert(bytes@.subrange(p1 + 1, p1 + 11) =~= (enc_char(cw) + enc_header(
                        hw,
                    )).subrange(5, 15));
                    assert((enc_char(cw) + enc_header(hw)).subrange(5, 15) =~= enc_info(
                        hw->Native_0,
                    ));
                }
            }
        }
        let ci = read_info(bytes, pos)?;
        let h = CodingHeader::Native(ci);
        proof {
            assert(bytes@.subrange(p1 as int, *pos as int) =~= seq![bytes@[p1 as int]]
                + bytes@.subrange(p1 + 1, *pos as int));
            assert(enc_header(h@) == bytes@.subrange(p1 as int, *pos as int));
        }
        h
    } else if tag == 1 {
        proof {
            if expected {
                assert(infos_at(bytes@, p1 + 1)) by {
                    let seg = enc_infos(hw->Encoded_0);
                    assert(bytes@.subrange(p1 + 1, p1 + 1 + seg.len() as int) =~= (enc_char(cw)
                        + enc_header(hw)).subrange(5, 5 + seg.len() as int));
                    assert((enc_char(cw) + enc_header(hw)).subrange(5, 5 + seg.len() as int)
                        =~= seg);
                    assert(starts_with(bytes@, p1 + 1, seg));
                }
            }
        }
        let infos = read_info_list(bytes, pos)?;
        let h = CodingHeader::Encoded(infos);
        proof {
            assert(bytes@.subrange(p1 as int, *pos as int) =~= seq![bytes@[p1 as int]]
                + bytes@.subrange(p1 + 1, *pos as int));
            assert(enc_header(h@) == bytes@.subrange(p1 as int, *pos as int));
        }
        h
    } else if tag == 2 {
        proof {
            if expected {
                assert(starts_with(bytes@, p1 + 1, enc_char((hw->Control_0).0))) by {
                    assert(bytes@.subrange(p1 + 1, p1 + 5) =~= (enc_char(cw) + enc_header(
                        hw,
                    )).subrange(5, 9));
                    assert((enc_char(cw) + enc_header(hw)).subrange(5, 9) =~= enc_char(
                        (hw->Control_0).0,
                    ));
                }
            }
        }
        let id = read_char(bytes, pos)?;
        let h = CodingHeader::Control(crate::node_id::NodeID(id));
        proof {
            assert(bytes@.subrange(p1 as int, *pos as int) =~= seq![bytes@[p1 as int]]
                + bytes@.subrange(p1 + 1, *pos as int));
            assert(enc_header(h@) == bytes@.subrange(p1 as int, *pos as int));
        }
        h
    } else {
        proof {
            if expected {
                assert(false);
            }
        }
        return Err(PacketError::InvalidSize);
    };
    proof {
        assert(enc_char(sender) + enc_header(coding_header@) =~= bytes@.subrange(
            pstart as int,
            *pos as int,
        ));
    }
    Ok((sender, coding_header))
}

} // verus!
