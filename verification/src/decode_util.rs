use vstd::prelude::*;

use crate::coding::CodingError;
use crate::node_id::NodeID;
use crate::packet::CodingInfo;
use crate::packet_data::{xor_bytes, PacketData};
use crate::packet_pool::{drop_indices, PPEntryV, SimplePacketPool};

verus! {

/// Whether some listed native is addressed to `id`.
pub open spec fn spec_is_next_hop(id: NodeID, infos: Seq<CodingInfo>) -> bool {
    exists|i: int| 0 <= i < infos.len() && infos[i].nexthop == id
}

/// How many listed natives are addressed to `id`.
pub open spec fn target_count(id: NodeID, infos: Seq<CodingInfo>) -> nat
    decreases infos.len(),
{
    if infos.len() == 0 {
        0
    } else {
        target_count(id, infos.drop_last()) + if infos.last().nexthop == id {
            1nat
        } else {
            0nat
        }
    }
}

/// The listed natives not addressed to `id`, in order: the components a
/// decoder at `id` must XOR out of an encoded payload.
pub open spec fn others_of(id: NodeID, infos: Seq<CodingInfo>) -> Seq<CodingInfo>
    decreases infos.len(),
{
    if infos.len() == 0 {
        Seq::empty()
    } else {
        let rest = others_of(id, infos.drop_last());
        if infos.last().nexthop == id {
            rest
        } else {
            rest.push(infos.last())
        }
    }
}

/// Whether the pool holds an entry with the identity `info`.
pub open spec fn pool_has_info(pool: Seq<PPEntryV>, info: CodingInfo) -> bool {
    exists|p: int| 0 <= p < pool.len() && pool[p].0 == info
}

/// `init` XORed with the payloads of the pool entries at the listed
/// positions, in order.
pub open spec fn xor_fold_at(init: Seq<u8>, idxs: Seq<usize>, pool: Seq<PPEntryV>) -> Seq<u8>
    decreases idxs.len(),
{
    if idxs.len() == 0 {
        init
    } else {
        xor_bytes(xor_fold_at(init, idxs.drop_last(), pool), pool[idxs.last() as int].1)
    }
}

/// True iff any listed native is addressed to `id`.
pub fn is_next_hop(id: NodeID, infos: &Vec<CodingInfo>) -> (r: bool)
    ensures
        r == spec_is_next_hop(id, infos@),
{
    let mut i: usize = 0;
    while i < infos.len()
        invariant
            i <= infos@.len(),
            forall|j: int| 0 <= j < i ==> infos@[j].nexthop != id,
        decreases infos@.len() - i,
    {
        if infos[i].nexthop == id {
            return true;
        }
        i = i + 1;
    }
    false
}

/// Partitions the components of an encoded header, for a decoder at `id`:
/// on success, the position in `pool` of each component not addressed to
/// `id` (in listed order), and the one component addressed to `id`.
/// Succeeds exactly when exactly one component is addressed to `id` and
/// every other component is pooled; fails with a decode error otherwise.
pub fn ids_for_decoding(id: NodeID, infos: &Vec<CodingInfo>, pool: &SimplePacketPool) -> (r:
    Result<(Vec<usize>, CodingInfo), CodingError>)
    ensures
        r is Ok <==> target_count(id, infos@) == 1 && (forall|j: int|
            0 <= j < infos@.len() && infos@[j].nexthop != id ==> pool_has_info(
                pool@,
                #[trigger] infos@[j],
            )),
        r matches Ok((idxs, my_info)) ==> {
            &&& (exists|j: int|
                0 <= j < infos@.len() && infos@[j].nexthop == id && my_info == infos@[j])
            &&& idxs@.len() == others_of(id, infos@).len()
            &&& forall|k: int|
                0 <= k < idxs@.len() ==> #[trigger] idxs@[k] < pool@.len() && pool@[idxs@[k] as int].0
                    == others_of(id, infos@)[k] && (forall|p: int|
                    0 <= p < idxs@[k] ==> pool@[p].0 != others_of(id, infos@)[k])
        },
        r is Err ==> r matches Err(CodingError::DecodeError(_)),
{
    let mut packet_indices: Vec<usize> = Vec::new();
    let mut packet_info: Option<CodingInfo> = None;
    let mut targets: usize = 0;
    let mut i: usize = 0;
    while i < infos.len()
        invariant
            i <= infos@.len(),
            targets == target_count(id, infos@.subrange(0, i as int)),
            targets <= i,
            packet_info is None <==> targets == 0,
            packet_info matches Some(info) ==> exists|j: int|
                0 <= j < i && infos@[j].nexthop == id && info == infos@[j],
            packet_indices@.len() == others_of(id, infos@.subrange(0, i as int)).len(),
            forall|k: int|
                0 <= k < packet_indices@.len() ==> #[trigger] packet_indices@[k] < pool@.len()
                    && pool@[packet_indices@[k] as int].0 == others_of(
                    id,
                    infos@.subrange(0, i as int),
                )[k] && (forall|p: int|
                    0 <= p < packet_indices@[k] ==> pool@[p].0 != others_of(
                        id,
                        infos@.subrange(0, i as int),
                    )[k]),
            forall|j: int|
                0 <= j < i && infos@[j].nexthop != id ==> pool_has_info(pool@, #[trigger] infos@[j]),
        decreases infos@.len() - i,
    {
        let ghost prefix = infos@.subrange(0, i as int);
        let ghost prefix1 = infos@.subrange(0, i + 1 as int);
        proof {
            assert(prefix1.drop_last() =~= prefix);
            assert(prefix1.last() == infos@[i as int]);
        }
        let info = infos[i];
        if info.nexthop == id {
            packet_info = Some(info);
            targets = targets + 1;
            proof {
                assert(others_of(id, prefix1) == others_of(id, prefix));
            }
        } else {
            let found = pool.position(&info);
            let Some(index) = found else {
                return Err(
                    CodingError::DecodeError(
                        String::from_str("a native needed for decoding is not pooled"),
                    ),
                );
            };
            packet_indices.push(index);
            proof {
                assert(others_of(id, prefix1) =~= others_of(id, prefix).push(infos@[i as int]));
                assert(pool_has_info(pool@, infos@[i as int]));
            }
        }
        i = i + 1;
    }
    proof {
        assert(infos@.subrange(0, infos@.len() as int) =~= infos@);
    }
    if targets != 1 {
        return Err(
            CodingError::DecodeError(
                String::from_str("the encoded header must list this node exactly once"),
            ),
        );
    }
    let Some(packet_info) = packet_info else {
        return Err(
            CodingError::DecodeError(
                String::from_str("the encoded header does not list this node"),
            ),
        );
    };
    Ok((packet_indices, packet_info))
}

/// Drops the pool entries at the listed positions: they have served
/// their purpose once a packet was decoded out of them.
pub fn remove_from_pool(pool: &mut SimplePacketPool, packet_indices: &Vec<usize>)
    requires
        old(pool).wf(),
    ensures
        final(pool).wf(),
        final(pool).spec_max_size() == old(pool).spec_max_size(),
        final(pool)@ == drop_indices(old(pool)@, packet_indices@),
{
    pool.remove_indices(packet_indices);
}

/// Recovers a native payload: XORs the pool entries at the listed
/// positions into the encoded payload, in order. XOR is commutative and
/// associative, so the order does not change the outcome.
pub fn decode(packet_indices: &Vec<usize>, packet_data: &PacketData, pool: &SimplePacketPool) -> (r:
    PacketData)
    requires
        forall|k: int| 0 <= k < packet_indices@.len() ==> #[trigger] packet_indices@[k]
            < pool@.len(),
    ensures
        r@ == xor_fold_at(packet_data@, packet_indices@, pool@),
{
    let mut data: PacketData = packet_data.clone();
    let mut k: usize = 0;
    while k < packet_indices.len()
        invariant
            k <= packet_indices@.len(),
            forall|t: int| 0 <= t < packet_indices@.len() ==> #[trigger] packet_indices@[t]
                < pool@.len(),
            data@ == xor_fold_at(packet_data@, packet_indices@.subrange(0, k as int), pool@),
        decreases packet_indices@.len() - k,
    {
        let ghost prefix = packet_indices@.subrange(0, k as int);
        let ghost prefix1 = packet_indices@.subrange(0, k + 1 as int);
        proof {
            assert(prefix1.drop_last() =~= prefix);
            assert(prefix1.last() == packet_indices@[k as int]);
        }
        let index = packet_indices[k];
        let entry = pool.get_ref(index);
        let Some(entry) = entry else {
            proof {
                assert(false);
            }
            unreached()
        };
        data = data.xor(&entry.1);
        k = k + 1;
    }
    proof {
        assert(packet_indices@.subrange(0, packet_indices@.len() as int) =~= packet_indices@);
    }
    data
}

} // verus!
