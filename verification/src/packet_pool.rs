use vstd::prelude::*;

use crate::node_id::NodeID;
use crate::packet::{CodingHeader, CodingHeaderV, CodingInfo, Packet};
use crate::packet_data::PacketData;

verus! {

/// One pooled native: its identity and its payload.
pub type PPEntry = (CodingInfo, PacketData);

/// Mathematical value of a pooled native.
pub type PPEntryV = (CodingInfo, Seq<u8>);

/// Mathematical value of one pool entry.
pub open spec fn entry_v(e: PPEntry) -> PPEntryV {
    (e.0, e.1@)
}

/// `s` with the positions listed in `idxs` dropped; the other entries
/// keep their relative order. Positions out of range and repeated
/// positions are ignored.
pub open spec fn drop_indices<T>(s: Seq<T>, idxs: Seq<usize>) -> Seq<T>
    decreases s.len(),
{
    if s.len() == 0 {
        s
    } else {
        let rest = drop_indices(s.drop_last(), idxs);
        if idxs.contains((s.len() - 1) as usize) {
            rest
        } else {
            rest.push(s.last())
        }
    }
}

/// Whether `e` is one of the entries of `s`.
pub open spec fn in_pool(s: Seq<PPEntryV>, e: PPEntryV) -> bool {
    exists|q: int| 0 <= q < s.len() && s[q] == e
}

/// How many distinct nexthops appear among the pooled natives.
pub open spec fn num_unique_nexthops(s: Seq<PPEntryV>) -> nat
    decreases s.len(),
{
    if s.len() == 0 {
        0
    } else {
        let rest = num_unique_nexthops(s.drop_last());
        if exists|j: int| 0 <= j < s.len() - 1 && s[j].0.nexthop == s.last().0.nexthop {
            rest
        } else {
            rest + 1
        }
    }
}

/// A well-formed pool never exceeds the capacity it was created with:
/// pushing on a full pool evicts the oldest entry first instead of
/// growing.
pub proof fn lemma_pool_never_exceeds_capacity(pool: &SimplePacketPool)
    requires
        pool.wf(),
    ensures
        pool@.len() <= pool.spec_max_size(),
{
}

/// The oldest pooled native addressed to `nh`, if any.
pub open spec fn first_for_nexthop(s: Seq<PPEntryV>, nh: NodeID) -> Option<PPEntryV>
    decreases s.len(),
{
    if s.len() == 0 {
        None
    } else if s[0].0.nexthop == nh {
        Some(s[0])
    } else {
        first_for_nexthop(s.drop_first(), nh)
    }
}

/// The first matching position pins the oldest native for a nexthop.
pub proof fn lemma_first_for_nexthop_at(s: Seq<PPEntryV>, nh: NodeID, i: int)
    requires
        0 <= i < s.len(),
        s[i].0.nexthop == nh,
        forall|j: int| 0 <= j < i ==> s[j].0.nexthop != nh,
    ensures
        first_for_nexthop(s, nh) == Some(s[i]),
    decreases i,
{
    if i > 0 {
        assert(s.drop_first()[i - 1] == s[i]);
        lemma_first_for_nexthop_at(s.drop_first(), nh, i - 1);
    }
}

/// With no match at all, there is no oldest native for the nexthop.
pub proof fn lemma_first_for_nexthop_none(s: Seq<PPEntryV>, nh: NodeID)
    requires
        forall|j: int| 0 <= j < s.len() ==> s[j].0.nexthop != nh,
    ensures
        first_for_nexthop(s, nh) is None,
    decreases s.len(),
{
    if s.len() > 0 {
        lemma_first_for_nexthop_none(s.drop_first(), nh);
    }
}

/// Removing a native for one nexthop leaves every other nexthop's oldest
/// native in place.
pub proof fn lemma_first_for_nexthop_remove(s: Seq<PPEntryV>, i: int, nh: NodeID)
    requires
        0 <= i < s.len(),
        s[i].0.nexthop != nh,
    ensures
        first_for_nexthop(s.remove(i), nh) == first_for_nexthop(s, nh),
    decreases s.len(),
{
    if i == 0 {
        assert(s.remove(0) =~= s.drop_first());
    } else {
        assert(s.remove(i)[0] == s[0]);
        if s[0].0.nexthop == nh {
            assert(first_for_nexthop(s.remove(i), nh) == Some(s.remove(i)[0]));
        } else {
            assert(s.remove(i).drop_first() =~= s.drop_first().remove(i - 1));
            assert(s.drop_first()[i - 1] == s[i]);
            lemma_first_for_nexthop_remove(s.drop_first(), i - 1, nh);
        }
    }
}

/// `s` without its oldest native addressed to `nh`; `s` itself when none
/// is pooled.
pub open spec fn remove_first_nexthop(s: Seq<PPEntryV>, nh: NodeID) -> Seq<PPEntryV>
    decreases s.len(),
{
    if s.len() == 0 {
        s
    } else if s[0].0.nexthop == nh {
        s.drop_first()
    } else {
        seq![s[0]] + remove_first_nexthop(s.drop_first(), nh)
    }
}

/// When the first match sits at position `i`, removing by nexthop is
/// removing at `i`.
pub proof fn lemma_remove_first_nexthop_at(s: Seq<PPEntryV>, nh: NodeID, i: int)
    requires
        0 <= i < s.len(),
        s[i].0.nexthop == nh,
        forall|j: int| 0 <= j < i ==> s[j].0.nexthop != nh,
    ensures
        remove_first_nexthop(s, nh) == s.remove(i),
    decreases i,
{
    if i == 0 {
        assert(remove_first_nexthop(s, nh) =~= s.remove(0));
    } else {
        assert(s.drop_first()[i - 1] == s[i]);
        lemma_remove_first_nexthop_at(s.drop_first(), nh, i - 1);
        assert(seq![s[0]] + s.drop_first().remove(i - 1) =~= s.remove(i));
    }
}

/// Bounded first-in-first-out cache of recently seen natives. A push on
/// a full pool evicts the oldest entry first.
pub struct SimplePacketPool {
    queue: Vec<PPEntry>,
    max_size: usize,
}

impl View for SimplePacketPool {
    type V = Seq<PPEntryV>;

    closed spec fn view(&self) -> Seq<PPEntryV> {
        Seq::new(self.queue@.len(), |i: int| entry_v(self.queue@[i]))
    }
}

impl SimplePacketPool {
    /// The capacity this pool was created with.
    pub closed spec fn spec_max_size(&self) -> int {
        self.max_size as int
    }

    /// The pool never exceeds its capacity and every pooled payload is
    /// non-empty, as a native's payload always is.
    pub open spec fn wf(&self) -> bool {
        &&& self.spec_max_size() >= 1
        &&& self@.len() <= self.spec_max_size()
        &&& forall|i: int| 0 <= i < self@.len() ==> (#[trigger] self@[i]).1.len() > 0
    }

    pub fn new(max_size: usize) -> (r: Self)
        requires
            max_size >= 1,
        ensures
            r.wf(),
            r@ == Seq::<PPEntryV>::empty(),
            r.spec_max_size() == max_size,
    {
        let r = Self { queue: Vec::new(), max_size };
        proof {
            assert(r@ =~= Seq::<PPEntryV>::empty());
        }
        r
    }

    pub fn size(&self) -> (r: usize)
        ensures
            r == self@.len(),
    {
        self.queue.len()
    }

    /// Removes and returns the oldest pooled native, if any.
    pub fn pop_front(&mut self) -> (r: Option<PPEntry>)
        requires
            old(self).wf(),
        ensures
            final(self).wf(),
            final(self).spec_max_size() == old(self).spec_max_size(),
            old(self)@.len() == 0 ==> r is None && final(self)@ == old(self)@,
            old(self)@.len() > 0 ==> (r matches Some(e) && entry_v(e) == old(self)@[0]
                && final(self)@ == old(self)@.subrange(1, old(self)@.len() as int)),
    {
        if self.queue.len() == 0 {
            proof {
                assert(final(self)@ =~= old(self)@);
            }
            return None;
        }
        let e = self.queue.remove(0);
        proof {
            assert(final(self)@ =~= old(self)@.subrange(1, old(self)@.len() as int));
        }
        Some(e)
    }

    /// A reference to the oldest pooled native addressed to `nexthop`.
    pub fn peek_nexthop_front(&self, nexthop: NodeID) -> (r: Option<&PPEntry>)
        ensures
            match r {
                None => forall|i: int| 0 <= i < self@.len() ==> self@[i].0.nexthop != nexthop,
                Some(e) => exists|i: int|
                    0 <= i < self@.len() && self@[i].0.nexthop == nexthop && entry_v(*e) == self@[i]
                        && (forall|j: int| 0 <= j < i ==> self@[j].0.nexthop != nexthop),
            },
    {
        let mut i: usize = 0;
        while i < self.queue.len()
            invariant
                i <= self.queue@.len(),
                self@.len() == self.queue@.len(),
                forall|j: int| 0 <= j < i ==> self@[j].0.nexthop != nexthop,
            decreases self.queue@.len() - i,
        {
            if self.queue[i].0.nexthop == nexthop {
                proof {
                    assert(self@[i as int] == entry_v(self.queue@[i as int]));
                    assert(self@[i as int].0.nexthop == nexthop);
                }
                return Some(&self.queue[i]);
            }
            i = i + 1;
        }
        None
    }

    /// Removes and returns the oldest pooled native addressed to `nexthop`.
    pub fn pop_nexthop_front(&mut self, nexthop: NodeID) -> (r: Option<PPEntry>)
        requires
            old(self).wf(),
        ensures
            final(self).wf(),
            final(self).spec_max_size() == old(self).spec_max_size(),
            match r {
                None => final(self)@ == old(self)@ && (forall|i: int|
                    0 <= i < old(self)@.len() ==> old(self)@[i].0.nexthop != nexthop),
                Some(e) => exists|i: int|
                    0 <= i < old(self)@.len() && old(self)@[i].0.nexthop == nexthop
                        && entry_v(e) == old(self)@[i]
                        && final(self)@ == old(self)@.remove(i)
                        && (forall|j: int| 0 <= j < i ==> old(self)@[j].0.nexthop != nexthop),
            },
    {
        let mut i: usize = 0;
        while i < self.queue.len()
            invariant
                i <= self.queue@.len(),
                self@ == old(self)@,
                self.wf(),
                self.spec_max_size() == old(self).spec_max_size(),
                forall|j: int| 0 <= j < i ==> self@[j].0.nexthop != nexthop,
            decreases self.queue@.len() - i,
        {
            if self.queue[i].0.nexthop == nexthop {
                let e = self.queue.remove(i);
                proof {
                    assert(final(self)@ =~= old(self)@.remove(i as int));
                }
                return Some(e);
            }
            i = i + 1;
        }
        None
    }

    /// A reference to the pooled native at `pos`, if in range.
    pub fn get(&self, pos: usize) -> (r: Option<&PPEntry>)
        ensures
            pos < self@.len() ==> (r matches Some(e) && entry_v(*e) == self@[pos as int]),
            pos >= self@.len() ==> r is None,
    {
        if pos < self.queue.len() {
            Some(&self.queue[pos])
        } else {
            None
        }
    }

    /// A reference to the pooled native at `pos`, if in range.
    pub fn get_ref(&self, pos: usize) -> (r: Option<&PPEntry>)
        ensures
            pos < self@.len() ==> (r matches Some(e) && entry_v(*e) == self@[pos as int]),
            pos >= self@.len() ==> r is None,
    {
        self.get(pos)
    }

    /// The position of the oldest pooled native whose identity equals
    /// `info`, if any.
    pub fn position(&self, info: &CodingInfo) -> (r: Option<usize>)
        ensures
            match r {
                None => forall|i: int| 0 <= i < self@.len() ==> self@[i].0 != info,
                Some(p) => p < self@.len() && self@[p as int].0 == info
                    && (forall|j: int| 0 <= j < p ==> self@[j].0 != info),
            },
    {
        let mut i: usize = 0;
        while i < self.queue.len()
            invariant
                i <= self.queue@.len(),
                self@.len() == self.queue@.len(),
                forall|j: int| 0 <= j < i ==> self@[j].0 != info,
            decreases self.queue@.len() - i,
        {
            if self.queue[i].0 == *info {
                return Some(i);
            }
            i = i + 1;
        }
        None
    }

    /// Removes and returns the pooled native at `pos`.
    pub fn remove(&mut self, pos: usize) -> (r: Option<PPEntry>)
        requires
            old(self).wf(),
            pos < old(self)@.len(),
        ensures
            final(self).wf(),
            final(self).spec_max_size() == old(self).spec_max_size(),
            r matches Some(e) && entry_v(e) == old(self)@[pos as int],
            final(self)@ == old(self)@.remove(pos as int),
    {
        let e = self.queue.remove(pos);
        proof {
            assert(final(self)@ =~= old(self)@.remove(pos as int));
        }
        Some(e)
    }

    /// Removes the pooled natives at all listed positions at once; the
    /// remaining entries keep their order.
    pub fn remove_indices(&mut self, idxs: &Vec<usize>)
        requires
            old(self).wf(),
        ensures
            final(self).wf(),
            final(self).spec_max_size() == old(self).spec_max_size(),
            final(self)@ == drop_indices(old(self)@, idxs@),
    {
        let mut kept: Vec<PPEntry> = Vec::new();
        let mut k: usize = 0;
        while k < self.queue.len()
            invariant
                k <= self.queue@.len(),
                self@ == old(self)@,
                self.wf(),
                Seq::new(kept@.len(), |i: int| entry_v(kept@[i]))
                    == drop_indices(self@.subrange(0, k as int), idxs@),
                kept@.len() <= k,
                forall|i: int| 0 <= i < kept@.len() ==> kept@[i].1@.len() > 0,
            decreases self.queue@.len() - k,
        {
            let ghost prefix = self@.subrange(0, k as int);
            let ghost prefix1 = self@.subrange(0, k + 1 as int);
            let mut listed = false;
            let mut t: usize = 0;
            while t < idxs.len()
                invariant
                    t <= idxs@.len(),
                    listed == exists|u: int| 0 <= u < t && idxs@[u] == k,
                decreases idxs@.len() - t,
            {
                if idxs[t] == k {
                    listed = true;
                }
                t = t + 1;
            }
            assert(listed == idxs@.contains(k));
            proof {
                assert(prefix1.drop_last() =~= prefix);
                assert(prefix1.last() == self@[k as int]);
            }
            if !listed {
                let entry = (self.queue[k].0, self.queue[k].1.clone());
                assert(entry.1@ == self.queue@[k as int].1@);
                kept.push(entry);
            }
            proof {
                assert(Seq::new(kept@.len(), |i: int| entry_v(kept@[i]))
                    =~= drop_indices(prefix1, idxs@));
            }
            k = k + 1;
        }
        proof {
            assert(self@.subrange(0, self@.len() as int) =~= self@);
        }
        self.queue = kept;
    }

    /// Pools one received native, evicting the oldest entry when full.
    pub fn push_packet(&mut self, packet: Packet)
        requires
            old(self).wf(),
            packet@.coding_header is Native,
            packet@.data.len() > 0,
        ensures
            final(self).wf(),
            final(self).spec_max_size() == old(self).spec_max_size(),
            ({
                let info = packet@.coding_header->Native_0;
                let pushed = (info, packet@.data);
                if old(self)@.len() >= old(self).spec_max_size() {
                    final(self)@ == old(self)@.subrange(1, old(self)@.len() as int).push(pushed)
                } else {
                    final(self)@ == old(self)@.push(pushed)
                }
            }),
    {
        let is_at_max_size = self.queue.len() >= self.max_size;
        if is_at_max_size {
            self.pop_front();
        }
        let CodingHeader::Native(info) = packet.coding_header() else {
            unreached()
        };
        let entry = (*info, packet.data().clone());
        assert(entry.1@ == packet@.data);
        self.queue.push(entry);
        proof {
            if old(self)@.len() >= old(self).spec_max_size() {
                assert(final(self)@ =~= old(self)@.subrange(1, old(self)@.len() as int).push(
                    (packet@.coding_header->Native_0, packet@.data)));
            } else {
                assert(final(self)@ =~= old(self)@.push(
                    (packet@.coding_header->Native_0, packet@.data)));
            }
        }
    }

    /// How many distinct nexthops the pooled natives are addressed to.
    pub fn unique_nexthops(&self) -> (r: usize)
        ensures
            r == num_unique_nexthops(self@),
    {
        let mut count: usize = 0;
        let mut i: usize = 0;
        while i < self.queue.len()
            invariant
                i <= self.queue@.len(),
                self@.len() == self.queue@.len(),
                count == num_unique_nexthops(self@.subrange(0, i as int)),
                count <= i,
            decreases self.queue@.len() - i,
        {
            let ghost prefix = self@.subrange(0, i as int);
            let ghost prefix1 = self@.subrange(0, i + 1 as int);
            let mut seen = false;
            let mut j: usize = 0;
            while j < i
                invariant
                    j <= i,
                    i < self.queue@.len(),
                    self@.len() == self.queue@.len(),
                    seen == exists|u: int|
                        0 <= u < j && self@[u].0.nexthop == self@[i as int].0.nexthop,
                decreases i - j,
            {
                proof {
                    assert(self@[j as int] == entry_v(self.queue@[j as int]));
                    assert(self@[i as int] == entry_v(self.queue@[i as int]));
                }
                if self.queue[j].0.nexthop == self.queue[i].0.nexthop {
                    seen = true;
                    proof {
                        assert(0 <= j < j + 1 && self@[j as int].0.nexthop
                            == self@[i as int].0.nexthop);
                    }
                }
                j = j + 1;
            }
            proof {
                assert(prefix1.drop_last() =~= prefix);
                assert(prefix1.last() == self@[i as int]);
                assert forall|u: int| 0 <= u < prefix1.len() - 1 implies prefix1[u]
                    == self@[u] by {}
                if seen {
                    let u = choose|u: int|
                        0 <= u < i && self@[u].0.nexthop == self@[i as int].0.nexthop;
                    assert(prefix1[u].0.nexthop == prefix1.last().0.nexthop);
                }
                assert(seen == exists|u: int|
                    0 <= u < prefix1.len() - 1 && prefix1[u].0.nexthop == prefix1.last().0.nexthop);
            }
            if !seen {
                count = count + 1;
            }
            i = i + 1;
        }
        proof {
            assert(self@.subrange(0, self@.len() as int) =~= self@);
        }
        count
    }
}

} // verus!
