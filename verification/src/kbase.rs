use vstd::prelude::*;

use crate::node_id::NodeID;
use crate::packet::CodingInfo;

verus! {

/// What the relay asks of a knowledge base: membership, insertion and a
/// total count of remembered natives.
pub trait KBase {
    /// Abstract well-formedness of the knowledge base.
    spec fn kb_wf(&self) -> bool;

    /// Whether a list is kept for `next_hop`.
    spec fn kb_has_node(&self, next_hop: NodeID) -> bool;

    /// Whether `next_hop` is known to possess the native `info`.
    spec fn kb_knows(&self, next_hop: NodeID, info: CodingInfo) -> bool;

    fn knows(&self, next_hop: &NodeID, info: &CodingInfo) -> (r: bool)
        requires
            self.kb_has_node(*next_hop),
        ensures
            r == self.kb_knows(*next_hop, *info),
    ;

    fn insert(&mut self, next_hop: NodeID, info: CodingInfo)
        requires
            old(self).kb_wf(),
            old(self).kb_has_node(next_hop),
        ensures
            final(self).kb_wf(),
            final(self).kb_knows(next_hop, info),
            forall|id: NodeID| final(self).kb_has_node(id) == old(self).kb_has_node(id),
    ;

    fn size(&self) -> usize;
}

/// The table after appending `info` to the list kept for `nh`, with the
/// oldest entry of that list evicted when it is at the capacity `max`;
/// other lists are untouched.
pub open spec fn kb_after_insert(
    t: Seq<(NodeID, Seq<CodingInfo>)>,
    max: int,
    nh: NodeID,
    info: CodingInfo,
) -> Seq<(NodeID, Seq<CodingInfo>)> {
    Seq::new(
        t.len(),
        |j: int|
            if t[j].0 == nh {
                (
                    t[j].0,
                    if t[j].1.len() >= max {
                        t[j].1.subrange(1, t[j].1.len() as int).push(info)
                    } else {
                        t[j].1.push(info)
                    },
                )
            } else {
                t[j]
            },
    )
}

/// Sum of the per-neighbour list lengths.
pub open spec fn kb_total(s: Seq<(NodeID, Seq<CodingInfo>)>) -> nat
    decreases s.len(),
{
    if s.len() == 0 {
        0
    } else {
        kb_total(s.drop_last()) + s.last().1.len()
    }
}

/// Per-neighbour bounded FIFO lists of the natives each neighbour is
/// known to possess, seeded once with one empty list per neighbour the
/// relay transmits toward.
pub struct SimpleKBase {
    table: Vec<(NodeID, Vec<CodingInfo>)>,
    max_size: usize,
}

impl View for SimpleKBase {
    type V = Seq<(NodeID, Seq<CodingInfo>)>;

    closed spec fn view(&self) -> Seq<(NodeID, Seq<CodingInfo>)> {
        Seq::new(self.table@.len(), |i: int| (self.table@[i].0, self.table@[i].1@))
    }
}

impl SimpleKBase {
    /// The raw table, for proofs inside this module.
    closed spec fn view_table(&self) -> Seq<(NodeID, Vec<CodingInfo>)> {
        self.table@
    }

    /// The per-neighbour capacity this knowledge base was created with.
    pub closed spec fn spec_max_size(&self) -> int {
        self.max_size as int
    }

    /// Neighbours appear at most once and no list exceeds the capacity.
    pub open spec fn wf(&self) -> bool {
        &&& self.spec_max_size() >= 1
        &&& forall|i: int, j: int| 0 <= i < j < self@.len() ==> self@[i].0 != self@[j].0
        &&& forall|i: int| 0 <= i < self@.len() ==> self@[i].1.len() <= self.spec_max_size()
    }

    /// Whether this knowledge base keeps a list for `next_hop`.
    pub open spec fn has_node(&self, next_hop: NodeID) -> bool {
        exists|i: int| 0 <= i < self@.len() && self@[i].0 == next_hop
    }

    /// Whether `next_hop` is known to possess the native `info`.
    pub open spec fn spec_knows(&self, next_hop: NodeID, info: CodingInfo) -> bool {
        exists|i: int| 0 <= i < self@.len() && self@[i].0 == next_hop && self@[i].1.contains(info)
    }

    /// Total count of remembered natives over all neighbours.
    pub open spec fn spec_size(&self) -> nat {
        kb_total(self@)
    }

    pub fn new(next_hops: Vec<NodeID>, max_size: usize) -> (r: Self)
        requires
            max_size >= 1,
        ensures
            r.wf(),
            r.spec_max_size() == max_size,
            forall|id: NodeID| r.has_node(id) <==> next_hops@.contains(id),
            forall|i: int| 0 <= i < r@.len() ==> r@[i].1 == Seq::<CodingInfo>::empty(),
    {
        let mut table: Vec<(NodeID, Vec<CodingInfo>)> = Vec::new();
        let mut i: usize = 0;
        while i < next_hops.len()
            invariant
                i <= next_hops@.len(),
                forall|a: int, b: int| 0 <= a < b < table@.len() ==> table@[a].0 != table@[b].0,
                forall|a: int| 0 <= a < table@.len() ==> table@[a].1@ =~= Seq::<
                    CodingInfo,
                >::empty(),
                forall|a: int| 0 <= a < table@.len() ==> next_hops@.subrange(0, i as int).contains(
                    table@[a].0,
                ),
                forall|j: int| 0 <= j < i ==> exists|a: int|
                    0 <= a < table@.len() && table@[a].0 == #[trigger] next_hops@[j],
            decreases next_hops@.len() - i,
        {
            let id = next_hops[i];
            let mut present = false;
            let mut t: usize = 0;
            while t < table.len()
                invariant
                    t <= table@.len(),
                    present == exists|a: int| 0 <= a < t && table@[a].0 == id,
                decreases table@.len() - t,
            {
                if table[t].0 == id {
                    present = true;
                    proof {
                        assert(0 <= t < t + 1 && table@[t as int].0 == id);
                    }
                }
                t = t + 1;
            }
            let ghost pre_table = table@;
            if !present {
                table.push((id, Vec::new()));
            }
            proof {
                assert(next_hops@.subrange(0, i + 1 as int)[i as int] == next_hops@[i as int]);
                if !present {
                    assert(table@[table@.len() - 1].0 == id);
                } else {
                    let a = choose|a: int| 0 <= a < pre_table.len() && pre_table[a].0 == id;
                    assert(table@[a].0 == id);
                }
                assert forall|j: int| 0 <= j < i + 1 implies exists|a: int|
                    0 <= a < table@.len() && table@[a].0 == #[trigger] next_hops@[j] by {
                    if j < i {
                        let a = choose|a: int|
                            0 <= a < pre_table.len() && pre_table[a].0 == next_hops@[j];
                        assert(table@[a].0 == next_hops@[j]);
                    } else {
                        assert(exists|a: int| 0 <= a < table@.len() && table@[a].0 == id);
                    }
                }
                assert forall|a: int| 0 <= a < table@.len() implies next_hops@.subrange(
                    0,
                    i + 1 as int,
                ).contains(table@[a].0) by {
                    if table@[a].0 != next_hops@[i as int] {
                        assert(next_hops@.subrange(0, i as int).contains(table@[a].0));
                        let w = choose|w: int|
                            0 <= w < i && next_hops@.subrange(0, i as int)[w] == table@[a].0;
                        assert(next_hops@.subrange(0, i + 1 as int)[w] == table@[a].0);
                    } else {
                        assert(next_hops@.subrange(0, i + 1 as int)[i as int] == table@[a].0);
                    }
                }
            }
            i = i + 1;
        }
        let r = Self { table, max_size };
        proof {
            assert(r.view_table() == table@);
            assert(next_hops@.subrange(0, next_hops@.len() as int) =~= next_hops@);
            assert forall|id: NodeID| r.has_node(id) <==> next_hops@.contains(id) by {
                if next_hops@.contains(id) {
                    let j = choose|j: int| 0 <= j < next_hops@.len() && next_hops@[j] == id;
                    assert(exists|a: int|
                        0 <= a < r.view_table().len() && r.view_table()[a].0 == #[trigger] next_hops@[j]);
                    let a = choose|a: int|
                        0 <= a < r.view_table().len() && r.view_table()[a].0 == next_hops@[j];
                    assert(r@[a].0 == id);
                }
                if r.has_node(id) {
                    let a = choose|a: int| 0 <= a < r@.len() && r@[a].0 == id;
                    assert(r.view_table()[a].0 == id);
                    assert(next_hops@.contains(r.view_table()[a].0));
                }
            }
        }
        r
    }

    /// Whether a list is kept for `id`.
    pub fn contains_node(&self, id: &NodeID) -> (r: bool)
        ensures
            r == self.has_node(*id),
    {
        let mut i: usize = 0;
        while i < self.table.len()
            invariant
                i <= self.table@.len(),
                self@.len() == self.table@.len(),
                forall|a: int| 0 <= a < i ==> self@[a].0 != id,
            decreases self.table@.len() - i,
        {
            proof {
                assert(self@[i as int] == (self.table@[i as int].0, self.table@[i as int].1@));
            }
            if self.table[i].0 == *id {
                proof {
                    assert(self@[i as int].0 == *id);
                }
                return true;
            }
            i = i + 1;
        }
        false
    }

    /// Whether `next_hop` is known to possess the native `info`. The
    /// knowledge base must keep a list for `next_hop`.
    pub fn knows(&self, next_hop: &NodeID, info: &CodingInfo) -> (r: bool)
        requires
            self.has_node(*next_hop),
        ensures
            r == self.spec_knows(*next_hop, *info),
    {
        let mut i: usize = 0;
        while i < self.table.len()
            invariant
                i <= self.table@.len(),
                self@.len() == self.table@.len(),
                forall|a: int| 0 <= a < i ==> !(self@[a].0 == next_hop && self@[a].1.contains(
                    *info,
                )),
            decreases self.table@.len() - i,
        {
            proof {
                assert(self@[i as int] == (self.table@[i as int].0, self.table@[i as int].1@));
            }
            if self.table[i].0 == *next_hop {
                let ghost rowv = self@[i as int].1;
                let mut t: usize = 0;
                let row_len = self.table[i].1.len();
                while t < row_len
                    invariant
                        t <= rowv.len(),
                        row_len == rowv.len(),
                        i < self.table@.len(),
                        rowv == self.table@[i as int].1@,
                        self@.len() == self.table@.len(),
                        self@[i as int].1 == rowv,
                        self@[i as int].0 == *next_hop,
                        forall|b: int| 0 <= b < t ==> rowv[b] != info,
                    decreases rowv.len() - t,
                {
                    if self.table[i].1[t] == *info {
                        proof {
                            assert(rowv[t as int] == info);
                            assert(self@[i as int].1.contains(*info));
                            assert(self@[i as int].0 == *next_hop);
                            assert(self.spec_knows(*next_hop, *info));
                        }
                        return true;
                    }
                    t = t + 1;
                }
                proof {
                    assert(!self@[i as int].1.contains(*info));
                }
            }
            i = i + 1;
        }
        proof {
            assert(!self.spec_knows(*next_hop, *info));
        }
        false
    }

    /// Appends `info` to the list kept for `next_hop`, evicting that
    /// list's oldest entry when it is at capacity. The knowledge base
    /// must keep a list for `next_hop`.
    pub fn insert(&mut self, next_hop: NodeID, info: CodingInfo)
        requires
            old(self).wf(),
            old(self).has_node(next_hop),
        ensures
            final(self).wf(),
            final(self).spec_max_size() == old(self).spec_max_size(),
            final(self)@ == kb_after_insert(
                old(self)@,
                old(self).spec_max_size(),
                next_hop,
                info,
            ),
    {
        let mut i: usize = 0;
        while i < self.table.len()
            invariant
                i <= self.table@.len(),
                self@ == old(self)@,
                self.wf(),
                self.spec_max_size() == old(self).spec_max_size(),
                forall|a: int| 0 <= a < i ==> self@[a].0 != next_hop,
            decreases self.table@.len() - i,
        {
            proof {
                assert(self@[i as int] == (self.table@[i as int].0, self.table@[i as int].1@));
            }
            if self.table[i].0 == next_hop {
                let ghost oldrow = self@[i as int].1;
                let ghost pre_table = self.table@;
                let key = self.table[i].0;
                let mut list = vstd::slice::slice_to_vec(self.table[i].1.as_slice());
                if list.len() >= self.max_size {
                    list.remove(0);
                }
                list.push(info);
                proof {
                    if oldrow.len() >= old(self).spec_max_size() {
                        assert(list@ =~= oldrow.subrange(1, oldrow.len() as int).push(info));
                    } else {
                        assert(list@ =~= oldrow.push(info));
                    }
                }
                self.table[i] = (key, list);
                proof {
                    assert(self.table@ == pre_table.update(i as int, self.table@[i as int]));
                    assert forall|j: int| 0 <= j < self@.len() && j != i implies self@[j] == old(
                        self,
                    )@[j] by {
                        assert(self.table@[j] == pre_table[j]);
                    }
                    assert forall|j: int| 0 <= j < self@.len() && old(self)@[j].0 == next_hop
                        implies j == i by {
                        if j != i {
                            assert(old(self)@[i as int].0 == next_hop);
                        }
                    }
                    assert(final(self)@ =~= kb_after_insert(
                        old(self)@,
                        old(self).spec_max_size(),
                        next_hop,
                        info,
                    ));
                }
                return;
            }
            i = i + 1;
        }
        proof {
            assert(!old(self).has_node(next_hop));
        }
    }

    /// Total count of remembered natives over all neighbours.
    pub fn size(&self) -> (r: usize)
        requires
            self.spec_size() <= usize::MAX,
        ensures
            r == self.spec_size(),
    {
        let mut total: usize = 0;
        let mut i: usize = 0;
        while i < self.table.len()
            invariant
                i <= self.table@.len(),
                self@.len() == self.table@.len(),
                total == kb_total(self@.subrange(0, i as int)),
                self.spec_size() <= usize::MAX,
            decreases self.table@.len() - i,
        {
            let ghost prefix = self@.subrange(0, i as int);
            let ghost prefix1 = self@.subrange(0, i + 1 as int);
            proof {
                assert(prefix1.drop_last() =~= prefix);
                assert(prefix1.last() == self@[i as int]);
                assert(self@[i as int] == (self.table@[i as int].0, self.table@[i as int].1@));
                lemma_kb_total_prefix(self@, i + 1);
            }
            total = total + self.table[i].1.len();
            i = i + 1;
        }
        proof {
            assert(self@.subrange(0, self@.len() as int) =~= self@);
        }
        total
    }
}

/// The count over a prefix never exceeds the count over the whole table.
proof fn lemma_kb_total_prefix(s: Seq<(NodeID, Seq<CodingInfo>)>, k: int)
    requires
        0 <= k <= s.len(),
    ensures
        kb_total(s.subrange(0, k)) <= kb_total(s),
    decreases s.len() - k,
{
    if k == s.len() {
        assert(s.subrange(0, k) =~= s);
    } else {
        lemma_kb_total_prefix(s, k + 1);
        assert(s.subrange(0, k + 1).drop_last() =~= s.subrange(0, k));
    }
}

impl KBase for SimpleKBase {
    open spec fn kb_wf(&self) -> bool {
        self.wf()
    }

    open spec fn kb_has_node(&self, next_hop: NodeID) -> bool {
        self.has_node(next_hop)
    }

    open spec fn kb_knows(&self, next_hop: NodeID, info: CodingInfo) -> bool {
        self.spec_knows(next_hop, info)
    }

    fn knows(&self, next_hop: &NodeID, info: &CodingInfo) -> (r: bool) {
        SimpleKBase::knows(self, next_hop, info)
    }

    fn insert(&mut self, next_hop: NodeID, info: CodingInfo) {
        let ghost pre = *self;
        SimpleKBase::insert(self, next_hop, info);
        proof {
            let i = choose|i: int| 0 <= i < pre@.len() && pre@[i].0 == next_hop;
            assert(self@[i].1.last() == info);
            assert(self@[i].1.contains(info));
            assert forall|id: NodeID| self.has_node(id) == pre.has_node(id) by {
                if pre.has_node(id) {
                    let a = choose|a: int| 0 <= a < pre@.len() && pre@[a].0 == id;
                    assert(self@[a].0 == id);
                }
                if self.has_node(id) {
                    let a = choose|a: int| 0 <= a < self@.len() && self@[a].0 == id;
                    assert(pre@[a].0 == id);
                }
            }
        }
    }

    fn size(&self) -> usize {
        let mut total: usize = 0;
        let mut i: usize = 0;
        let n = self.table.len();
        while i < n
            invariant
                i <= self.table@.len(),
                n == self.table@.len(),
            decreases self.table@.len() - i,
        {
            let add = self.table[i].1.len();
            total = if usize::MAX - total >= add {
                total + add
            } else {
                usize::MAX
            };
            i = i + 1;
        }
        total
    }
}

} // verus!
