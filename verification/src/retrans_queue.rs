use vstd::prelude::*;

use crate::packet::CodingInfo;
use crate::packet_data::PacketData;
use crate::packet_pool::PPEntryV;

verus! {

/// One native awaiting acknowledgement: its payload, its identity, how
/// often it was already re-sent, and when it was last transmitted
/// (milliseconds of the injected clock).
#[derive(Debug)]
pub struct RetransEntry {
    pub data: PacketData,
    pub info: CodingInfo,
    pub retrans_count: u8,
    pub last_trans: u64,
}

/// Mathematical value of a [`RetransEntry`].
#[verifier::ext_equal]
pub struct RetransEntryV {
    pub data: Seq<u8>,
    pub info: CodingInfo,
    pub retrans_count: u8,
    pub last_trans: u64,
}

impl View for RetransEntry {
    type V = RetransEntryV;

    open spec fn view(&self) -> RetransEntryV {
        RetransEntryV {
            data: self.data@,
            info: self.info,
            retrans_count: self.retrans_count,
            last_trans: self.last_trans,
        }
    }
}

/// Whether an entry is due for retransmission at time `now`: at least
/// `duration` milliseconds have passed since its last transmission.
pub open spec fn due(e: RetransEntryV, now: u64, duration: u64) -> bool {
    now >= e.last_trans && now - e.last_trans >= duration
}

/// `q` without its first entry whose identity is `info`; `q` itself when
/// no entry matches.
pub open spec fn remove_first_info(q: Seq<RetransEntryV>, info: CodingInfo) -> Seq<RetransEntryV>
    decreases q.len(),
{
    if q.len() == 0 {
        q
    } else if q[0].info == info {
        q.drop_first()
    } else {
        seq![q[0]] + remove_first_info(q.drop_first(), info)
    }
}

/// `q` after removing, for each listed identity in order, its first
/// matching entry.
pub open spec fn remove_infos(q: Seq<RetransEntryV>, infos: Seq<CodingInfo>) -> Seq<RetransEntryV>
    decreases infos.len(),
{
    if infos.len() == 0 {
        q
    } else {
        remove_infos(remove_first_info(q, infos[0]), infos.drop_first())
    }
}

/// Removing one more identity at the end removes it from the result of
/// removing the earlier ones.
pub proof fn lemma_remove_infos_push(q: Seq<RetransEntryV>, infos: Seq<CodingInfo>, x: CodingInfo)
    ensures
        remove_infos(q, infos.push(x)) == remove_first_info(remove_infos(q, infos), x),
    decreases infos.len(),
{
    let s = infos.push(x);
    if infos.len() == 0 {
        assert(s.drop_first() =~= infos);
        assert(s[0] == x);
        assert(remove_infos(q, s) == remove_infos(remove_first_info(q, x), infos));
        assert(remove_infos(q, infos) == q);
    } else {
        assert(s[0] == infos[0]);
        assert(s.drop_first() =~= infos.drop_first().push(x));
        assert(remove_infos(q, s) == remove_infos(
            remove_first_info(q, infos[0]),
            infos.drop_first().push(x),
        ));
        lemma_remove_infos_push(remove_first_info(q, infos[0]), infos.drop_first(), x);
        assert(remove_infos(q, infos) == remove_infos(
            remove_first_info(q, infos[0]),
            infos.drop_first(),
        ));
    }
}

/// When the first match sits at position `i`, removing by identity is
/// removing at `i`.
pub proof fn lemma_remove_first_info_at(q: Seq<RetransEntryV>, info: CodingInfo, i: int)
    requires
        0 <= i < q.len(),
        q[i].info == info,
        forall|j: int| 0 <= j < i ==> q[j].info != info,
    ensures
        remove_first_info(q, info) == q.remove(i),
    decreases i,
{
    if i == 0 {
        assert(remove_first_info(q, info) =~= q.remove(0));
    } else {
        lemma_remove_first_info_at(q.drop_first(), info, i - 1);
        assert(seq![q[0]] + q.drop_first().remove(i - 1) =~= q.remove(i));
    }
}

/// When nothing matches, removing by identity changes nothing.
pub proof fn lemma_remove_first_info_absent(q: Seq<RetransEntryV>, info: CodingInfo)
    requires
        forall|j: int| 0 <= j < q.len() ==> q[j].info != info,
    ensures
        remove_first_info(q, info) == q,
    decreases q.len(),
{
    if q.len() > 0 {
        lemma_remove_first_info_absent(q.drop_first(), info);
        assert(seq![q[0]] + q.drop_first() =~= q);
    }
}

/// Removing by a tracked identity shortens the queue by exactly one.
pub proof fn lemma_remove_first_info_len(q: Seq<RetransEntryV>, info: CodingInfo)
    requires
        exists|i: int| 0 <= i < q.len() && q[i].info == info,
    ensures
        remove_first_info(q, info).len() == q.len() - 1,
    decreases q.len(),
{
    if q[0].info == info {
    } else {
        let i = choose|i: int| 0 <= i < q.len() && q[i].info == info;
        assert(q.drop_first()[i - 1].info == info);
        lemma_remove_first_info_len(q.drop_first(), info);
    }
}

/// The queue after the relay re-schedules one coded native: a tracked
/// identity's old entry leaves and a fresh one (zero attempts, stamped
/// `now`) joins the tail; an untracked native is its original sender's to
/// re-send, and the queue is untouched.
pub open spec fn refresh_one(q: Seq<RetransEntryV>, e: PPEntryV, now: u64) -> Seq<RetransEntryV> {
    if exists|i: int| 0 <= i < q.len() && q[i].info == e.0 {
        remove_first_info(q, e.0).push(
            RetransEntryV { data: e.1, info: e.0, retrans_count: 0, last_trans: now },
        )
    } else {
        q
    }
}

/// The queue after re-scheduling each listed native in order.
pub open spec fn refresh_all(q: Seq<RetransEntryV>, s: Seq<PPEntryV>, now: u64) -> Seq<
    RetransEntryV,
>
    decreases s.len(),
{
    if s.len() == 0 {
        q
    } else {
        refresh_all(refresh_one(q, s[0], now), s.drop_first(), now)
    }
}

/// Re-scheduling one more native at the end refreshes the queue the
/// earlier ones produced.
pub proof fn lemma_refresh_all_push(
    q: Seq<RetransEntryV>,
    s: Seq<PPEntryV>,
    x: PPEntryV,
    now: u64,
)
    ensures
        refresh_all(q, s.push(x), now) == refresh_one(refresh_all(q, s, now), x, now),
    decreases s.len(),
{
    let t = s.push(x);
    if s.len() == 0 {
        assert(t.drop_first() =~= s);
        assert(t[0] == x);
        assert(refresh_all(q, t, now) == refresh_all(refresh_one(q, x, now), s, now));
        assert(refresh_all(q, s, now) == q);
    } else {
        assert(t[0] == s[0]);
        assert(t.drop_first() =~= s.drop_first().push(x));
        assert(refresh_all(q, t, now) == refresh_all(
            refresh_one(q, s[0], now),
            s.drop_first().push(x),
            now,
        ));
        lemma_refresh_all_push(refresh_one(q, s[0], now), s.drop_first(), x, now);
        assert(refresh_all(q, s, now) == refresh_all(
            refresh_one(q, s[0], now),
            s.drop_first(),
            now,
        ));
    }
}

/// Every entry that survives a removal by identity was queued before it.
pub proof fn lemma_remove_first_info_elements(q: Seq<RetransEntryV>, info: CodingInfo)
    ensures
        forall|i: int|
            0 <= i < remove_first_info(q, info).len() ==> exists|j: int|
                0 <= j < q.len() && #[trigger] remove_first_info(q, info)[i] == q[j],
    decreases q.len(),
{
    let r = remove_first_info(q, info);
    if q.len() == 0 {
    } else if q[0].info == info {
        assert forall|i: int| 0 <= i < r.len() implies exists|j: int|
            0 <= j < q.len() && #[trigger] r[i] == q[j] by {
            assert(r[i] == q[i + 1]);
        }
    } else {
        lemma_remove_first_info_elements(q.drop_first(), info);
        let sub = remove_first_info(q.drop_first(), info);
        assert forall|i: int| 0 <= i < r.len() implies exists|j: int|
            0 <= j < q.len() && #[trigger] r[i] == q[j] by {
            if i == 0 {
                assert(r[0] == q[0]);
            } else {
                assert(r[i] == sub[i - 1]);
                let j = choose|j: int| 0 <= j < q.drop_first().len() && sub[i - 1]
                    == q.drop_first()[j];
                assert(r[i] == q[j + 1]);
            }
        }
    }
}

/// The lifecycle of an unacknowledged native under two granted attempts:
/// queued at `t0`, it is not due before a round trip has passed, comes
/// due exactly at `t0 + rtt` with its first attempt keeping it queued,
/// stays quiet for another round trip, and comes due at `t0 + 2*rtt`
/// with the attempt that reaches the maximum — the one
/// [`RetransQueue::packet_to_retrans`] returns and removes, after which
/// nothing of it remains to re-send.
pub proof fn lemma_retransmit_twice_then_drop(
    info: CodingInfo,
    data: Seq<u8>,
    rtt: u64,
    t0: u64,
)
    requires
        t0 + 2 * rtt <= u64::MAX,
    ensures
        ({
            let first = RetransEntryV { data, info, retrans_count: 0, last_trans: t0 };
            let second = RetransEntryV {
                data,
                info,
                retrans_count: 1,
                last_trans: (t0 + rtt) as u64,
            };
            &&& forall|t: u64| t0 <= t < t0 + rtt ==> !due(first, t, rtt)
            &&& due(first, (t0 + rtt) as u64, rtt)
            &&& first.retrans_count + 1 < 2
            &&& forall|t: u64| t0 + rtt <= t < t0 + 2 * rtt ==> !due(second, t, rtt)
            &&& due(second, (t0 + 2 * rtt) as u64, rtt)
            &&& second.retrans_count + 1 >= 2
        }),
{
}

/// Bounded queue of originated (or forwarded) natives pending
/// acknowledgement; each entry is re-sent at most a configured number of
/// times, with at least a round-trip time between attempts.
pub struct RetransQueue {
    queue: Vec<RetransEntry>,
    max_count: usize,
    retrans_duration: u64,
    max_retrans_amount: u8,
}

impl View for RetransQueue {
    type V = Seq<RetransEntryV>;

    closed spec fn view(&self) -> Seq<RetransEntryV> {
        Seq::new(self.queue@.len(), |i: int| self.queue@[i]@)
    }
}

impl RetransQueue {
    /// No queued native is ever granted more attempts than the
    /// configured maximum: the attempt that reaches it removes the entry.
    pub proof fn lemma_attempts_bounded(&self)
        requires
            self.wf(),
        ensures
            forall|i: int|
                0 <= i < self@.len() ==> #[trigger] self@[i].retrans_count
                    <= self.spec_max_retrans(),
    {
    }

    /// The capacity this queue was created with.
    pub closed spec fn spec_max_count(&self) -> int {
        self.max_count as int
    }

    /// The minimum time between attempts, in milliseconds.
    pub closed spec fn spec_retrans_duration(&self) -> u64 {
        self.retrans_duration
    }

    /// How many retransmissions an entry is granted before it is dropped.
    pub closed spec fn spec_max_retrans(&self) -> u8 {
        self.max_retrans_amount
    }

    /// The queue never exceeds its capacity; every entry's attempt count
    /// stays within the configured maximum; payloads are non-empty.
    pub open spec fn wf(&self) -> bool {
        &&& self@.len() <= self.spec_max_count()
        &&& forall|i: int| 0 <= i < self@.len()
            ==> #[trigger] self@[i].retrans_count <= self.spec_max_retrans()
        &&& forall|i: int| 0 <= i < self@.len() ==> #[trigger] self@[i].data.len() > 0
    }

    /// Whether some queued entry has the identity `info`.
    pub open spec fn spec_contains(&self, info: CodingInfo) -> bool {
        exists|i: int| 0 <= i < self@.len() && self@[i].info == info
    }

    /// Whether the configuration stays as it was created.
    pub open spec fn same_config(&self, other: &Self) -> bool {
        &&& self.spec_max_count() == other.spec_max_count()
        &&& self.spec_retrans_duration() == other.spec_retrans_duration()
        &&& self.spec_max_retrans() == other.spec_max_retrans()
    }

    pub fn new(max_count: usize, retrans_duration: u64, max_retrans_amount: u8) -> (r: Self)
        ensures
            r.wf(),
            r@ == Seq::<RetransEntryV>::empty(),
            r.spec_max_count() == max_count,
            r.spec_retrans_duration() == retrans_duration,
            r.spec_max_retrans() == max_retrans_amount,
    {
        let r = Self { queue: Vec::new(), max_count, retrans_duration, max_retrans_amount };
        proof {
            assert(r@ =~= Seq::<RetransEntryV>::empty());
        }
        r
    }

    /// A full queue signals back-pressure: no new native may be
    /// originated before an entry leaves.
    pub fn is_full(&self) -> (r: bool)
        ensures
            r == (self@.len() >= self.spec_max_count()),
    {
        self.queue.len() >= self.max_count
    }

    /// Whether an entry with the identity `info` is queued.
    pub fn conatains(&self, info: &CodingInfo) -> (r: bool)
        ensures
            r == self.spec_contains(*info),
    {
        let mut i: usize = 0;
        while i < self.queue.len()
            invariant
                i <= self.queue@.len(),
                self@.len() == self.queue@.len(),
                forall|j: int| 0 <= j < i ==> self@[j].info != info,
            decreases self.queue@.len() - i,
        {
            proof {
                assert(self@[i as int] == self.queue@[i as int]@);
            }
            if self.queue[i].info == *info {
                proof {
                    assert(self@[i as int].info == *info);
                }
                return true;
            }
            i = i + 1;
        }
        false
    }

    pub fn len(&self) -> (r: usize)
        ensures
            r == self@.len(),
    {
        self.queue.len()
    }

    /// Picks the oldest entry due at `now`, bumps its attempt count and
    /// its last-transmission time, and returns its native. The attempt
    /// that brings the count to the configured maximum is the final one:
    /// the entry is returned and removed, and is never re-sent again.
    #[verifier::rlimit(60)]
    #[verifier::spinoff_prover]
    pub fn packet_to_retrans(&mut self, now: u64) -> (r: Option<(CodingInfo, PacketData)>)
        requires
            old(self).wf(),
        ensures
            final(self).wf(),
            final(self).same_config(old(self)),
            match r {
                None => final(self)@ == old(self)@ && (forall|i: int|
                    0 <= i < old(self)@.len() ==> !due(
                        old(self)@[i],
                        now,
                        old(self).spec_retrans_duration(),
                    )),
                Some(native) => exists|i: int|
                    {
                        &&& 0 <= i < old(self)@.len()
                        &&& due(old(self)@[i], now, old(self).spec_retrans_duration())
                        &&& forall|j: int| 0 <= j < i ==> !due(
                            old(self)@[j],
                            now,
                            old(self).spec_retrans_duration(),
                        )
                        &&& native.0 == old(self)@[i].info
                        &&& native.1@ == old(self)@[i].data
                        &&& if old(self)@[i].retrans_count + 1 >= old(self).spec_max_retrans() {
                            final(self)@ == old(self)@.remove(i)
                        } else {
                            final(self)@ == old(self)@.update(
                                i,
                                RetransEntryV {
                                    retrans_count: (old(self)@[i].retrans_count + 1) as u8,
                                    last_trans: now,
                                    ..old(self)@[i]
                                },
                            )
                        }
                    },
            },
    {
        let mut i: usize = 0;
        while i < self.queue.len()
            invariant
                i <= self.queue@.len(),
                self@ == old(self)@,
                self.wf(),
                self.same_config(old(self)),
                forall|j: int| 0 <= j < i ==> !due(
                    old(self)@[j],
                    now,
                    old(self).spec_retrans_duration(),
                ),
            decreases self.queue@.len() - i,
        {
            proof {
                assert(self@[i as int] == self.queue@[i as int]@);
            }
            let last = self.queue[i].last_trans;
            if now >= last && now - last >= self.retrans_duration {
                let entry_count = self.queue[i].retrans_count;
                if (entry_count as u16) + 1 >= (self.max_retrans_amount as u16) {
                    let entry = self.queue.remove(i);
                    proof {
                        assert(final(self)@ =~= old(self)@.remove(i as int));
                        assert(due(old(self)@[i as int], now, old(self).spec_retrans_duration()));
                        assert(old(self)@[i as int].retrans_count + 1 >= old(
                            self,
                        ).spec_max_retrans());
                        assert(entry@ == old(self)@[i as int]);
                        assert(forall|j: int| 0 <= j < i ==> !due(
                            old(self)@[j],
                            now,
                            old(self).spec_retrans_duration(),
                        ));
                    }
                    return Some((entry.info, entry.data));
                }
                let info = self.queue[i].info;
                let data = self.queue[i].data.clone();
                let stored = data.clone();
                self.queue[i] = RetransEntry {
                    data: stored,
                    info,
                    retrans_count: entry_count + 1,
                    last_trans: now,
                };
                proof {
                    assert(due(old(self)@[i as int], now, old(self).spec_retrans_duration()));
                    assert(old(self)@[i as int].retrans_count + 1 < old(self).spec_max_retrans());
                    assert(self.queue@[i as int]@ =~= RetransEntryV {
                        retrans_count: (old(self)@[i as int].retrans_count + 1) as u8,
                        last_trans: now,
                        ..old(self)@[i as int]
                    });
                    assert(final(self)@ =~= old(self)@.update(
                        i as int,
                        RetransEntryV {
                            retrans_count: (old(self)@[i as int].retrans_count + 1) as u8,
                            last_trans: now,
                            ..old(self)@[i as int]
                        },
                    ));
                    assert(info == old(self)@[i as int].info);
                    assert(data@ == old(self)@[i as int].data);
                    assert(forall|j: int| 0 <= j < i ==> !due(
                        old(self)@[j],
                        now,
                        old(self).spec_retrans_duration(),
                    ));
                }
                return Some((info, data));
            }
            i = i + 1;
        }
        None
    }

    /// Queues a freshly originated native with zero attempts, stamped
    /// with the current time. The queue must not be full and the payload
    /// must be a native's, hence non-empty.
    pub fn push_new(&mut self, packet: (CodingInfo, PacketData), now: u64)
        requires
            old(self).wf(),
            old(self)@.len() < old(self).spec_max_count(),
            packet.1@.len() > 0,
        ensures
            final(self).wf(),
            final(self).same_config(old(self)),
            final(self)@ == old(self)@.push(
                RetransEntryV {
                    data: packet.1@,
                    info: packet.0,
                    retrans_count: 0,
                    last_trans: now,
                },
            ),
    {
        let entry = RetransEntry {
            data: packet.1,
            info: packet.0,
            retrans_count: 0,
            last_trans: now,
        };
        self.queue.push(entry);
        proof {
            assert(final(self)@ =~= old(self)@.push(
                RetransEntryV {
                    data: packet.1@,
                    info: packet.0,
                    retrans_count: 0,
                    last_trans: now,
                },
            ));
        }
    }

    /// Removes the first queued entry acknowledged by `info`, if any.
    pub fn remove_packet(&mut self, info: &CodingInfo)
        requires
            old(self).wf(),
        ensures
            final(self).wf(),
            final(self).same_config(old(self)),
            final(self)@ == remove_first_info(old(self)@, *info),
    {
        let mut i: usize = 0;
        while i < self.queue.len()
            invariant
                i <= self.queue@.len(),
                self@ == old(self)@,
                self.wf(),
                self.same_config(old(self)),
                forall|j: int| 0 <= j < i ==> self@[j].info != info,
            decreases self.queue@.len() - i,
        {
            proof {
                assert(self@[i as int] == self.queue@[i as int]@);
            }
            if self.queue[i].info == *info {
                self.queue.remove(i);
                proof {
                    lemma_remove_first_info_at(old(self)@, *info, i as int);
                    assert(final(self)@ =~= old(self)@.remove(i as int));
                }
                return;
            }
            i = i + 1;
        }
        proof {
            lemma_remove_first_info_absent(old(self)@, *info);
        }
    }
}

} // verus!
