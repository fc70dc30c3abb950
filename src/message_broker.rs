use vstd::prelude::*;
use crate::messages::{StorageCapReport, SyncMessage};
use crate::sim_network::SplitStorage;
use crate::vehicle::Vehicle;

verus! {

/// Some message of `s` goes to partition `p`.
pub open spec fn has_msg(s: Seq<SyncMessage>, p: u32) -> bool {
    exists|i: int| 0 <= i < s.len() && (#[trigger] s[i]).to_process == p
}

/// No two messages of `s` go to the same partition.
pub open spec fn distinct_targets(s: Seq<SyncMessage>) -> bool {
    forall|i: int, j: int| 0 <= i < j < s.len() ==> (#[trigger] s[i]).to_process != (#[trigger] s[j]).to_process
}

/// An empty message for tick `time` from `from` to `to`.
pub open spec fn is_empty_msg(m: SyncMessage, time: u32, from: u32, to: u32) -> bool {
    &&& m.time == time
    &&& m.from_process == from
    &&& m.to_process == to
    &&& m.vehicles@.len() == 0
    &&& m.storage_capacities@.len() == 0
}

/// Every message of `o` is still in `f`, to the same partition, with at least its
/// vehicles.
pub open spec fn out_grows(o: Seq<SyncMessage>, f: Seq<SyncMessage>) -> bool {
    &&& f.len() >= o.len()
    &&& forall|i: int|
        0 <= i < o.len() ==> (#[trigger] f[i]).to_process == o[i].to_process && forall|v: Vehicle|
            o[i].vehicles@.contains(v) ==> f[i].vehicles@.contains(v)
}

/// `new` is `old` with `vehicle` added to its vehicles.
pub open spec fn with_vehicle(old: SyncMessage, new: SyncMessage, vehicle: Vehicle) -> bool {
    &&& new.time == old.time
    &&& new.from_process == old.from_process
    &&& new.to_process == old.to_process
    &&& new.vehicles@ == old.vehicles@.push(vehicle)
    &&& new.storage_capacities@ == old.storage_capacities@
}

/// `new` is `old` with `cap` added to its storage reports.
pub open spec fn with_cap(old: SyncMessage, new: SyncMessage, cap: StorageCapReport) -> bool {
    &&& new.time == old.time
    &&& new.from_process == old.from_process
    &&& new.to_process == old.to_process
    &&& new.vehicles@ == old.vehicles@
    &&& new.storage_capacities@ == old.storage_capacities@.push(cap)
}

/// Some message of `s` for a tick no later than `now` comes from partition `p`.
pub open spec fn sent_by(s: Seq<SyncMessage>, p: u32, now: u32) -> bool {
    exists|i: int| 0 <= i < s.len() && (#[trigger] s[i]).from_process == p && s[i].time <= now
}

/// Collects what this partition sends to the others each tick, and sorts what it
/// receives into what applies now and what waits for a later tick.
///
/// A tick goes: `add_veh` and `add_cap` for what leaves the partition;
/// `prepare_send_recv_vehicles`, whose messages go out; `handle_incoming_msg` for each
/// message that comes in, while `is_waiting`; and `take_received`, the messages to
/// apply.
pub struct NetMessageBroker {
    rank: u32,
    link_mapping: Vec<u32>,
    neighbors: Vec<u32>,
    out_messages: Vec<SyncMessage>,
    in_messages: Vec<SyncMessage>,
    expected: Vec<u32>,
    received: Vec<SyncMessage>,
}

impl NetMessageBroker {
    pub closed spec fn rank_spec(&self) -> u32 {
        self.rank
    }

    /// The partition of each link, by link id.
    pub closed spec fn mapping_spec(&self) -> Seq<u32> {
        self.link_mapping@
    }

    pub closed spec fn neighbors_spec(&self) -> Seq<u32> {
        self.neighbors@
    }

    /// The messages being put together for this tick.
    pub closed spec fn out_spec(&self) -> Seq<SyncMessage> {
        self.out_messages@
    }

    /// Messages received for later ticks.
    pub closed spec fn cache_spec(&self) -> Seq<SyncMessage> {
        self.in_messages@
    }

    /// The neighbors whose message for this tick has not come yet.
    pub closed spec fn expected_spec(&self) -> Seq<u32> {
        self.expected@
    }

    /// The messages to apply this tick, received so far.
    pub closed spec fn received_spec(&self) -> Seq<SyncMessage> {
        self.received@
    }

    pub open spec fn wf(&self) -> bool {
        &&& self.neighbors_spec().no_duplicates()
        &&& distinct_targets(self.out_spec())
        &&& self.expected_spec().no_duplicates()
        &&& forall|p: u32| self.expected_spec().contains(p) ==> self.neighbors_spec().contains(p)
        &&& by_tick(self.cache_spec())
    }

    /// A broker for partition `rank`, whose links lie in the partitions that
    /// `link_mapping` gives by link id, and which hears from `neighbors` every tick.
    pub fn new(rank: u32, link_mapping: Vec<u32>, neighbors: Vec<u32>) -> (r: Self)
        requires
            neighbors@.no_duplicates(),
        ensures
            r.wf(),
            r.rank_spec() == rank,
            r.mapping_spec() == link_mapping@,
            r.neighbors_spec() == neighbors@,
            r.out_spec().len() == 0,
            r.cache_spec().len() == 0,
            r.expected_spec().len() == 0,
            r.received_spec().len() == 0,
    {
        NetMessageBroker {
            rank,
            link_mapping,
            neighbors,
            out_messages: Vec::new(),
            in_messages: Vec::new(),
            expected: Vec::new(),
            received: Vec::new(),
        }
    }

    pub fn rank(&self) -> (r: u32)
        ensures
            r == self.rank_spec(),
    {
        self.rank
    }

    /// The partition that holds link `link_id`.
    pub fn rank_for_link(&self, link_id: u64) -> (r: u32)
        requires
            link_id < self.mapping_spec().len(),
        ensures
            r == self.mapping_spec()[link_id as int],
    {
        let len = self.link_mapping.len();
        assert(link_id < len);
        self.link_mapping[link_id as usize]
    }

    /// Whether link `link_id` is known to the broker.
    pub fn knows_link(&self, link_id: u64) -> (r: bool)
        ensures
            r == (link_id < self.mapping_spec().len()),
    {
        link_id < self.link_mapping.len() as u64
    }

    /// The index of the message to partition `p`, if there is one.
    fn msg_index(&self, p: u32) -> (r: Option<usize>)
        requires
            distinct_targets(self.out_spec()),
        ensures
            r is None <==> !has_msg(self.out_spec(), p),
            r matches Some(i) ==> i < self.out_spec().len() && self.out_spec()[i as int].to_process == p,
    {
        let mut i: usize = 0;
        while i < self.out_messages.len()
            invariant
                i <= self.out_messages@.len(),
                forall|j: int| 0 <= j < i ==> (#[trigger] self.out_messages@[j]).to_process != p,
            decreases self.out_messages@.len() - i,
        {
            if self.out_messages[i].to_process == p {
                return Some(i);
            }
            i = i + 1;
        }
        None
    }

    /// Adds `vehicle` to the message for the partition that holds the link it is on,
    /// opening that message for tick `now` if there is none yet.
    pub fn add_veh(&mut self, vehicle: Vehicle, now: u32)
        requires
            old(self).wf(),
            vehicle.wf(),
            vehicle.curr_link_spec() < old(self).mapping_spec().len(),
        ensures
            final(self).wf(),
            final(self).rank_spec() == old(self).rank_spec(),
            final(self).mapping_spec() == old(self).mapping_spec(),
            final(self).neighbors_spec() == old(self).neighbors_spec(),
            final(self).cache_spec() == old(self).cache_spec(),
            final(self).expected_spec() == old(self).expected_spec(),
            final(self).received_spec() == old(self).received_spec(),
            ({
                let p = old(self).mapping_spec()[vehicle.curr_link_spec() as int];
                let o = old(self).out_spec();
                let f = final(self).out_spec();
                if has_msg(o, p) {
                    &&& f.len() == o.len()
                    &&& forall|i: int|
                        0 <= i < o.len() ==> if o[i].to_process == p {
                            with_vehicle(o[i], #[trigger] f[i], vehicle)
                        } else {
                            f[i] == o[i]
                        }
                } else {
                    &&& f.len() == o.len() + 1
                    &&& f.take(o.len() as int) == o
                    &&& f.last().time == now
                    &&& f.last().from_process == old(self).rank_spec()
                    &&& f.last().to_process == p
                    &&& f.last().vehicles@ == seq![vehicle]
                    &&& f.last().storage_capacities@.len() == 0
                }
            }),
            out_grows(old(self).out_spec(), final(self).out_spec()),
            exists|i: int, j: int|
                0 <= i < final(self).out_spec().len() && final(self).out_spec()[i].to_process == old(self).mapping_spec()[
                    vehicle.curr_link_spec() as int] && 0 <= j < final(self).out_spec()[i].vehicles@.len()
                    && #[trigger] final(self).out_spec()[i].vehicles@[j] == vehicle,
    {
        let link_id = vehicle.curr_link_id();
        let p = self.rank_for_link(link_id);
        let ghost o = self.out_messages@;
        match self.msg_index(p) {
            Some(i) => {
                let mut m = SyncMessage::new(0, 0, 0);
                std::mem::swap(&mut self.out_messages[i], &mut m);
                let ghost vv = vehicle;
                m.add_veh(vehicle);
                self.out_messages.set(i, m);
                proof {
                    let f = self.out_messages@;
                    assert(f[i as int].vehicles@[f[i as int].vehicles@.len() - 1] == vv);
                    assert forall|a: int| 0 <= a < o.len() implies (#[trigger] f[a]).to_process == o[a].to_process && forall|v: Vehicle|
                        o[a].vehicles@.contains(v) ==> f[a].vehicles@.contains(v) by {
                        if a == i {
                            assert forall|v: Vehicle| o[a].vehicles@.contains(v) implies f[a].vehicles@.contains(v) by {
                                let k = choose|k: int| 0 <= k < o[a].vehicles@.len() && o[a].vehicles@[k] == v;
                                assert(f[a].vehicles@[k] == v);
                            }
                        } else {
                            assert(f[a] == o[a]);
                        }
                    }
                }
                assert forall|a: int, b: int| 0 <= a < b < self.out_messages@.len() implies
                    (#[trigger] self.out_messages@[a]).to_process != (#[trigger] self.out_messages@[b]).to_process by {
                    assert(o[a].to_process != o[b].to_process);
                }
            },
            None => {
                let mut m = SyncMessage::new(now, self.rank, p);
                let ghost vv = vehicle;
                m.add_veh(vehicle);
                assert(m.vehicles@ =~= seq![vv]);
                self.out_messages.push(m);
                assert(self.out_messages@.take(o.len() as int) =~= o);
                proof {
                    let f = self.out_messages@;
                    assert(f[o.len() as int].vehicles@[0] == vv);
                    assert forall|a: int| 0 <= a < o.len() implies (#[trigger] f[a]).to_process == o[a].to_process && forall|v: Vehicle|
                        o[a].vehicles@.contains(v) ==> f[a].vehicles@.contains(v) by {
                        assert(f[a] == o[a]);
                    }
                }
                assert forall|a: int, b: int| 0 <= a < b < self.out_messages@.len() implies
                    (#[trigger] self.out_messages@[a]).to_process != (#[trigger] self.out_messages@[b]).to_process by {
                    if b < o.len() {
                        assert(o[a].to_process != o[b].to_process);
                    } else {
                        assert(o[a].to_process != p);
                    }
                }
            },
        }
    }

    /// Adds the occupancy report `cap` to the message for the partition upstream of
    /// its link, opening that message for tick `now` if there is none yet.
    pub fn add_cap(&mut self, cap: SplitStorage, now: u32)
        requires
            old(self).wf(),
        ensures
            final(self).wf(),
            final(self).rank_spec() == old(self).rank_spec(),
            final(self).mapping_spec() == old(self).mapping_spec(),
            final(self).neighbors_spec() == old(self).neighbors_spec(),
            final(self).cache_spec() == old(self).cache_spec(),
            final(self).expected_spec() == old(self).expected_spec(),
            final(self).received_spec() == old(self).received_spec(),
            ({
                let p = cap.from_part;
                let c = StorageCapReport { link_id: cap.link_id, value: cap.used };
                let o = old(self).out_spec();
                let f = final(self).out_spec();
                if has_msg(o, p) {
                    &&& f.len() == o.len()
                    &&& forall|i: int|
                        0 <= i < o.len() ==> if o[i].to_process == p {
                            with_cap(o[i], #[trigger] f[i], c)
                        } else {
                            f[i] == o[i]
                        }
                } else {
                    &&& f.len() == o.len() + 1
                    &&& f.take(o.len() as int) == o
                    &&& f.last().time == now
                    &&& f.last().from_process == old(self).rank_spec()
                    &&& f.last().to_process == p
                    &&& f.last().vehicles@.len() == 0
                    &&& f.last().storage_capacities@ == seq![c]
                }
            }),
            out_grows(old(self).out_spec(), final(self).out_spec()),
    {
        let p = cap.from_part;
        let c = StorageCapReport { link_id: cap.link_id, value: cap.used };
        let ghost o = self.out_messages@;
        match self.msg_index(p) {
            Some(i) => {
                let mut m = SyncMessage::new(0, 0, 0);
                std::mem::swap(&mut self.out_messages[i], &mut m);
                m.add_storage_cap(c);
                self.out_messages.set(i, m);
                assert forall|a: int, b: int| 0 <= a < b < self.out_messages@.len() implies
                    (#[trigger] self.out_messages@[a]).to_process != (#[trigger] self.out_messages@[b]).to_process by {
                    assert(o[a].to_process != o[b].to_process);
                }
            },
            None => {
                let mut m = SyncMessage::new(now, self.rank, p);
                m.add_storage_cap(c);
                assert(m.storage_capacities@ =~= seq![c]);
                self.out_messages.push(m);
                assert(self.out_messages@.take(o.len() as int) =~= o);
                assert forall|a: int, b: int| 0 <= a < b < self.out_messages@.len() implies
                    (#[trigger] self.out_messages@[a]).to_process != (#[trigger] self.out_messages@[b]).to_process by {
                    if b < o.len() {
                        assert(o[a].to_process != o[b].to_process);
                    } else {
                        assert(o[a].to_process != p);
                    }
                }
            },
        }
    }

    /// Hands out this tick's messages: those put together, and an empty one for tick
    /// `now` to each neighbor that none goes to, so that every neighbor hears from
    /// this partition. Then waits again for every neighbor, and takes out of the
    /// cache the messages received earlier for a tick no later than `now`.
    pub fn prepare_send_recv_vehicles(&mut self, now: u32) -> (r: Vec<SyncMessage>)
        requires
            old(self).wf(),
        ensures
            final(self).wf(),
            final(self).rank_spec() == old(self).rank_spec(),
            final(self).mapping_spec() == old(self).mapping_spec(),
            final(self).neighbors_spec() == old(self).neighbors_spec(),
            final(self).out_spec().len() == 0,
            distinct_targets(r@),
            r@.take(old(self).out_spec().len() as int) == old(self).out_spec(),
            forall|p: u32| old(self).neighbors_spec().contains(p) ==> has_msg(r@, p),
            forall|j: int|
                old(self).out_spec().len() <= j < r@.len() ==> is_empty_msg(
                    #[trigger] r@[j],
                    now,
                    old(self).rank_spec(),
                    r@[j].to_process,
                ) && old(self).neighbors_spec().contains(r@[j].to_process),
            final(self).received_spec() == due(old(self).cache_spec(), now),
            final(self).cache_spec() == later(old(self).cache_spec(), now),
            by_tick(final(self).received_spec()),
            forall|p: u32|
                final(self).expected_spec().contains(p) <==> old(self).neighbors_spec().contains(p) && !sent_by(
                    old(self).cache_spec(),
                    p,
                    now,
                ),
    {
        let mut messages: Vec<SyncMessage> = Vec::new();
        std::mem::swap(&mut self.out_messages, &mut messages);
        let ghost o = messages@;
        let mut k: usize = 0;
        while k < self.neighbors.len()
            invariant
                self.wf(),
                self.rank == old(self).rank,
                self.neighbors@ == old(self).neighbors@,
                o == old(self).out_spec(),
                k <= self.neighbors@.len(),
                distinct_targets(messages@),
                messages@.len() >= o.len(),
                messages@.take(o.len() as int) == o,
                forall|q: int| 0 <= q < k ==> has_msg(messages@, #[trigger] self.neighbors@[q]),
                forall|j: int|
                    o.len() <= j < messages@.len() ==> is_empty_msg(#[trigger] messages@[j], now, self.rank, messages@[j].to_process)
                        && self.neighbors@.contains(messages@[j].to_process),
            decreases self.neighbors@.len() - k,
        {
            let n = self.neighbors[k];
            let mut found = false;
            let mut i: usize = 0;
            while i < messages.len()
                invariant
                    i <= messages@.len(),
                    found == exists|j: int| 0 <= j < i && (#[trigger] messages@[j]).to_process == n,
                decreases messages@.len() - i,
            {
                if messages[i].to_process == n {
                    found = true;
                }
                i = i + 1;
            }
            if !found {
                let ghost m0 = messages@;
                messages.push(SyncMessage::new(now, self.rank, n));
                assert(messages@.take(o.len() as int) =~= m0.take(o.len() as int));
                assert(messages@[m0.len() as int].to_process == n);
                assert forall|a: int, b: int| 0 <= a < b < messages@.len() implies
                    (#[trigger] messages@[a]).to_process != (#[trigger] messages@[b]).to_process by {
                    if b < m0.len() {
                        assert(m0[a].to_process != m0[b].to_process);
                    } else {
                        assert(m0[a].to_process != n);
                    }
                }
                assert forall|q: int| 0 <= q < k implies has_msg(messages@, #[trigger] self.neighbors@[q]) by {
                    assert(has_msg(m0, self.neighbors@[q]));
                    let j = choose|j: int| 0 <= j < m0.len() && (#[trigger] m0[j]).to_process == self.neighbors@[q];
                    assert(messages@[j] == m0[j]);
                }
                assert(self.neighbors@.contains(n)) by {
                    assert(self.neighbors@[k as int] == n);
                }
            }
            assert(has_msg(messages@, self.neighbors@[k as int]));
            k = k + 1;
        }
        assert forall|p: u32| old(self).neighbors_spec().contains(p) implies has_msg(messages@, p) by {
            let q = choose|q: int| 0 <= q < self.neighbors@.len() && self.neighbors@[q] == p;
            assert(has_msg(messages@, self.neighbors@[q]));
        }
        let mut expected: Vec<u32> = Vec::new();
        let mut j: usize = 0;
        while j < self.neighbors.len()
            invariant
                j <= self.neighbors@.len(),
                self.neighbors@.no_duplicates(),
                expected@ == self.neighbors@.take(j as int),
            decreases self.neighbors@.len() - j,
        {
            expected.push(self.neighbors[j]);
            j = j + 1;
            assert(expected@ =~= self.neighbors@.take(j as int));
        }
        assert(expected@ =~= self.neighbors@);
        self.expected = expected;
        self.received = Vec::new();
        let ghost c0 = self.in_messages@;
        self.pop_from_cache(now);
        proof {
            lemma_due_prefix(c0, now);
            let k = choose|k: int| 0 <= k <= c0.len() && due(c0, now) == c0.take(k) && later(c0, now) == c0.skip(k);
            assert(self.received@ =~= c0.take(k));
            assert forall|i: int, j: int| 0 <= i < j < self.received@.len() implies (#[trigger] self.received@[i]).time
                <= (#[trigger] self.received@[j]).time by {
                assert(self.received@[i] == c0[i] && self.received@[j] == c0[j]);
            }
        }
        messages
    }

    /// Moves the cached messages for a tick no later than `now` to the received
    /// ones, and stops waiting for their senders.
    fn pop_from_cache(&mut self, now: u32)
        requires
            old(self).wf(),
        ensures
            final(self).wf(),
            final(self).rank_spec() == old(self).rank_spec(),
            final(self).mapping_spec() == old(self).mapping_spec(),
            final(self).neighbors_spec() == old(self).neighbors_spec(),
            final(self).out_spec() == old(self).out_spec(),
            final(self).received_spec() == old(self).received_spec() + due(old(self).cache_spec(), now),
            final(self).cache_spec() == later(old(self).cache_spec(), now),
            forall|p: u32|
                final(self).expected_spec().contains(p) <==> old(self).expected_spec().contains(p) && !sent_by(
                    old(self).cache_spec(),
                    p,
                    now,
                ),
    {
        let mut cache: Vec<SyncMessage> = Vec::new();
        std::mem::swap(&mut self.in_messages, &mut cache);
        let ghost c0 = cache@;
        let ghost r0 = self.received@;
        let ghost e0 = self.expected@;
        while cache.len() > 0
            invariant
                self.neighbors@.no_duplicates(),
                distinct_targets(self.out_messages@),
                self.expected@.no_duplicates(),
                forall|p: u32| self.expected@.contains(p) ==> self.neighbors@.contains(p),
                by_tick(c0),
                self.rank == old(self).rank,
                self.link_mapping@ == old(self).link_mapping@,
                self.neighbors@ == old(self).neighbors@,
                self.out_messages@ == old(self).out_messages@,
                c0 == old(self).in_messages@,
                r0 == old(self).received@,
                e0 == old(self).expected@,
                cache@.len() <= c0.len(),
                cache@ == c0.skip(c0.len() - cache@.len()),
                self.received@ == r0 + due(c0.take(c0.len() - cache@.len()), now),
                self.in_messages@ == later(c0.take(c0.len() - cache@.len()), now),
                forall|p: u32|
                    self.expected@.contains(p) <==> e0.contains(p) && !sent_by(c0.take(c0.len() - cache@.len()), p, now),
            decreases cache@.len(),
        {
            let ghost done = c0.take(c0.len() - cache@.len());
            let ghost exp0 = self.expected@;
            assert forall|p: u32| exp0.contains(p) <==> e0.contains(p) && !sent_by(done, p, now) by {}
            let m = cache.remove(0);
            let ghost done2 = c0.take(c0.len() - cache@.len());
            assert(cache@ =~= c0.skip(c0.len() - cache@.len()));
            assert(done2 =~= done.push(m));
            assert(done2.drop_last() =~= done);
            if m.time <= now {
                remove_value(&mut self.expected, m.from_process);
                self.received.push(m);
                assert(self.received@ =~= r0 + due(done2, now));
            } else {
                self.in_messages.push(m);
            }
            proof {
                lemma_sent_by_push(done, m, now);
                assert forall|p: u32|
                    self.expected@.contains(p) <==> e0.contains(p) && !sent_by(done2, p, now) by {
                    assert(sent_by(done2, p, now) <==> sent_by(done, p, now) || (m.from_process == p && m.time <= now));
                    assert(exp0.contains(p) <==> e0.contains(p) && !sent_by(done, p, now));
                    if m.time <= now {
                        assert(self.expected@.contains(p) <==> exp0.contains(p) && p != m.from_process);
                    } else {
                        assert(self.expected@ == exp0);
                    }
                }
            }
        }
        assert(c0.take(c0.len() as int) =~= c0);
        proof {
            lemma_due_prefix(c0, now);
            let k = choose|k: int| 0 <= k <= c0.len() && due(c0, now) == c0.take(k) && later(c0, now) == c0.skip(k);
            assert(self.in_messages@ == c0.skip(k));
            assert forall|i: int, j: int| 0 <= i < j < self.in_messages@.len() implies (#[trigger] self.in_messages@[i]).time
                <= (#[trigger] self.in_messages@[j]).time by {
                assert(self.in_messages@[i] == c0[i + k] && self.in_messages@[j] == c0[j + k]);
            }
        }
    }

    /// Files a message that came in: it applies this tick if its tick is no later
    /// than `now`, and waits in the cache otherwise. A message for tick `now` ends the
    /// wait for its sender.
    pub fn handle_incoming_msg(&mut self, msg: SyncMessage, now: u32)
        requires
            old(self).wf(),
        ensures
            final(self).wf(),
            final(self).rank_spec() == old(self).rank_spec(),
            final(self).mapping_spec() == old(self).mapping_spec(),
            final(self).neighbors_spec() == old(self).neighbors_spec(),
            final(self).out_spec() == old(self).out_spec(),
            msg.time <= now ==> final(self).received_spec() == old(self).received_spec().push(msg)
                && final(self).cache_spec() == old(self).cache_spec(),
            msg.time > now ==> final(self).received_spec() == old(self).received_spec() && exists|k: int|
                0 <= k <= old(self).cache_spec().len() && final(self).cache_spec() == #[trigger] old(self).cache_spec().insert(
                    k,
                    msg,
                ),
            forall|p: u32|
                final(self).expected_spec().contains(p) <==> old(self).expected_spec().contains(p) && !(msg.time
                    == now && msg.from_process == p),
    {
        if msg.time <= now {
            if msg.time == now {
                remove_value(&mut self.expected, msg.from_process);
            }
            self.received.push(msg);
        } else {
            let ghost c0 = self.in_messages@;
            let mut k: usize = 0;
            while k < self.in_messages.len() && self.in_messages[k].time <= msg.time
                invariant
                    self.in_messages@ == c0,
                    k <= c0.len(),
                    forall|i: int| 0 <= i < k ==> (#[trigger] c0[i]).time <= msg.time,
                decreases c0.len() - k,
            {
                k = k + 1;
            }
            self.in_messages.insert(k, msg);
            proof {
                let c1 = self.in_messages@;
                assert(c1 == c0.insert(k as int, msg));
                assert forall|i: int, j: int| 0 <= i < j < c1.len() implies (#[trigger] c1[i]).time <= (#[trigger] c1[j]).time by {
                    if j < k {
                        assert(c1[i] == c0[i] && c1[j] == c0[j]);
                    } else if j == k {
                        assert(c1[i] == c0[i]);
                    } else if i < k {
                        assert(c1[i] == c0[i] && c1[j] == c0[j - 1]);
                    } else if i == k {
                        assert(c1[j] == c0[j - 1]);
                        assert(c0[k as int].time > msg.time);
                        if j - 1 > k {
                            assert(c0[k as int].time <= c0[j - 1].time);
                        }
                    } else {
                        assert(c1[i] == c0[i - 1] && c1[j] == c0[j - 1]);
                    }
                }
            }
        }
    }

    /// Whether some neighbor's message for this tick has not come yet.
    pub fn is_waiting(&self) -> (r: bool)
        ensures
            r == exists|p: u32| self.expected_spec().contains(p),
    {
        if self.expected.len() > 0 {
            assert(self.expected_spec().contains(self.expected@[0]));
            true
        } else {
            assert forall|p: u32| !self.expected_spec().contains(p) by {
                if self.expected@.contains(p) {
                    let j = choose|j: int| 0 <= j < self.expected@.len() && self.expected@[j] == p;
                }
            }
            false
        }
    }

    /// The neighbors whose message for this tick has not come yet.
    pub fn expected(&self) -> (r: Vec<u32>)
        ensures
            r@ == self.expected_spec(),
    {
        let mut r: Vec<u32> = Vec::new();
        let mut i: usize = 0;
        while i < self.expected.len()
            invariant
                i <= self.expected@.len(),
                r@ == self.expected@.take(i as int),
            decreases self.expected@.len() - i,
        {
            r.push(self.expected[i]);
            i = i + 1;
            assert(r@ =~= self.expected@.take(i as int));
        }
        assert(r@ =~= self.expected@);
        r
    }

    /// Hands out the messages to apply this tick.
    pub fn take_received(&mut self) -> (r: Vec<SyncMessage>)
        requires
            old(self).wf(),
        ensures
            final(self).wf(),
            r@ == old(self).received_spec(),
            final(self).received_spec().len() == 0,
            final(self).rank_spec() == old(self).rank_spec(),
            final(self).mapping_spec() == old(self).mapping_spec(),
            final(self).neighbors_spec() == old(self).neighbors_spec(),
            final(self).out_spec() == old(self).out_spec(),
            final(self).cache_spec() == old(self).cache_spec(),
            final(self).expected_spec() == old(self).expected_spec(),
    {
        let mut r: Vec<SyncMessage> = Vec::new();
        std::mem::swap(&mut self.received, &mut r);
        r
    }
}

/// `b1` is what [`NetMessageBroker::handle_incoming_msg`] makes of `b0`'s wait when
/// `msg` comes in at tick `now`.
pub open spec fn handled(b0: NetMessageBroker, b1: NetMessageBroker, msg: SyncMessage, now: u32) -> bool {
    forall|p: u32|
        #[trigger] b1.expected_spec().contains(p) <==> b0.expected_spec().contains(p) && !(msg.time == now
            && msg.from_process == p)
}

/// Some message of `msgs` is for tick `now` and comes from `p`.
pub open spec fn sent_now(msgs: Seq<SyncMessage>, p: u32, now: u32) -> bool {
    exists|j: int| 0 <= j < msgs.len() && (#[trigger] msgs[j]).time == now && msgs[j].from_process == p
}

proof fn lemma_closure_exact(states: Seq<NetMessageBroker>, msgs: Seq<SyncMessage>, now: u32)
    requires
        states.len() == msgs.len() + 1,
        forall|i: int| 0 <= i < msgs.len() ==> handled(states[i], states[i + 1], #[trigger] msgs[i], now),
    ensures
        forall|p: u32|
            #[trigger] states.last().expected_spec().contains(p) <==> states[0].expected_spec().contains(p) && !sent_now(
                msgs,
                p,
                now,
            ),
    decreases msgs.len(),
{
    if msgs.len() == 0 {
        assert(states.last() == states[0]);
    } else {
        let n = msgs.len();
        let s2 = states.drop_last();
        let m2 = msgs.drop_last();
        assert forall|i: int| 0 <= i < m2.len() implies handled(s2[i], s2[i + 1], #[trigger] m2[i], now) by {
            assert(handled(states[i], states[i + 1], msgs[i], now));
        }
        lemma_closure_exact(s2, m2, now);
        assert(s2.last() == states[n - 1]);
        assert(s2[0] == states[0]);
        assert(handled(states[n - 1], states[n as int], msgs[n - 1], now));
        assert forall|p: u32|
            states.last().expected_spec().contains(p) <==> states[0].expected_spec().contains(p) && !sent_now(
                msgs,
                p,
                now,
            ) by {
            assert(states.last() == states[n as int]);
            assert(s2.last().expected_spec().contains(p) <==> s2[0].expected_spec().contains(p) && !sent_now(m2, p, now));
            assert(states[n as int].expected_spec().contains(p) <==> states[n - 1].expected_spec().contains(p) && !(
            msgs[n - 1].time == now && msgs[n - 1].from_process == p));
            if msgs[n - 1].time == now && msgs[n - 1].from_process == p {
                assert(sent_now(msgs, p, now));
            }
            if sent_now(msgs, p, now) {
                let j = choose|j: int| 0 <= j < msgs.len() && (#[trigger] msgs[j]).time == now && msgs[j].from_process == p;
                if j < n - 1 {
                    assert(m2[j] == msgs[j]);
                    assert(sent_now(m2, p, now));
                }
            }
            if sent_now(m2, p, now) {
                let j = choose|j: int| 0 <= j < m2.len() && (#[trigger] m2[j]).time == now && m2[j].from_process == p;
                assert(msgs[j] == m2[j]);
            }
        }
    }
}

/// Neighbor closure: after the messages `msgs` came in, one after the other, the
/// broker still waits for exactly those partitions it waited for that sent none of
/// them for tick `now`; so it stops waiting once each has sent one.
pub proof fn law_neighbor_closure(states: Seq<NetMessageBroker>, msgs: Seq<SyncMessage>, now: u32)
    requires
        states.len() == msgs.len() + 1,
        forall|i: int| 0 <= i < msgs.len() ==> handled(states[i], states[i + 1], #[trigger] msgs[i], now),
    ensures
        forall|p: u32|
            states.last().expected_spec().contains(p) <==> states[0].expected_spec().contains(p) && !sent_now(
                msgs,
                p,
                now,
            ),
        (forall|p: u32| states[0].expected_spec().contains(p) ==> sent_now(msgs, p, now)) ==> !(exists|p: u32|
            states.last().expected_spec().contains(p)),
{
    lemma_closure_exact(states, msgs, now);
    assert forall|p: u32|
        states.last().expected_spec().contains(p) <==> states[0].expected_spec().contains(p) && !sent_now(
            msgs,
            p,
            now,
        ) by {}
    if forall|p: u32| states[0].expected_spec().contains(p) ==> sent_now(msgs, p, now) {
        if exists|p: u32| states.last().expected_spec().contains(p) {
            let p = choose|p: u32| states.last().expected_spec().contains(p);
            assert(states[0].expected_spec().contains(p) && !sent_now(msgs, p, now));
        }
    }
}

/// The ticks of the messages of `s` do not decrease.
pub open spec fn by_tick(s: Seq<SyncMessage>) -> bool {
    forall|i: int, j: int| 0 <= i < j < s.len() ==> (#[trigger] s[i]).time <= (#[trigger] s[j]).time
}

/// In messages ordered by tick, those due at `now` come first.
proof fn lemma_due_prefix(s: Seq<SyncMessage>, now: u32)
    requires
        by_tick(s),
    ensures
        exists|k: int| 0 <= k <= s.len() && due(s, now) == s.take(k) && later(s, now) == s.skip(k),
    decreases s.len(),
{
    if s.len() == 0 {
        assert(due(s, now) == s.take(0));
        assert(later(s, now) =~= s.skip(0));
    } else {
        let d = s.drop_last();
        assert(by_tick(d)) by {
            assert forall|i: int, j: int| 0 <= i < j < d.len() implies (#[trigger] d[i]).time <= (#[trigger] d[j]).time by {
                assert(d[i] == s[i] && d[j] == s[j]);
            }
        }
        lemma_due_prefix(d, now);
        let k = choose|k: int| 0 <= k <= d.len() && due(d, now) == d.take(k) && later(d, now) == d.skip(k);
        if s.last().time <= now {
            assert forall|i: int| 0 <= i < d.len() implies d[i].time <= now by {
                assert(s[i].time <= s[s.len() - 1].time);
            }
            assert(k == d.len()) by {
                if k < d.len() {
                    assert(later(d, now)[0] == d[k]);
                    lemma_later_over(d, now);
                }
            }
            assert(due(s, now) =~= s.take(s.len() as int));
            assert(later(s, now) =~= s.skip(s.len() as int));
        } else {
            assert(due(s, now) =~= s.take(k));
            assert(later(s, now) =~= s.skip(k));
        }
    }
}

proof fn lemma_later_over(s: Seq<SyncMessage>, now: u32)
    ensures
        forall|i: int| 0 <= i < later(s, now).len() ==> (#[trigger] later(s, now)[i]).time > now,
    decreases s.len(),
{
    if s.len() > 0 {
        lemma_later_over(s.drop_last(), now);
        let l = later(s.drop_last(), now);
        if s.last().time > now {
            assert forall|i: int| 0 <= i < later(s, now).len() implies (#[trigger] later(s, now)[i]).time > now by {
                if i < l.len() {
                    assert(later(s, now)[i] == l[i]);
                }
            }
        }
    }
}

/// The messages of `s` for a tick no later than `now`, in order.
pub open spec fn due(s: Seq<SyncMessage>, now: u32) -> Seq<SyncMessage>
    decreases s.len(),
{
    if s.len() == 0 {
        Seq::empty()
    } else if s.last().time <= now {
        due(s.drop_last(), now).push(s.last())
    } else {
        due(s.drop_last(), now)
    }
}

/// The messages of `s` for a tick later than `now`, in order.
pub open spec fn later(s: Seq<SyncMessage>, now: u32) -> Seq<SyncMessage>
    decreases s.len(),
{
    if s.len() == 0 {
        Seq::empty()
    } else if s.last().time > now {
        later(s.drop_last(), now).push(s.last())
    } else {
        later(s.drop_last(), now)
    }
}

proof fn lemma_sent_by_push(s: Seq<SyncMessage>, m: SyncMessage, now: u32)
    ensures
        forall|p: u32| sent_by(s.push(m), p, now) <==> sent_by(s, p, now) || (m.from_process == p && m.time <= now),
{
    assert forall|p: u32| sent_by(s.push(m), p, now) <==> sent_by(s, p, now) || (m.from_process == p && m.time <= now) by {
        if sent_by(s.push(m), p, now) {
            let i = choose|i: int| 0 <= i < s.push(m).len() && (#[trigger] s.push(m)[i]).from_process == p && s.push(m)[i].time <= now;
            if i < s.len() {
                assert(s[i] == s.push(m)[i]);
            }
        }
        if sent_by(s, p, now) {
            let i = choose|i: int| 0 <= i < s.len() && (#[trigger] s[i]).from_process == p && s[i].time <= now;
            assert(s.push(m)[i] == s[i]);
        }
        if m.from_process == p && m.time <= now {
            assert(s.push(m)[s.len() as int] == m);
        }
    }
}

/// Removes `p` from `v`.
fn remove_value(v: &mut Vec<u32>, p: u32)
    requires
        old(v)@.no_duplicates(),
    ensures
        final(v)@.no_duplicates(),
        forall|q: u32| final(v)@.contains(q) <==> old(v)@.contains(q) && q != p,
{
    let mut out: Vec<u32> = Vec::new();
    let mut i: usize = 0;
    while i < v.len()
        invariant
            i <= v@.len(),
            v@ == old(v)@,
            v@.no_duplicates(),
            out@.no_duplicates(),
            forall|q: u32| out@.contains(q) <==> (exists|j: int| 0 <= j < i && v@[j] == q) && q != p,
        decreases v@.len() - i,
    {
        let x = v[i];
        if x != p {
            let ghost o0 = out@;
            out.push(x);
            assert forall|q: u32| out@.contains(q) <==> (exists|j: int| 0 <= j < i + 1 && v@[j] == q) && q != p by {
                if out@.contains(q) && q != x {
                    let k = choose|k: int| 0 <= k < out@.len() && out@[k] == q;
                    assert(o0[k] == q);
                    assert(o0.contains(q));
                }
                if (exists|j: int| 0 <= j < i + 1 && v@[j] == q) && q != p {
                    let j = choose|j: int| 0 <= j < i + 1 && v@[j] == q;
                    if j < i {
                        assert(o0.contains(q));
                        let k = choose|k: int| 0 <= k < o0.len() && o0[k] == q;
                        assert(out@[k] == q);
                    } else {
                        assert(out@[o0.len() as int] == q);
                    }
                }
            }
            assert(!o0.contains(x)) by {
                if o0.contains(x) {
                    let j = choose|j: int| 0 <= j < i && v@[j] == x;
                    assert(v@[j] == v@[i as int]);
                }
            }
        } else {
            assert forall|q: u32| out@.contains(q) <==> (exists|j: int| 0 <= j < i + 1 && v@[j] == q) && q != p by {
                if (exists|j: int| 0 <= j < i + 1 && v@[j] == q) && q != p {
                    let j = choose|j: int| 0 <= j < i + 1 && v@[j] == q;
                }
            }
        }
        i = i + 1;
    }
    assert forall|q: u32| out@.contains(q) <==> old(v)@.contains(q) && q != p by {
        if old(v)@.contains(q) && q != p {
            let j = choose|j: int| 0 <= j < old(v)@.len() && old(v)@[j] == q;
        }
    }
    *v = out;
}

} // verus!
