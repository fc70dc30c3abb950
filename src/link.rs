use vstd::prelude::*;
use std::collections::VecDeque;
use crate::flow_cap::{Flowcap, UNITS_PER_MILLI_PCE, MAX_FLOW_CAPACITY};
use crate::storage_cap::{StorageCap, max_storage};
use crate::network::Link;
use crate::vehicle::Vehicle;

verus! {

/// A vehicle on a link and the earliest tick at which it may leave it.
pub struct VehicleQEntry {
    pub vehicle: Vehicle,
    pub earliest_exit_time: u64,
}

/// The milli-pce of the vehicles in `q`.
pub open spec fn pce_sum(q: Seq<VehicleQEntry>) -> int
    decreases q.len(),
{
    if q.len() == 0 {
        0
    } else {
        pce_sum(q.drop_last()) + q.last().vehicle.pce
    }
}

/// The entries of `q` that may leave at `now`.
pub open spec fn ready_in(q: Seq<VehicleQEntry>, now: int) -> int
    decreases q.len(),
{
    if q.len() == 0 {
        0
    } else {
        ready_in(q.drop_last(), now) + if q.last().earliest_exit_time <= now { 1int } else { 0int }
    }
}

pub proof fn lemma_ready_in_front(q: Seq<VehicleQEntry>, now: int)
    requires
        q.len() > 0,
    ensures
        ready_in(q, now) == ready_in(q.drop_first(), now) + if q[0].earliest_exit_time <= now { 1int } else { 0int },
    decreases q.len(),
{
    if q.len() > 1 {
        lemma_ready_in_front(q.drop_last(), now);
        assert(q.drop_last().drop_first() =~= q.drop_first().drop_last());
    } else {
        assert(q.drop_last() =~= Seq::<VehicleQEntry>::empty());
        assert(q.drop_first() =~= Seq::<VehicleQEntry>::empty());
    }
}

pub proof fn lemma_ready_in_nonneg(q: Seq<VehicleQEntry>, now: int)
    ensures
        ready_in(q, now) >= 0,
    decreases q.len(),
{
    if q.len() > 0 {
        lemma_ready_in_nonneg(q.drop_last(), now);
    }
}

pub proof fn lemma_pce_sum_nonneg(q: Seq<VehicleQEntry>)
    ensures
        pce_sum(q) >= 0,
    decreases q.len(),
{
    if q.len() > 0 {
        lemma_pce_sum_nonneg(q.drop_last());
    }
}

pub proof fn lemma_pce_sum_front(q: Seq<VehicleQEntry>)
    requires
        q.len() > 0,
    ensures
        pce_sum(q) == q[0].vehicle.pce + pce_sum(q.drop_first()),
    decreases q.len(),
{
    if q.len() > 1 {
        lemma_pce_sum_front(q.drop_last());
        assert(q.drop_last().drop_first() =~= q.drop_first().drop_last());
    } else {
        assert(q.drop_last() =~= Seq::<VehicleQEntry>::empty());
        assert(q.drop_first() =~= Seq::<VehicleQEntry>::empty());
    }
}

/// Seconds that a vehicle of top speed `max_v` needs for a link of `length` whose
/// free speed is `free_speed`: at least one.
pub open spec fn link_duration(length: int, free_speed: int, max_v: int) -> int {
    let speed = if free_speed < max_v { free_speed } else { max_v };
    let d = length / speed;
    if d < 1 { 1 } else { d }
}

/// Exit-time correctness: the head of a local link is offered at `now` only if `now`
/// is at least the tick `t` it entered at plus one second, and plus its length over
/// the slower of the link's free speed and its own top speed.
pub proof fn law_exit_time(l: LocalLink, t: int, now: int)
    requires
        l.wf(),
        l.offers(now),
        l.q_spec()[0].earliest_exit_time == t + link_duration(
            l.length_spec(),
            l.free_speed_spec(),
            l.q_spec()[0].vehicle.max_v as int,
        ),
    ensures
        ({
            let v = l.q_spec()[0].vehicle.max_v as int;
            let speed = if l.free_speed_spec() < v { l.free_speed_spec() } else { v };
            &&& now >= t + 1
            &&& now >= t + l.length_spec() / speed
        }),
{
}

/// The flow capacity in milli-pce per hour of a link of `capacity_h` vehicles per
/// hour, at a sample size of `sample` parts per million.
pub open spec fn scaled_flow(capacity_h: int, sample: int) -> int {
    capacity_h * sample / 1000
}

/// A link whose both ends lie in this partition: a first-in first-out queue with
/// flow and storage regulators. Lengths are in millimetres, speeds in millimetres
/// per second.
pub struct LocalLink {
    pub id: u64,
    pub q: VecDeque<VehicleQEntry>,
    pub length: u32,
    pub free_speed: u64,
    pub storage_cap: StorageCap,
    pub flow_cap: Flowcap,
    pub from: u64,
    pub to: u64,
}

impl LocalLink {
    pub open spec fn q_spec(&self) -> Seq<VehicleQEntry> {
        self.q@
    }

    pub open spec fn length_spec(&self) -> int {
        self.length as int
    }

    pub open spec fn free_speed_spec(&self) -> int {
        self.free_speed as int
    }

    pub open spec fn storage_spec(&self) -> StorageCap {
        self.storage_cap
    }

    pub open spec fn flow_spec(&self) -> Flowcap {
        self.flow_cap
    }

    pub open spec fn wf(&self) -> bool {
        &&& self.free_speed_spec() > 0
        &&& self.flow_spec().wf()
        &&& self.storage_spec().wf()
        &&& self.storage_spec().used_spec() == self.storage_spec().released_spec() + pce_sum(self.q_spec())
        &&& forall|i: int| 0 <= i < self.q_spec().len() ==> (#[trigger] self.q_spec()[i]).vehicle.wf()
    }

    /// What does not change while vehicles come and go.
    pub open spec fn same_config(&self, other: &LocalLink) -> bool {
        &&& self.id == other.id
        &&& self.from == other.from
        &&& self.to == other.to
        &&& self.length_spec() == other.length_spec()
        &&& self.free_speed_spec() == other.free_speed_spec()
        &&& self.storage_spec().max_spec() == other.storage_spec().max_spec()
        &&& self.flow_spec().capacity_spec() == other.flow_spec().capacity_spec()
    }

    /// Whether the head of the queue may leave at `now`.
    pub open spec fn offers(&self, now: int) -> bool {
        &&& self.flow_spec().accumulated_spec() > 0
        &&& self.q_spec().len() > 0
        &&& self.q_spec()[0].earliest_exit_time <= now
    }

    /// A link of `capacity_h` vehicles per hour with `perm_lanes` thousandths of a
    /// lane, sized for a sample of `sample` parts per million of the population and
    /// cells of `effective_cell_size` millimetres.
    pub fn new(
        id: u64,
        capacity_h: u32,
        free_speed: u64,
        perm_lanes: u32,
        length: u32,
        sample: u32,
        effective_cell_size: u32,
        from: u64,
        to: u64,
    ) -> (r: Self)
        requires
            free_speed > 0,
            0 < sample <= 1_000_000,
            effective_cell_size > 0,
        ensures
            r.wf(),
            r.id == id,
            r.from == from,
            r.to == to,
            r.q_spec().len() == 0,
            r.length_spec() == length,
            r.free_speed_spec() == free_speed,
            r.flow_spec().capacity_spec() == scaled_flow(capacity_h as int, sample as int),
            r.flow_spec().accumulated_spec() == r.flow_spec().capacity_spec(),
            r.flow_spec().last_update_spec() == 0,
            r.storage_spec().max_spec() == max_storage(
                length as int,
                perm_lanes as int,
                scaled_flow(capacity_h as int, sample as int),
                sample as int,
                effective_cell_size as int,
            ),
            r.storage_spec().used_spec() == 0,
            r.storage_spec().released_spec() == 0,
    {
        assert((capacity_h as int) * (sample as int) <= 4_294_967_295int * 1_000_000int) by (nonlinear_arith)
            requires
                capacity_h <= 4_294_967_295int,
                sample <= 1_000_000int,
        {
        }
        let flow: u64 = (capacity_h as u64) * (sample as u64) / 1000;
        assert(flow <= MAX_FLOW_CAPACITY);
        let storage_cap = StorageCap::new(length, perm_lanes, flow, sample, effective_cell_size);
        let r = LocalLink {
            id,
            q: VecDeque::new(),
            length,
            free_speed,
            storage_cap,
            flow_cap: Flowcap::new(flow),
            from,
            to,
        };
        assert(pce_sum(r.q@) == 0);
        r
    }

    /// The local link for `link` of the whole network.
    pub fn from_link(link: &Link, sample: u32, effective_cell_size: u32) -> (r: Self)
        requires
            link.freespeed > 0,
            0 < sample <= 1_000_000,
            effective_cell_size > 0,
        ensures
            r.wf(),
            r.id == link.id,
            r.from == link.from,
            r.to == link.to,
            r.q_spec().len() == 0,
            r.length_spec() == link.length,
            r.free_speed_spec() == link.freespeed,
            r.flow_spec().capacity_spec() == scaled_flow(link.capacity as int, sample as int),
            r.storage_spec().max_spec() == max_storage(
                link.length as int,
                link.permlanes as int,
                scaled_flow(link.capacity as int, sample as int),
                sample as int,
                effective_cell_size as int,
            ),
            r.storage_spec().used_spec() == 0,
    {
        LocalLink::new(
            link.id,
            link.capacity,
            link.freespeed,
            link.permlanes,
            link.length,
            sample,
            effective_cell_size,
            link.from,
            link.to,
        )
    }

    /// A link of one metre, passed at one metre per second, that lets one pce a
    /// second through and holds two.
    pub fn new_with_defaults(id: u64, from: u64, to: u64) -> (r: Self)
        ensures
            r.wf(),
            r.id == id,
            r.from == from,
            r.to == to,
            r.q_spec().len() == 0,
            r.length_spec() == 1000,
            r.free_speed_spec() == 1000,
            r.flow_spec().capacity_spec() == 3_600_000,
            r.storage_spec().max_spec() == 2000,
            r.storage_spec().used_spec() == 0,
    {
        let r = LocalLink::new(id, 3600, 1000, 0, 1000, 1_000_000, 7500, from, to);
        assert(scaled_flow(3600, 1_000_000) == 3_600_000);
        assert(max_storage(1000, 0, 3_600_000, 1_000_000, 7500) == 2000);
        r
    }

    /// Appends `vehicle`, which may leave after its travel time on this link.
    pub fn push_veh(&mut self, vehicle: Vehicle, now: u32)
        requires
            old(self).wf(),
            vehicle.wf(),
            old(self).storage_spec().used_spec() + vehicle.pce <= u64::MAX,
        ensures
            final(self).wf(),
            final(self).same_config(old(self)),
            final(self).q_spec() == old(self).q_spec().push(
                VehicleQEntry {
                    vehicle,
                    earliest_exit_time: (now + link_duration(
                        old(self).length_spec(),
                        old(self).free_speed_spec(),
                        vehicle.max_v as int,
                    )) as u64,
                },
            ),
            final(self).flow_spec() == old(self).flow_spec(),
            final(self).storage_spec().used_spec() == old(self).storage_spec().used_spec() + vehicle.pce,
            final(self).storage_spec().released_spec() == old(self).storage_spec().released_spec(),
    {
        let speed: u64 = if self.free_speed < vehicle.max_v { self.free_speed } else { vehicle.max_v };
        let d: u64 = (self.length as u64) / speed;
        assert(d <= self.length) by (nonlinear_arith)
            requires
                d == (self.length as u64) / speed,
                speed > 0,
        {
        }
        let duration: u64 = if d < 1 { 1 } else { d };
        let earliest_exit_time: u64 = now as u64 + duration;
        self.storage_cap.consume(vehicle.pce as u64);
        let ghost q0 = self.q@;
        self.q.push_back(VehicleQEntry { vehicle, earliest_exit_time });
        assert(self.q@.drop_last() =~= q0);
        assert forall|i: int| 0 <= i < self.q_spec().len() implies (#[trigger] self.q_spec()[i]).vehicle.wf() by {
            if i < q0.len() {
                assert(self.q_spec()[i] == q0[i]);
            }
        }
    }

    /// Removes the head of the queue, which leaves: it takes from the flow capacity
    /// and is released from the storage at the next tick boundary.
    pub fn pop_front(&mut self) -> (r: Vehicle)
        requires
            old(self).wf(),
            old(self).q_spec().len() > 0,
            old(self).flow_spec().accumulated_spec() > 0,
        ensures
            final(self).wf(),
            final(self).same_config(old(self)),
            r == old(self).q_spec()[0].vehicle,
            r.wf(),
            final(self).q_spec() == old(self).q_spec().drop_first(),
            final(self).flow_spec().accumulated_spec() == old(self).flow_spec().accumulated_spec()
                - r.pce * UNITS_PER_MILLI_PCE,
            final(self).flow_spec().last_update_spec() == old(self).flow_spec().last_update_spec(),
            final(self).storage_spec().used_spec() == old(self).storage_spec().used_spec(),
            final(self).storage_spec().released_spec() == old(self).storage_spec().released_spec() + r.pce,
    {
        let ghost q0 = self.q@;
        proof {
            lemma_pce_sum_front(q0);
            lemma_pce_sum_nonneg(q0.drop_first());
        }
        assert(self.q_spec()[0].vehicle.wf());
        let entry = self.q.pop_front().unwrap();
        assert(self.q@ =~= q0.drop_first());
        self.flow_cap.consume_capacity(entry.vehicle.pce);
        self.storage_cap.release(entry.vehicle.pce as u64);
        assert forall|i: int| 0 <= i < self.q_spec().len() implies (#[trigger] self.q_spec()[i]).vehicle.wf() by {
            assert(self.q_spec()[i] == q0[i + 1]);
        }
        entry.vehicle
    }

    pub fn update_flow_cap(&mut self, now: u32)
        requires
            old(self).wf(),
        ensures
            final(self).wf(),
            final(self).same_config(old(self)),
            final(self).q_spec() == old(self).q_spec(),
            final(self).storage_spec() == old(self).storage_spec(),
            final(self).flow_spec().accumulated_spec() == crate::flow_cap::refilled(
                old(self).flow_spec().capacity_spec(),
                old(self).flow_spec().accumulated_spec(),
                old(self).flow_spec().last_update_spec(),
                now as int,
            ),
            final(self).flow_spec().last_update_spec() == if now > old(self).flow_spec().last_update_spec() {
                now as int
            } else {
                old(self).flow_spec().last_update_spec()
            },
    {
        self.flow_cap.update_capacity(now);
    }

    /// The head of the queue, if it may leave at `now`.
    pub fn q_front(&self, now: u32) -> (r: Option<&Vehicle>)
        requires
            self.wf(),
        ensures
            r.is_some() == self.offers(now as int),
            r.is_some() ==> *r.unwrap() == self.q_spec()[0].vehicle,
    {
        if !self.flow_cap.has_capacity() {
            return None;
        }
        if self.q.len() > 0 {
            let entry = &self.q[0];
            if entry.earliest_exit_time <= now as u64 {
                return Some(&entry.vehicle);
            }
        }
        None
    }

    pub fn veh_count(&self) -> (r: usize)
        ensures
            r == self.q_spec().len(),
    {
        self.q.len()
    }

    /// Whether the link takes another vehicle.
    pub fn is_available(&self) -> (r: bool)
        ensures
            r == (self.storage_spec().used_spec() < self.storage_spec().max_spec()),
    {
        self.storage_cap.is_available()
    }

    /// Frees the storage of the vehicles that left since the last tick boundary.
    pub fn update_released_storage_cap(&mut self)
        requires
            old(self).wf(),
        ensures
            final(self).wf(),
            final(self).same_config(old(self)),
            final(self).q_spec() == old(self).q_spec(),
            final(self).flow_spec() == old(self).flow_spec(),
            final(self).storage_spec().used_spec() == pce_sum(old(self).q_spec()),
            final(self).storage_spec().released_spec() == 0,
    {
        self.storage_cap.apply_released();
    }

    pub fn used_storage(&self) -> (r: u64)
        ensures
            r == self.storage_spec().used_spec(),
    {
        self.storage_cap.used()
    }

    pub fn max_storage(&self) -> (r: u64)
        ensures
            r == self.storage_spec().max_spec(),
    {
        self.storage_cap.max()
    }

    /// The flow capacity in milli-pce per hour.
    pub fn flow_capacity(&self) -> (r: u64)
        ensures
            r == self.flow_spec().capacity_spec(),
    {
        self.flow_cap.capacity()
    }

    pub fn from(&self) -> (r: u64)
        ensures
            r == self.from,
    {
        self.from
    }

    pub fn to(&self) -> (r: u64)
        ensures
            r == self.to,
    {
        self.to
    }
}

/// The upstream end of a link whose downstream node lies in another partition: a
/// buffer of vehicles to hand over at the end of the tick, and the occupancy that
/// the downstream partition last reported.
pub struct SplitOutLink {
    pub id: u64,
    pub to_part: u32,
    pub q: VecDeque<Vehicle>,
    pub storage_cap: StorageCap,
}

impl SplitOutLink {
    pub open spec fn q_spec(&self) -> Seq<Vehicle> {
        self.q@
    }

    pub open spec fn storage_spec(&self) -> StorageCap {
        self.storage_cap
    }

    pub open spec fn wf(&self) -> bool {
        &&& self.storage_spec().wf()
        &&& forall|i: int| 0 <= i < self.q_spec().len() ==> (#[trigger] self.q_spec()[i]).wf()
    }

    /// An empty buffer for link `id` of `capacity_h` vehicles per hour, sized as
    /// [`LocalLink::new`] sizes a link.
    pub fn new(
        id: u64,
        capacity_h: u32,
        perm_lanes: u32,
        length: u32,
        effective_cell_size: u32,
        sample: u32,
        to_part: u32,
    ) -> (r: SplitOutLink)
        requires
            0 < sample <= 1_000_000,
            effective_cell_size > 0,
        ensures
            r.wf(),
            r.id == id,
            r.to_part == to_part,
            r.q_spec().len() == 0,
            r.storage_spec().max_spec() == max_storage(
                length as int,
                perm_lanes as int,
                scaled_flow(capacity_h as int, sample as int),
                sample as int,
                effective_cell_size as int,
            ),
            r.storage_spec().used_spec() == 0,
            r.storage_spec().released_spec() == 0,
    {
        assert((capacity_h as int) * (sample as int) <= 4_294_967_295int * 1_000_000int) by (nonlinear_arith)
            requires
                capacity_h <= 4_294_967_295int,
                sample <= 1_000_000int,
        {
        }
        let flow: u64 = (capacity_h as u64) * (sample as u64) / 1000;
        let storage_cap = StorageCap::new(length, perm_lanes, flow, sample, effective_cell_size);
        SplitOutLink { id, to_part, q: VecDeque::new(), storage_cap }
    }

    /// A buffer with an explicit storage of `max_storage` milli-pce.
    pub fn with_storage(id: u64, to_part: u32, max_storage: u64) -> (r: SplitOutLink)
        requires
            max_storage <= crate::storage_cap::MAX_STORAGE,
        ensures
            r.wf(),
            r.id == id,
            r.to_part == to_part,
            r.q_spec().len() == 0,
            r.storage_spec().max_spec() == max_storage,
            r.storage_spec().used_spec() == 0,
            r.storage_spec().released_spec() == 0,
    {
        SplitOutLink { id, to_part, q: VecDeque::new(), storage_cap: StorageCap::with_max(max_storage) }
    }

    /// Mirrors the occupancy that the downstream partition reported.
    pub fn set_used_storage_cap(&mut self, value: u64)
        requires
            old(self).wf(),
        ensures
            final(self).wf(),
            final(self).id == old(self).id,
            final(self).to_part == old(self).to_part,
            final(self).q_spec() == old(self).q_spec(),
            final(self).storage_spec().max_spec() == old(self).storage_spec().max_spec(),
            final(self).storage_spec().used_spec() == value,
            final(self).storage_spec().released_spec() == 0,
    {
        self.storage_cap.clear();
        self.storage_cap.consume(value);
        assert forall|i: int| 0 <= i < self.q_spec().len() implies (#[trigger] self.q_spec()[i]).wf() by {
            assert(old(self).q_spec()[i].wf());
        }
    }

    /// Hands out every buffered vehicle, first in first, and clears the occupancy.
    pub fn take_veh(&mut self) -> (r: VecDeque<Vehicle>)
        requires
            old(self).wf(),
        ensures
            final(self).wf(),
            final(self).id == old(self).id,
            final(self).to_part == old(self).to_part,
            r@ == old(self).q_spec(),
            final(self).q_spec().len() == 0,
            final(self).storage_spec().max_spec() == old(self).storage_spec().max_spec(),
            final(self).storage_spec().used_spec() == 0,
            final(self).storage_spec().released_spec() == 0,
    {
        self.storage_cap.clear();
        let mut out: VecDeque<Vehicle> = VecDeque::new();
        std::mem::swap(&mut self.q, &mut out);
        out
    }

    pub fn push_veh(&mut self, veh: Vehicle)
        requires
            old(self).wf(),
            veh.wf(),
            old(self).storage_spec().used_spec() + veh.pce <= u64::MAX,
        ensures
            final(self).wf(),
            final(self).id == old(self).id,
            final(self).to_part == old(self).to_part,
            final(self).q_spec() == old(self).q_spec().push(veh),
            final(self).storage_spec().max_spec() == old(self).storage_spec().max_spec(),
            final(self).storage_spec().used_spec() == old(self).storage_spec().used_spec() + veh.pce,
            final(self).storage_spec().released_spec() == old(self).storage_spec().released_spec(),
    {
        self.storage_cap.consume(veh.pce as u64);
        let ghost q0 = self.q@;
        self.q.push_back(veh);
        assert(self.q@ == q0.push(veh));
        assert forall|i: int| 0 <= i < self.q_spec().len() implies (#[trigger] self.q_spec()[i]).wf() by {
            if i < q0.len() {
                assert(old(self).q_spec()[i].wf());
                assert(self.q_spec()[i] == q0[i]);
            } else {
                assert(self.q_spec()[i] == veh);
            }
        }
    }

    pub fn used_storage(&self) -> (r: u64)
        ensures
            r == self.storage_spec().used_spec(),
    {
        self.storage_cap.used()
    }

    pub fn is_available(&self) -> (r: bool)
        ensures
            r == (self.storage_spec().used_spec() < self.storage_spec().max_spec()),
    {
        self.storage_cap.is_available()
    }

    pub fn veh_count(&self) -> (r: usize)
        ensures
            r == self.q_spec().len(),
    {
        self.q.len()
    }
}

/// The downstream end of a link whose upstream node lies in another partition.
pub struct SplitInLink {
    pub from_part: u32,
    pub local_link: LocalLink,
}

impl SplitInLink {
    pub fn new(from_part: u32, local_link: LocalLink) -> (r: Self)
        ensures
            r.from_part == from_part,
            r.local_link == local_link,
    {
        SplitInLink { from_part, local_link }
    }
}

/// A link as one partition sees it.
pub enum SimLink {
    Local(LocalLink),
    In(SplitInLink),
    Out(SplitOutLink),
}

impl SimLink {
    pub open spec fn wf(&self) -> bool {
        match *self {
            SimLink::Local(l) => l.wf(),
            SimLink::In(il) => il.local_link.wf(),
            SimLink::Out(ol) => ol.wf(),
        }
    }

    pub open spec fn id_spec(&self) -> u64 {
        match *self {
            SimLink::Local(l) => l.id,
            SimLink::In(il) => il.local_link.id,
            SimLink::Out(ol) => ol.id,
        }
    }

    /// The queue of a local link or of the downstream end of a split link.
    pub open spec fn local_spec(&self) -> LocalLink {
        match *self {
            SimLink::Local(l) => l,
            SimLink::In(il) => il.local_link,
            SimLink::Out(_) => arbitrary(),
        }
    }

    pub open spec fn storage_spec(&self) -> StorageCap {
        match *self {
            SimLink::Local(l) => l.storage_spec(),
            SimLink::In(il) => il.local_link.storage_spec(),
            SimLink::Out(ol) => ol.storage_spec(),
        }
    }

    /// The vehicles the link holds, first in first.
    pub open spec fn vehicles_spec(&self) -> Seq<Vehicle> {
        match *self {
            SimLink::Local(l) => l.q_spec().map_values(|e: VehicleQEntry| e.vehicle),
            SimLink::In(il) => il.local_link.q_spec().map_values(|e: VehicleQEntry| e.vehicle),
            SimLink::Out(ol) => ol.q_spec(),
        }
    }

    pub open spec fn accepts(&self) -> bool {
        self.storage_spec().used_spec() < self.storage_spec().max_spec()
    }

    pub fn id(&self) -> (r: u64)
        ensures
            r == self.id_spec(),
    {
        match self {
            SimLink::Local(ll) => ll.id,
            SimLink::In(il) => il.local_link.id,
            SimLink::Out(ol) => ol.id,
        }
    }

    pub fn from(&self) -> (r: u64)
        requires
            !(self is Out),
        ensures
            r == self.local_spec().from,
    {
        match self {
            SimLink::Local(l) => l.from(),
            SimLink::In(l) => l.local_link.from(),
            SimLink::Out(_) => unreached(),
        }
    }

    pub fn to(&self) -> (r: u64)
        requires
            !(self is Out),
        ensures
            r == self.local_spec().to,
    {
        match self {
            SimLink::Local(l) => l.to(),
            SimLink::In(l) => l.local_link.to(),
            SimLink::Out(_) => unreached(),
        }
    }

    /// The partition at the other end of a split link.
    pub fn neighbor_part(&self) -> (r: u32)
        requires
            !(self is Local),
        ensures
            r == match *self {
                SimLink::In(il) => il.from_part,
                SimLink::Out(ol) => ol.to_part,
                SimLink::Local(_) => 0,
            },
    {
        match self {
            SimLink::Local(_) => unreached(),
            SimLink::In(il) => il.from_part,
            SimLink::Out(ol) => ol.to_part,
        }
    }

    /// The flow capacity in milli-pce per hour.
    pub fn flow_cap(&self) -> (r: u64)
        requires
            !(self is Out),
        ensures
            r == self.local_spec().flow_spec().capacity_spec(),
    {
        match self {
            SimLink::Local(l) => l.flow_capacity(),
            SimLink::In(il) => il.local_link.flow_capacity(),
            SimLink::Out(_) => unreached(),
        }
    }

    /// The vehicle at the head of the queue, if it may leave at `now`.
    pub fn offers_veh(&self, now: u32) -> (r: Option<&Vehicle>)
        requires
            self.wf(),
            !(self is Out),
        ensures
            r.is_some() == self.local_spec().offers(now as int),
            r.is_some() ==> *r.unwrap() == self.local_spec().q_spec()[0].vehicle,
    {
        match self {
            SimLink::Local(ll) => ll.q_front(now),
            SimLink::In(il) => il.local_link.q_front(now),
            SimLink::Out(_) => unreached(),
        }
    }

    /// Whether a vehicle may enter. Vehicles only enter a split link from its upstream side.
    pub fn is_available(&self) -> (r: bool)
        requires
            !(self is In),
        ensures
            r == self.accepts(),
    {
        match self {
            SimLink::Local(ll) => ll.is_available(),
            SimLink::In(_) => unreached(),
            SimLink::Out(ol) => ol.is_available(),
        }
    }

    pub fn used_storage(&self) -> (r: u64)
        ensures
            r == self.storage_spec().used_spec(),
    {
        match self {
            SimLink::Local(ll) => ll.used_storage(),
            SimLink::In(il) => il.local_link.used_storage(),
            SimLink::Out(ol) => ol.used_storage(),
        }
    }

    pub fn push_veh(&mut self, vehicle: Vehicle, now: u32)
        requires
            old(self).wf(),
            vehicle.wf(),
            old(self).storage_spec().used_spec() + vehicle.pce <= u64::MAX,
        ensures
            final(self).wf(),
            final(self).id_spec() == old(self).id_spec(),
            final(self).vehicles_spec() == old(self).vehicles_spec().push(vehicle),
            final(self).storage_spec().max_spec() == old(self).storage_spec().max_spec(),
            final(self).storage_spec().used_spec() == old(self).storage_spec().used_spec() + vehicle.pce,
            final(self).storage_spec().released_spec() == old(self).storage_spec().released_spec(),
            (*old(self)) is Local <==> (*final(self)) is Local,
            (*old(self)) is In <==> (*final(self)) is In,
            (*old(self)) is Out <==> (*final(self)) is Out,
            !((*old(self)) is Out) ==> final(self).local_spec().q_spec().last().earliest_exit_time == now
                + link_duration(
                old(self).local_spec().length_spec(),
                old(self).local_spec().free_speed_spec(),
                vehicle.max_v as int,
            ),
            !((*old(self)) is Out) ==> final(self).local_spec().q_spec().drop_last() == old(self).local_spec().q_spec(),
            !((*old(self)) is Out) ==> final(self).local_spec().same_config(&old(self).local_spec()),
            !((*old(self)) is Out) ==> final(self).local_spec().flow_spec() == old(self).local_spec().flow_spec(),
            ((*old(self)) is In) ==> (*final(self))->In_0.from_part == (*old(self))->In_0.from_part,
            ((*old(self)) is Out) ==> (*final(self))->Out_0.to_part == (*old(self))->Out_0.to_part,
    {
        match self {
            SimLink::Local(l) => {
                l.push_veh(vehicle, now);
                assert(l.q_spec().map_values(|e: VehicleQEntry| e.vehicle) =~= old(self).local_spec().q_spec().map_values(|e: VehicleQEntry| e.vehicle).push(vehicle));
            },
            SimLink::In(il) => {
                il.local_link.push_veh(vehicle, now);
                assert(il.local_link.q_spec().map_values(|e: VehicleQEntry| e.vehicle) =~= old(self).local_spec().q_spec().map_values(|e: VehicleQEntry| e.vehicle).push(vehicle));
            },
            SimLink::Out(ol) => ol.push_veh(vehicle),
        }
    }

    /// Removes the vehicle that [`SimLink::offers_veh`] offered.
    pub fn pop_veh(&mut self) -> (r: Vehicle)
        requires
            old(self).wf(),
            !((*old(self)) is Out),
            old(self).local_spec().q_spec().len() > 0,
            old(self).local_spec().flow_spec().accumulated_spec() > 0,
        ensures
            final(self).wf(),
            final(self).id_spec() == old(self).id_spec(),
            (*old(self)) is Local <==> (*final(self)) is Local,
            (*old(self)) is In <==> (*final(self)) is In,
            ((*old(self)) is In) ==> (*final(self))->In_0.from_part == (*old(self))->In_0.from_part,
            r == old(self).local_spec().q_spec()[0].vehicle,
            r.wf(),
            final(self).vehicles_spec() == old(self).vehicles_spec().drop_first(),
            final(self).local_spec().q_spec() == old(self).local_spec().q_spec().drop_first(),
            final(self).local_spec().same_config(&old(self).local_spec()),
            final(self).local_spec().flow_spec().accumulated_spec() == old(self).local_spec().flow_spec().accumulated_spec()
                - r.pce * UNITS_PER_MILLI_PCE,
            final(self).local_spec().flow_spec().last_update_spec() == old(self).local_spec().flow_spec().last_update_spec(),
            final(self).storage_spec().max_spec() == old(self).storage_spec().max_spec(),
            final(self).storage_spec().used_spec() == old(self).storage_spec().used_spec(),
            final(self).storage_spec().released_spec() == old(self).storage_spec().released_spec() + r.pce,
    {
        match self {
            SimLink::Local(ll) => {
                let v = ll.pop_front();
                assert(ll.q_spec().map_values(|e: VehicleQEntry| e.vehicle) =~= old(self).vehicles_spec().drop_first());
                v
            },
            SimLink::In(il) => {
                let v = il.local_link.pop_front();
                assert(il.local_link.q_spec().map_values(|e: VehicleQEntry| e.vehicle) =~= old(self).vehicles_spec().drop_first());
                v
            },
            SimLink::Out(_) => unreached(),
        }
    }

    pub fn update_flow_cap(&mut self, now: u32)
        requires
            old(self).wf(),
            !((*old(self)) is Out),
        ensures
            final(self).wf(),
            final(self).id_spec() == old(self).id_spec(),
            (*old(self)) is Local <==> (*final(self)) is Local,
            (*old(self)) is In <==> (*final(self)) is In,
            !((*final(self)) is Out),
            ((*old(self)) is In) ==> (*final(self))->In_0.from_part == (*old(self))->In_0.from_part,
            final(self).vehicles_spec() == old(self).vehicles_spec(),
            final(self).storage_spec() == old(self).storage_spec(),
            final(self).local_spec().q_spec() == old(self).local_spec().q_spec(),
            final(self).local_spec().same_config(&old(self).local_spec()),
            final(self).local_spec().flow_spec().accumulated_spec() == crate::flow_cap::refilled(
                old(self).local_spec().flow_spec().capacity_spec(),
                old(self).local_spec().flow_spec().accumulated_spec(),
                old(self).local_spec().flow_spec().last_update_spec(),
                now as int,
            ),
    {
        match self {
            SimLink::Local(ll) => ll.update_flow_cap(now),
            SimLink::In(il) => il.local_link.update_flow_cap(now),
            SimLink::Out(_) => unreached(),
        }
    }

    /// Frees the storage released during the last tick.
    pub fn update_released_storage_cap(&mut self)
        requires
            old(self).wf(),
            !((*old(self)) is Out),
        ensures
            final(self).wf(),
            final(self).id_spec() == old(self).id_spec(),
            (*old(self)) is Local <==> (*final(self)) is Local,
            (*old(self)) is In <==> (*final(self)) is In,
            !((*final(self)) is Out),
            ((*old(self)) is In) ==> (*final(self))->In_0.from_part == (*old(self))->In_0.from_part,
            final(self).vehicles_spec() == old(self).vehicles_spec(),
            final(self).local_spec().q_spec() == old(self).local_spec().q_spec(),
            final(self).local_spec().same_config(&old(self).local_spec()),
            final(self).local_spec().flow_spec() == old(self).local_spec().flow_spec(),
            final(self).storage_spec().max_spec() == old(self).storage_spec().max_spec(),
            final(self).storage_spec().used_spec() == pce_sum(old(self).local_spec().q_spec()),
            final(self).storage_spec().released_spec() == 0,
    {
        match self {
            SimLink::Local(l) => l.update_released_storage_cap(),
            SimLink::In(l) => l.local_link.update_released_storage_cap(),
            SimLink::Out(_) => unreached(),
        }
    }
}

} // verus!
