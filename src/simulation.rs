use vstd::prelude::*;
use crate::activity_engine::ActivityEngine;
use crate::events::{Event, EventsPublisher};
use crate::garage::Garage;
use crate::message_broker::NetMessageBroker;
use crate::messages::SyncMessage;
use crate::network::Network;
use crate::population::{Agent, Leg, route_links, Route, activity_end};
use crate::link::SimLink;
use crate::sim_network::{SimNetworkPartition, all_nodes_done, moved_link, outbound_vehicles, same_shape, node_run, links_grow, lemma_links_grow_refl};
use crate::time_queue::TimeQueue;
use crate::vehicle::{LevelOfDetail, Vehicle, VehicleType};

verus! {

/// Why a tick could not be carried out: input that does not fit the network or the
/// garage. The simulation does not go on after one.
#[derive(PartialEq, Eq, Structural, Clone, Copy, Debug)]
pub enum SimError {
    /// A leg names a vehicle that is not parked.
    VehicleNotParked { person: u64, vehicle: u64 },
    /// A vehicle names a type the garage does not know.
    UnknownVehicleType { vehicle: u64 },
    /// A route names a link that this partition cannot take a vehicle onto.
    LinkNotHere { vehicle: u64, link: u64 },
    /// A route names a link that no partition holds.
    UnknownLink { vehicle: u64, link: u64 },
    /// A vehicle came in from another partition in a state it cannot be in.
    InvalidVehicle { vehicle: u64 },
    /// A partition reported the occupancy of a link whose upstream end is not here.
    UnexpectedStorageReport { from_process: u32 },
}

/// The leg that agent `a`, at an activity, sets off on next.
pub open spec fn next_leg(a: Agent) -> Leg {
    a.plan@[a.curr_plan_elem + 1]->Leg_0
}

pub open spec fn route_vehicle(r: Route) -> u64 {
    match r {
        Route::Network(n) => n.veh_id,
        Route::Generic(g) => g.veh_id,
    }
}

/// The activity after the leg agent `a` is on.
pub open spec fn next_act(a: Agent) -> crate::population::Activity {
    a.plan@[a.curr_plan_elem + 1]->Activity_0
}

pub open spec fn route_distance(r: Route) -> u64 {
    match r {
        Route::Network(n) => n.distance,
        Route::Generic(g) => g.distance,
    }
}

/// The arrival at the next activity of the driver of `v` at `now`.
pub open spec fn arrival_events(v: Vehicle, now: u32) -> Seq<(u32, Event)> {
    let a = v.driver;
    seq![
        (now, Event::Arrival { person: a.id, link: next_act(a).link_id, mode: a.curr_leg_spec().mode }),
        (now, Event::ActStart { person: a.id, link: next_act(a).link_id, act_type: next_act(a).act_type }),
    ]
}

/// The end of the teleported leg of `v` at `now`: Travelled, Arrival, ActStart.
pub open spec fn teleport_end_events(v: Vehicle, now: u32) -> Seq<(u32, Event)> {
    let a = v.driver;
    seq![(now, Event::Travelled { person: a.id, distance: route_distance(a.curr_leg_spec().route), mode: a.curr_leg_spec().mode })]
        + arrival_events(v, now)
}

/// The activity queue `q` holds the driver of `v`, on to the activity after its leg,
/// until that activity ends, counted from `now`.
pub open spec fn queued_after_leg(q: Seq<(u32, Agent)>, v: Vehicle, now: u32) -> bool {
    exists|j: int|
        0 <= j < q.len() && (#[trigger] q[j]).1.id == v.driver.id && q[j].1.plan@ == v.driver.plan@ && q[j].1.curr_plan_elem
            == v.driver.curr_plan_elem + 1 && q[j].0 == activity_end(next_act(v.driver), now as int)
}

proof fn lemma_queued_kept(q: Seq<(u32, Agent)>, q2: Seq<(u32, Agent)>, v: Vehicle, now: u32)
    requires
        queued_after_leg(q, v, now),
        forall|x: (u32, Agent)| q.contains(x) ==> q2.contains(x),
    ensures
        queued_after_leg(q2, v, now),
{
    let j = choose|j: int|
        0 <= j < q.len() && (#[trigger] q[j]).1.id == v.driver.id && q[j].1.plan@ == v.driver.plan@ && q[j].1.curr_plan_elem
            == v.driver.curr_plan_elem + 1 && q[j].0 == activity_end(next_act(v.driver), now as int);
    assert(q.contains(q[j]));
    let k = choose|k: int| 0 <= k < q2.len() && q2[k] == q[j];
    assert(q2[k].1.id == v.driver.id);
}

/// The events of the drivers of `s` leaving their vehicles and arriving, the last
/// vehicle of `s` first.
pub open spec fn exit_events(s: Seq<Vehicle>, now: u32) -> Seq<(u32, Event)>
    decreases s.len(),
{
    if s.len() == 0 {
        Seq::empty()
    } else {
        seq![(now, Event::PersonLeavesVehicle { person: s.last().driver.id, vehicle: s.last().id })] + arrival_events(
            s.last(),
            now,
        ) + exit_events(s.drop_last(), now)
    }
}

proof fn lemma_exit_events_front(x: Vehicle, t: Seq<Vehicle>, now: u32)
    ensures
        exit_events(seq![x] + t, now) == exit_events(t, now) + (seq![(now, Event::PersonLeavesVehicle { person: x.driver.id, vehicle: x.id })]
            + arrival_events(x, now)),
    decreases t.len(),
{
    let s = seq![x] + t;
    if t.len() == 0 {
        assert(s.drop_last() =~= Seq::<Vehicle>::empty());
        assert(s.last() == x);
        assert(exit_events(Seq::<Vehicle>::empty(), now) == Seq::<(u32, Event)>::empty());
        assert(exit_events(s, now) =~= exit_events(t, now) + (seq![(now, Event::PersonLeavesVehicle { person: x.driver.id, vehicle: x.id })]
            + arrival_events(x, now)));
    } else {
        lemma_exit_events_front(x, t.drop_last(), now);
        assert(s.drop_last() =~= seq![x] + t.drop_last());
        assert(s.last() == t.last());
        assert(exit_events(s, now) =~= exit_events(t, now) + (seq![(now, Event::PersonLeavesVehicle { person: x.driver.id, vehicle: x.id })]
            + arrival_events(x, now)));
    }
}

/// The events of ending, in order, the teleported legs of the vehicles of `s`.
pub open spec fn teleport_events(s: Seq<(u32, Vehicle)>, now: u32) -> Seq<(u32, Event)>
    decreases s.len(),
{
    if s.len() == 0 {
        Seq::empty()
    } else {
        teleport_events(s.drop_last(), now) + teleport_end_events(s.last().1, now)
    }
}

/// The tick at which the teleported leg that agent `a` sets off on at `now` ends.
pub open spec fn teleport_end(a: Agent, now: u32) -> u32 {
    let t = match next_leg(a).route {
        Route::Network(_) => 0u32,
        Route::Generic(g) => g.trav_time,
    };
    if now + t > u32::MAX { u32::MAX } else { (now + t) as u32 }
}

/// In `sim`, agent `a` sets off on a teleported leg that starts and ends in one
/// partition: its vehicle is parked, of a teleported type, and both ends of the leg
/// are links of that partition.
pub open spec fn teleports_locally(sim: Simulation, a: Agent) -> bool {
    let leg = next_leg(a);
    let veh = route_vehicle(leg.route);
    let links = route_links(leg.route);
    let m = sim.message_broker.mapping_spec();
    &&& sim.garage.is_parked(veh as int)
    &&& sim.garage.vehicle_types@[sim.garage.vehicles@[veh as int]->Some_0.veh_type as int].lod == LevelOfDetail::Teleported
    &&& links[0] < m.len()
    &&& links.last() < m.len()
    &&& m[links[0] as int] == m[links.last() as int]
}

/// In `sim`, agent `a` sets off on a leg on the network: its vehicle is parked and of
/// a network type.
pub open spec fn departs_on_network(sim: Simulation, a: Agent) -> bool {
    let veh = route_vehicle(next_leg(a).route);
    &&& sim.garage.is_parked(veh as int)
    &&& sim.garage.vehicle_types@[sim.garage.vehicles@[veh as int]->Some_0.veh_type as int].lod == LevelOfDetail::Network
}

/// In `sim`, agent `a` entered its vehicle at `now`, which entered the start link of
/// its leg and is queued there.
pub open spec fn network_departure(sim: Simulation, a: Agent, now: u32) -> bool {
    let veh = route_vehicle(next_leg(a).route);
    let start = route_links(next_leg(a).route)[0];
    &&& sim.events@.contains((now, Event::PersonEntersVehicle { person: a.id, vehicle: veh }))
    &&& sim.events@.contains((now, Event::LinkEnter { link: start, vehicle: veh }))
    &&& start < sim.network.links@.len()
    &&& sim.network.links@[start as int] is Some
    &&& exists|v: Vehicle| #[trigger] sim.network.links@[start as int]->Some_0.vehicles_spec().contains(v) && v.id == veh
}

proof fn lemma_network_departure_kept(s1: Simulation, s2: Simulation, a: Agent, now: u32)
    requires
        network_departure(s1, a, now),
        s2.events@.len() >= s1.events@.len(),
        s2.events@.take(s1.events@.len() as int) == s1.events@,
        links_grow(s1.network.links@, s2.network.links@),
    ensures
        network_departure(s2, a, now),
{
    let veh = route_vehicle(next_leg(a).route);
    let start = route_links(next_leg(a).route)[0];
    let x1 = (now, Event::PersonEntersVehicle { person: a.id, vehicle: veh });
    let x2 = (now, Event::LinkEnter { link: start, vehicle: veh });
    lemma_contains_prefix(s1.events@, s2.events@, x1);
    lemma_contains_prefix(s1.events@, s2.events@, x2);
    let v = choose|v: Vehicle| #[trigger] s1.network.links@[start as int]->Some_0.vehicles_spec().contains(v) && v.id == veh;
    assert(s1.network.links@[start as int] is Some);
    assert(s2.network.links@[start as int]->Some_0.vehicles_spec().contains(v));
}

/// In `sim`, agent `a` sets off on a teleported leg whose end lies in another
/// partition: its vehicle is parked, of a teleported type, and both ends of the leg
/// are links of different partitions.
pub open spec fn teleports_remotely(sim: Simulation, a: Agent) -> bool {
    let leg = next_leg(a);
    let veh = route_vehicle(leg.route);
    let links = route_links(leg.route);
    let m = sim.message_broker.mapping_spec();
    &&& sim.garage.is_parked(veh as int)
    &&& sim.garage.vehicle_types@[sim.garage.vehicles@[veh as int]->Some_0.veh_type as int].lod == LevelOfDetail::Teleported
    &&& links[0] < m.len()
    &&& links.last() < m.len()
    &&& m[links[0] as int] != m[links.last() as int]
}

/// The outgoing messages `out` hold, for partition `p`, the vehicle `veh` of agent
/// `person` on link `link`.
pub open spec fn handed_over(out: Seq<SyncMessage>, p: u32, veh: u64, link: u64, person: u64) -> bool {
    exists|i: int, j: int|
        0 <= i < out.len() && out[i].to_process == p && 0 <= j < out[i].vehicles@.len() && (#[trigger] out[i].vehicles@[j]).id
            == veh && out[i].vehicles@[j].curr_link_spec() == link && out[i].vehicles@[j].driver.id == person
}

/// The hand-over of agent `a`'s teleported vehicle, at the end link of its leg, to
/// the partition of that link.
pub open spec fn remote_handover(sim: Simulation, a: Agent) -> bool {
    let leg = next_leg(a);
    let end = route_links(leg.route).last();
    handed_over(
        sim.message_broker.out_spec(),
        sim.message_broker.mapping_spec()[end as int],
        route_vehicle(leg.route),
        end,
        a.id,
    )
}

proof fn lemma_handed_over_kept(o: Seq<SyncMessage>, f: Seq<SyncMessage>, p: u32, veh: u64, link: u64, person: u64)
    requires
        handed_over(o, p, veh, link, person),
        crate::message_broker::out_grows(o, f),
    ensures
        handed_over(f, p, veh, link, person),
{
    let (i, j) = choose|i: int, j: int|
        0 <= i < o.len() && o[i].to_process == p && 0 <= j < o[i].vehicles@.len() && (#[trigger] o[i].vehicles@[j]).id == veh
            && o[i].vehicles@[j].curr_link_spec() == link && o[i].vehicles@[j].driver.id == person;
    let v = o[i].vehicles@[j];
    assert(o[i].vehicles@.contains(v));
    assert(f[i].vehicles@.contains(v));
    let k = choose|k: int| 0 <= k < f[i].vehicles@.len() && f[i].vehicles@[k] == v;
    assert(f[i].vehicles@[k].id == veh);
}

/// The end of the activity agent `a` is at.
pub open spec fn act_end_of(a: Agent) -> Event {
    Event::ActEnd { person: a.id, link: a.curr_act_spec().link_id, act_type: a.curr_act_spec().act_type }
}

/// The departure of agent `a` on its next leg at `now`.
pub open spec fn departure_of(a: Agent, now: u32) -> (u32, Event) {
    (now, Event::Departure { person: a.id, link: route_links(next_leg(a).route)[0], mode: next_leg(a).mode })
}

/// Agent `a` is due at `now` in the activity queue `q`, and has a leg ahead.
pub open spec fn departs(q: Seq<(u32, Agent)>, now: u32, a: Agent) -> bool {
    &&& exists|i: int| 0 <= i < q.len() && q[i].0 <= now && #[trigger] q[i].1 == a
    &&& a.has_next()
}

/// Why waking agents up at `now` may fail: a departing agent's vehicle is not parked
/// in `garage`, its start link cannot take it here, or a link of its leg lies in no
/// partition of `mapping_len` links.
pub open spec fn wakeup_error(e: SimError, q: Seq<(u32, Agent)>, now: u32, mapping_len: nat, sim: Simulation) -> bool {
    match e {
        SimError::VehicleNotParked { person, vehicle } => !sim.garage.is_parked(vehicle as int) && exists|a: Agent|
            #[trigger] departs(q, now, a) && a.id == person && route_vehicle(next_leg(a).route) == vehicle,
        SimError::LinkNotHere { vehicle, link } => cannot_take(sim.network, link) && exists|a: Agent|
            #[trigger] departs(q, now, a) && route_vehicle(next_leg(a).route) == vehicle && route_links(
                next_leg(a).route,
            )[0] == link,
        SimError::UnknownLink { vehicle, link } => link >= mapping_len && exists|a: Agent|
            #[trigger] departs(q, now, a) && route_vehicle(next_leg(a).route) == vehicle,
        _ => false,
    }
}

/// `net` cannot take a vehicle onto link `link`: it does not hold it, or its
/// occupancy is so high that a vehicle's pce would overflow it.
pub open spec fn cannot_take(net: SimNetworkPartition, link: u64) -> bool {
    !net.enterable(link as int) || net.links@[link as int]->Some_0.storage_spec().used_spec() > u64::MAX - u32::MAX
}

proof fn lemma_contains_prefix(a: Seq<(u32, Event)>, b: Seq<(u32, Event)>, x: (u32, Event))
    requires
        b.len() >= a.len(),
        b.take(a.len() as int) == a,
        a.contains(x),
    ensures
        b.contains(x),
{
    let k = choose|k: int| 0 <= k < a.len() && a[k] == x;
    assert(b.take(a.len() as int)[k] == b[k]);
}

/// Vehicle `v`, handed over by another partition, can be taken in by `sim`: it is
/// well formed and of a known type.
pub open spec fn vehicle_accepted(v: Vehicle, sim: Simulation) -> bool {
    v.wf() && v.veh_type < sim.garage.vehicle_types@.len()
}

/// Message `m` can be taken in by `sim`: its reports name upstream ends of split
/// links of `sim`, and its vehicles can be taken in.
pub open spec fn msg_accepted(m: SyncMessage, sim: Simulation) -> bool {
    &&& forall|j: int| 0 <= j < m.storage_capacities@.len() ==> sim.network.is_out_link(
        #[trigger] m.storage_capacities@[j].link_id as int,
    )
    &&& forall|q: int| 0 <= q < m.vehicles@.len() ==> vehicle_accepted(#[trigger] m.vehicles@[q], sim)
}

/// The number of vehicles in the messages of `s`.
pub open spec fn msgs_vehicles(s: Seq<SyncMessage>) -> int
    decreases s.len(),
{
    if s.len() == 0 {
        0
    } else {
        msgs_vehicles(s.drop_last()) + s.last().vehicles@.len()
    }
}

/// The tick at which teleported vehicle `v`, handed over at `now`, arrives.
pub open spec fn handover_arrival(v: Vehicle, now: u32) -> u32 {
    let t = match v.driver.curr_leg_spec().route {
        Route::Network(_) => 0u32,
        Route::Generic(g) => g.trav_time,
    };
    if now + 1 + t > u32::MAX { u32::MAX } else { (now + 1 + t) as u32 }
}

/// Vehicle `v`, handed over at `now`, is in `sim`: on its link if its type runs on
/// the network, in the teleportation queue until its arrival otherwise.
pub open spec fn taken_in(sim: Simulation, types: Seq<VehicleType>, v: Vehicle, now: u32) -> bool {
    if types[v.veh_type as int].lod == LevelOfDetail::Network {
        &&& v.curr_link_spec() < sim.network.links@.len()
        &&& sim.network.links@[v.curr_link_spec() as int] is Some
        &&& sim.network.links@[v.curr_link_spec() as int]->Some_0.vehicles_spec().contains(v)
    } else {
        sim.teleportation_q@.contains((handover_arrival(v, now), v))
    }
}

proof fn lemma_taken_in_kept(s1: Simulation, s2: Simulation, types: Seq<VehicleType>, v: Vehicle, now: u32)
    requires
        taken_in(s1, types, v, now),
        links_grow(s1.network.links@, s2.network.links@),
        forall|x: (u32, Vehicle)| s1.teleportation_q@.contains(x) ==> s2.teleportation_q@.contains(x),
    ensures
        taken_in(s2, types, v, now),
{
    if types[v.veh_type as int].lod == LevelOfDetail::Network {
        assert(s1.network.links@[v.curr_link_spec() as int] is Some);
    }
}

/// Why taking in the messages `msgs` may fail in `sim`.
pub open spec fn after_sync_error(e: SimError, msgs: Seq<SyncMessage>, sim: Simulation, fin: Simulation) -> bool {
    match e {
        SimError::UnexpectedStorageReport { from_process } => exists|k: int, j: int|
            0 <= k < msgs.len() && msgs[k].from_process == from_process && 0 <= j
                < msgs[k].storage_capacities@.len() && !sim.network.is_out_link(
                #[trigger] msgs[k].storage_capacities@[j].link_id as int,
            ),
        SimError::InvalidVehicle { vehicle } => exists|k: int, q: int|
            0 <= k < msgs.len() && 0 <= q < msgs[k].vehicles@.len() && (#[trigger] msgs[k].vehicles@[q]).id == vehicle
                && !msgs[k].vehicles@[q].wf(),
        SimError::UnknownVehicleType { vehicle } => exists|k: int, q: int|
            0 <= k < msgs.len() && 0 <= q < msgs[k].vehicles@.len() && (#[trigger] msgs[k].vehicles@[q]).id == vehicle
                && msgs[k].vehicles@[q].veh_type >= sim.garage.vehicle_types@.len(),
        SimError::LinkNotHere { vehicle, link } => cannot_take(fin.network, link) && exists|k: int, q: int|
            0 <= k < msgs.len() && 0 <= q < msgs[k].vehicles@.len() && (#[trigger] msgs[k].vehicles@[q]).id == vehicle
                && msgs[k].vehicles@[q].curr_link_spec() == link,
        _ => false,
    }
}

proof fn lemma_out_links_same_shape(a: Seq<Option<SimLink>>, b: Seq<Option<SimLink>>)
    requires
        same_shape(a, b),
    ensures
        forall|id: int|
            (0 <= id < a.len() && a[id] is Some && #[trigger] a[id]->Some_0 is Out) == (0 <= id < b.len() && b[id] is Some
                && b[id]->Some_0 is Out),
{
    assert forall|id: int|
        (0 <= id < a.len() && a[id] is Some && #[trigger] a[id]->Some_0 is Out) == (0 <= id < b.len() && b[id] is Some
            && b[id]->Some_0 is Out) by {
        if 0 <= id < a.len() {
            assert(a[id] is Some == b[id] is Some);
        }
    }
}

proof fn lemma_same_shape_trans2(a: Seq<Option<SimLink>>, b: Seq<Option<SimLink>>, c: Seq<Option<SimLink>>)
    requires
        same_shape(a, b),
        same_shape(b, c),
    ensures
        same_shape(a, c),
{
    assert forall|i: int| 0 <= i < a.len() implies {
        &&& (#[trigger] a[i] is Some) == (c[i] is Some)
        &&& (a[i] matches Some(l) ==> (l is Local) == (c[i]->Some_0 is Local) && (l is In) == (c[i]->Some_0 is In) && (l is Out)
            == (c[i]->Some_0 is Out))
    } by {
        assert(a[i] is Some == b[i] is Some);
        assert(b[i] is Some == c[i] is Some);
    }
}

/// Every vehicle of `q` keeps its invariant.
pub open spec fn vehicles_wf(q: Seq<(u32, Vehicle)>) -> bool {
    forall|i: int| 0 <= i < q.len() ==> (#[trigger] q[i]).1.wf()
}

/// One partition of the simulation: its agents at activities, its teleported
/// vehicles, its part of the network, its garage, its messaging and its events.
///
/// A tick `now` goes: [`Simulation::before_sync`], whose messages go to the other
/// partitions; [`NetMessageBroker::handle_incoming_msg`] for each message that comes
/// in while [`NetMessageBroker::is_waiting`]; and [`Simulation::after_sync`].
pub struct Simulation {
    pub activity_engine: ActivityEngine,
    pub teleportation_q: TimeQueue<Vehicle>,
    pub network: SimNetworkPartition,
    pub garage: Garage,
    pub message_broker: NetMessageBroker,
    pub events: EventsPublisher,
}

impl Simulation {
    /// Partition `b` talks to the same partitions, about the same links, as `a`.
    pub open spec fn same_broker_config(&self, other: &Simulation) -> bool {
        &&& self.message_broker.rank_spec() == other.message_broker.rank_spec()
        &&& self.message_broker.neighbors_spec() == other.message_broker.neighbors_spec()
        &&& self.message_broker.mapping_spec() == other.message_broker.mapping_spec()
    }

    pub open spec fn wf(&self) -> bool {
        &&& self.activity_engine.wf()
        &&& self.teleportation_q.wf()
        &&& vehicles_wf(self.teleportation_q@)
        &&& self.network.wf()
        &&& self.garage.wf()
        &&& self.message_broker.wf()
    }

    /// A partition whose agents, each at an activity, wait in the activity queue
    /// until the activity they start at `start_time` ends.
    pub fn new(
        network: SimNetworkPartition,
        garage: Garage,
        agents: Vec<crate::population::Agent>,
        message_broker: NetMessageBroker,
        events: EventsPublisher,
        start_time: u32,
    ) -> (r: Self)
        requires
            network.wf(),
            garage.wf(),
            message_broker.wf(),
            forall|i: int| 0 <= i < agents@.len() ==> (#[trigger] agents@[i]).wf() && agents@[i].on_activity(),
        ensures
            r.wf(),
            r.activity_engine.queue_spec().len() == agents@.len(),
            r.teleportation_q@.len() == 0,
            r.network == network,
            r.garage == garage,
            r.message_broker == message_broker,
            forall|i: int|
                0 <= i < r.activity_engine.queue_spec().len() ==> (#[trigger] r.activity_engine.queue_spec()[i]).0
                    == activity_end(r.activity_engine.queue_spec()[i].1.curr_act_spec(), start_time as int),
    {
        let mut activity_engine = ActivityEngine::new(TimeQueue::new());
        let mut agents = agents;
        let ghost a0 = agents@;
        while agents.len() > 0
            invariant
                activity_engine.wf(),
                agents@.len() <= a0.len(),
                agents@ == a0.take(agents@.len() as int),
                activity_engine.queue_spec().len() + agents@.len() == a0.len(),
                forall|i: int|
                    0 <= i < activity_engine.queue_spec().len() ==> (#[trigger] activity_engine.queue_spec()[i]).0
                        == activity_end(activity_engine.queue_spec()[i].1.curr_act_spec(), start_time as int),
                forall|i: int| 0 <= i < a0.len() ==> (#[trigger] a0[i]).wf() && a0[i].on_activity(),
            decreases agents@.len(),
        {
            let ghost before = agents@;
            let a = agents.pop().unwrap();
            assert(a == a0[before.len() - 1]);
            assert(agents@ =~= a0.take(agents@.len() as int));
            let ghost qa = activity_engine.queue_spec();
            activity_engine.add_agent(a, start_time);
            proof {
                let q2 = activity_engine.queue_spec();
                let k = choose|k: int|
                    0 <= k <= qa.len() && q2 == #[trigger] qa.insert(
                        k,
                        (activity_end(a.curr_act_spec(), start_time as int) as u32, a),
                    );
                assert forall|i: int| 0 <= i < q2.len() implies (#[trigger] q2[i]).0 == activity_end(
                    q2[i].1.curr_act_spec(),
                    start_time as int,
                ) by {
                    if i < k {
                        assert(q2[i] == qa[i]);
                    } else if i > k {
                        assert(q2[i] == qa[i - 1]);
                    } else {
                        assert(activity_end(a.curr_act_spec(), start_time as int) <= u32::MAX);
                    }
                }
            }
        }
        Simulation {
            activity_engine,
            teleportation_q: TimeQueue::new(),
            network,
            garage,
            message_broker,
            events,
        }
    }

    /// Partition `partition` of `network`: its part of the network at a sample of
    /// `sample` parts per million, messaging with the partitions it shares links
    /// with, and those of `agents` whose current activity lies on one of its links.
    pub fn from_network(
        network: &Network,
        partition: u32,
        agents: Vec<Agent>,
        garage: Garage,
        sample: u32,
        seed: u64,
        start_time: u32,
    ) -> (r: Self)
        requires
            network.wf(),
            garage.wf(),
            0 < sample <= 1_000_000,
            forall|i: int| 0 <= i < agents@.len() ==> (#[trigger] agents@[i]).wf() && agents@[i].on_activity(),
        ensures
            r.wf(),
            r.message_broker.rank_spec() == partition,
            forall|i: int| 0 <= i < network.links@.len() ==> r.message_broker.mapping_spec()[i] == #[trigger] network.to_part(i),
            r.message_broker.mapping_spec().len() == network.links@.len(),
            forall|p: u32| r.message_broker.neighbors_spec().contains(p) <==> r.network.is_neighbor(p),
            r.activity_engine.queue_spec().len() == network.agents_in(agents@, partition).len(),
    {
        let net = SimNetworkPartition::from_network(network, partition, sample, seed);
        let neighbors = net.neighbors();
        let mapping = network.link_partitions();
        let broker = NetMessageBroker::new(partition, mapping, neighbors);
        let mine = network.agents_of_partition(agents, partition);
        Simulation::new(net, garage, mine, broker, EventsPublisher::new(), start_time)
    }

    /// Queues teleported `vehicle` to arrive at `time`.
    fn teleport(&mut self, vehicle: Vehicle, time: u32)
        requires
            old(self).wf(),
            vehicle.wf(),
        ensures
            final(self).same_broker_config(old(self)),
            final(self).wf(),
            final(self).teleportation_q@.len() == old(self).teleportation_q@.len() + 1,
            final(self).teleportation_q@.contains((time, vehicle)),
            forall|x: (u32, Vehicle)| old(self).teleportation_q@.contains(x) ==> final(self).teleportation_q@.contains(x),
            final(self).activity_engine == old(self).activity_engine,
            final(self).message_broker == old(self).message_broker,
            final(self).garage == old(self).garage,
            final(self).network == old(self).network,
            final(self).events@ == old(self).events@,
    {
        let ghost q0 = self.teleportation_q@;
        self.teleportation_q.add(vehicle, time);
        proof {
            let k = choose|k: int| 0 <= k <= q0.len() && self.teleportation_q@ == q0.insert(k, (time, vehicle));
            assert(self.teleportation_q@[k] == (time, vehicle));
            assert forall|x: (u32, Vehicle)| q0.contains(x) implies self.teleportation_q@.contains(x) by {
                let m = choose|m: int| 0 <= m < q0.len() && q0[m] == x;
                if m < k {
                    assert(self.teleportation_q@[m] == x);
                } else {
                    assert(self.teleportation_q@[m + 1] == x);
                }
            }
            assert forall|i: int| 0 <= i < self.teleportation_q@.len() implies (#[trigger] self.teleportation_q@[i]).1.wf() by {
                if i < k {
                    assert(self.teleportation_q@[i] == q0[i]);
                } else if i > k {
                    assert(self.teleportation_q@[i] == q0[i - 1]);
                }
            }
        }
    }

    /// Ends the activities due at `now`: each agent departs on its next leg, in a
    /// vehicle out of the garage, onto the network, into the teleportation queue, or
    /// to the partition where a teleported leg ends.
    pub fn wakeup(&mut self, now: u32) -> (r: Result<(), SimError>)
        requires
            old(self).wf(),
        ensures
            final(self).same_broker_config(old(self)),
            final(self).wf(),
            final(self).events@.len() >= old(self).events@.len(),
            final(self).events@.take(old(self).events@.len() as int) == old(self).events@,
            forall|i: int|
                0 <= i < final(self).activity_engine.queue_spec().len()
                    ==> (#[trigger] final(self).activity_engine.queue_spec()[i]).0 > now,
            r is Ok ==> forall|i: int|
                0 <= i < old(self).activity_engine.queue_spec().len() && old(self).activity_engine.queue_spec()[i].0
                    <= now && (#[trigger] old(self).activity_engine.queue_spec()[i]).1.has_next()
                    ==> final(self).events@.contains(departure_of(old(self).activity_engine.queue_spec()[i].1, now)),
            r is Ok ==> forall|i: int|
                0 <= i < old(self).activity_engine.queue_spec().len() && old(self).activity_engine.queue_spec()[i].0
                    <= now && (#[trigger] old(self).activity_engine.queue_spec()[i]).1.has_next() && teleports_remotely(
                    *old(self),
                    old(self).activity_engine.queue_spec()[i].1,
                ) ==> remote_handover(*final(self), old(self).activity_engine.queue_spec()[i].1),
            r is Ok ==> forall|i: int|
                0 <= i < old(self).activity_engine.queue_spec().len() && old(self).activity_engine.queue_spec()[i].0
                    <= now && (#[trigger] old(self).activity_engine.queue_spec()[i]).1.has_next() && departs_on_network(
                    *old(self),
                    old(self).activity_engine.queue_spec()[i].1,
                ) ==> network_departure(
                    *final(self),
                    old(self).activity_engine.queue_spec()[i].1,
                    now,
                ),
            r is Ok ==> forall|i: int|
                0 <= i < old(self).activity_engine.queue_spec().len() && old(self).activity_engine.queue_spec()[i].0
                    <= now && (#[trigger] old(self).activity_engine.queue_spec()[i]).1.has_next() && teleports_locally(
                    *old(self),
                    old(self).activity_engine.queue_spec()[i].1,
                ) ==> exists|v: Vehicle|
                    final(self).teleportation_q@.contains(
                        (teleport_end(old(self).activity_engine.queue_spec()[i].1, now), v),
                    ) && v.id == route_vehicle(next_leg(old(self).activity_engine.queue_spec()[i].1).route)
                        && v.driver.id == old(self).activity_engine.queue_spec()[i].1.id,
            r matches Err(e) ==> wakeup_error(
                e,
                old(self).activity_engine.queue_spec(),
                now,
                old(self).message_broker.mapping_spec().len(),
                *final(self),
            ),
            same_shape(old(self).network.links@, final(self).network.links@),
            final(self).network.nodes@ == old(self).network.nodes@,
            final(self).activity_engine.queue_spec() == old(self).activity_engine.queue_spec().take(
                final(self).activity_engine.queue_spec().len() as int,
            ),
            forall|i: int|
                final(self).activity_engine.queue_spec().len() <= i < old(self).activity_engine.queue_spec().len()
                    ==> final(self).events@[old(self).events@.len() + old(self).activity_engine.queue_spec().len() - 1 - i]
                    == (now, #[trigger] act_end_of(old(self).activity_engine.queue_spec()[i].1)),
    {
        let ghost oq = self.activity_engine.queue_spec();
        let mut agents = self.activity_engine.wake_up(now, &mut self.events);
        let ghost q1 = self.activity_engine.queue_spec();
        let ghost agents0 = agents@;
        let ghost evw = self.events@;
        proof {
            assert forall|i: int| q1.len() <= i < oq.len() implies evw[old(self).events@.len() + oq.len() - 1 - i] == (
            now,
            #[trigger] act_end_of(oq[i].1),
            ) by {
                let j = oq.len() - 1 - i;
                assert(agents0[j] == oq[i].1);
                assert(evw[old(self).events@.len() + j] == crate::activity_engine::act_end_events(agents0, now)[j]);
            }
        }
        assert(self.events@.take(old(self).events@.len() as int) =~= old(self).events@);
        assert forall|j: int| 0 <= j < agents0.len() && (#[trigger] agents0[j]).has_next() implies departs(
            oq,
            now,
            agents0[j],
        ) by {
            let i = oq.len() - 1 - j;
            assert(oq[i].1 == agents0[j]);
        }
        while agents.len() > 0
            invariant
                self.wf(),
                self.same_broker_config(old(self)),
                oq == old(self).activity_engine.queue_spec(),
                agents@ == agents0.take(agents@.len() as int),
                agents@.len() <= agents0.len(),
                forall|i: int| 0 <= i < agents0.len() ==> (#[trigger] agents0[i]).wf() && agents0[i].on_activity(),
                forall|j: int| 0 <= j < agents0.len() && (#[trigger] agents0[j]).has_next() ==> departs(oq, now, agents0[j]),
                forall|j: int|
                    agents@.len() <= j < agents0.len() && (#[trigger] agents0[j]).has_next() ==> self.events@.contains(
                        departure_of(agents0[j], now),
                    ),
                self.events@.len() >= old(self).events@.len(),
                self.events@.take(old(self).events@.len() as int) == old(self).events@,
                self.events@.len() >= evw.len(),
                self.events@.take(evw.len() as int) == evw,
                forall|i: int| q1.len() <= i < oq.len() ==> evw[old(self).events@.len() + oq.len() - 1 - i] == (
                    now,
                    #[trigger] act_end_of(oq[i].1),
                ),
                q1 == oq.take(q1.len() as int),
                evw.len() == old(self).events@.len() + agents0.len(),
                agents0.len() == oq.len() - q1.len(),
                self.activity_engine.queue_spec() == q1,
                forall|i: int| 0 <= i < q1.len() ==> (#[trigger] q1[i]).0 > now,
                same_shape(old(self).network.links@, self.network.links@),
                self.network.nodes@ == old(self).network.nodes@,
                self.garage.vehicle_types@ == old(self).garage.vehicle_types@,
                self.garage.vehicles@.len() == old(self).garage.vehicles@.len(),
                forall|id: int|
                    0 <= id < self.garage.vehicles@.len() && (#[trigger] self.garage.vehicles@[id]) is Some
                        ==> self.garage.vehicles@[id] == old(self).garage.vehicles@[id],
                forall|j: int|
                    agents@.len() <= j < agents0.len() && (#[trigger] agents0[j]).has_next() && departs_on_network(
                        *old(self),
                        agents0[j],
                    ) ==> network_departure(*self, agents0[j], now),
                forall|j: int|
                    agents@.len() <= j < agents0.len() && (#[trigger] agents0[j]).has_next() && teleports_remotely(
                        *old(self),
                        agents0[j],
                    ) ==> remote_handover(*self, agents0[j]),
                forall|j: int|
                    agents@.len() <= j < agents0.len() && (#[trigger] agents0[j]).has_next() && teleports_locally(
                        *old(self),
                        agents0[j],
                    ) ==> exists|v: Vehicle|
                        self.teleportation_q@.contains((teleport_end(agents0[j], now), v)) && v.id == route_vehicle(
                            next_leg(agents0[j]).route,
                        ) && v.driver.id == agents0[j].id,
            decreases agents@.len(),
        {
            let ghost ev0 = self.events@;
            let ghost net_before = self.network.links@;
            let ghost pre = *self;
            let ghost tq0 = self.teleportation_q@;
            let ghost before = agents@;
            let mut agent = agents.pop().unwrap();
            let ghost a0 = agent;
            let ghost jj = before.len() - 1;
            assert(agent == agents0[jj]);
            assert(agents@ =~= agents0.take(agents@.len() as int));
            if agent.curr_plan_elem >= agent.plan.len() - 1 {
                // the plan is done: the agent leaves the simulation
                continue;
            }
            agent.advance_plan();
            let leg = agent.curr_leg();
            let start_link = leg.route.start_link();
            let end_link = leg.route.end_link();
            let mode = leg.mode;
            let veh_id = leg.route.veh_id();
            let trav_time = leg.route.trav_time();
            let person = agent.id;
            self.events.publish_event(now, Event::Departure { person, link: start_link, mode });
            let ghost ev1 = self.events@;
            proof {
                assert(ev1.take(ev0.len() as int) =~= ev0);
                assert(ev1[ev1.len() - 1] == departure_of(a0, now));
                assert(ev1.contains(departure_of(a0, now)));
                assert(departs(oq, now, a0));
            }
            if !self.garage.is_parked_exec(veh_id) {
                return Err(SimError::VehicleNotParked { person, vehicle: veh_id });
            }
            let ghost slot = self.garage.vehicles@[veh_id as int];
            let ghost tl = teleports_locally(*old(self), a0);
            proof {
                assert(slot == old(self).garage.vehicles@[veh_id as int]);
                assert(route_vehicle(next_leg(a0).route) == veh_id);
                assert(route_links(next_leg(a0).route)[0] == start_link);
                assert(route_links(next_leg(a0).route).last() == end_link);
            }
            let vehicle = self.garage.unpark_veh(agent, veh_id);
            let tlen = self.garage.vehicle_types.len();
            assert(vehicle.veh_type < tlen);
            let lod = self.garage.vehicle_types[vehicle.veh_type as usize].lod;
            proof {
                assert(vehicle.veh_type == slot->Some_0.veh_type);
                assert(tl ==> lod == LevelOfDetail::Teleported);
            }
            match lod {
                LevelOfDetail::Network => {
                    self.events.publish_event(now, Event::PersonEntersVehicle { person, vehicle: vehicle.id });
                    self.events.publish_event(now, Event::LinkEnter { link: start_link, vehicle: vehicle.id });
                    let vid = vehicle.id;
                    let ghost vv = vehicle;
                    let ghost ev2 = self.events@;
                    if let Some(_) = self.network.send_veh_en_route(vehicle, now) {
                        return Err(SimError::LinkNotHere { vehicle: vid, link: start_link });
                    }
                    proof {
                        lemma_same_shape_trans2(old(self).network.links@, net_before, self.network.links@);
                        let sl = start_link as int;
                        assert(vv.curr_link_spec() == start_link);
                        assert(self.network.links@[sl]->Some_0.vehicles_spec() == net_before[sl]->Some_0.vehicles_spec().push(vv));
                        assert(self.network.links@[sl]->Some_0.vehicles_spec().contains(vv)) by {
                            let q = self.network.links@[sl]->Some_0.vehicles_spec();
                            assert(q[q.len() - 1] == vv);
                        }
                        assert forall|i: int| 0 <= i < net_before.len() && (#[trigger] net_before[i]) is Some implies self.network.links@[i] is Some
                            && forall|v: Vehicle|
                            net_before[i]->Some_0.vehicles_spec().contains(v) ==> self.network.links@[i]->Some_0.vehicles_spec().contains(
                                v,
                            ) by {
                            if i == sl {
                                assert forall|v: Vehicle| net_before[i]->Some_0.vehicles_spec().contains(v) implies self.network.links@[i]->Some_0.vehicles_spec().contains(
                                    v,
                                ) by {
                                    let k = choose|k: int| 0 <= k < net_before[i]->Some_0.vehicles_spec().len() && net_before[i]->Some_0.vehicles_spec()[k] == v;
                                    assert(self.network.links@[i]->Some_0.vehicles_spec()[k] == v);
                                }
                            } else {
                                assert(self.network.links@[i] == net_before[i]);
                            }
                        }
                        assert(links_grow(net_before, self.network.links@));
                        assert(self.events@[self.events@.len() - 2] == (now, Event::PersonEntersVehicle { person, vehicle: vid }));
                        assert(self.events@[self.events@.len() - 1] == (now, Event::LinkEnter { link: start_link, vehicle: vid }));
                        assert(network_departure(*self, a0, now));
                    }
                },
                LevelOfDetail::Teleported => {
                    if !self.message_broker.knows_link(start_link) {
                        return Err(SimError::UnknownLink { vehicle: vehicle.id, link: start_link });
                    }
                    if !self.message_broker.knows_link(end_link) {
                        return Err(SimError::UnknownLink { vehicle: vehicle.id, link: end_link });
                    }
                    let from = self.message_broker.rank_for_link(start_link);
                    let to = self.message_broker.rank_for_link(end_link);
                    if from == to {
                        let ghost vv = vehicle;
                        self.teleport(vehicle, now.saturating_add(trav_time));
                        proof {
                            assert(self.teleportation_q@.contains((teleport_end(a0, now), vv)));
                        }
                    } else {
                        assert(!tl);
                        let mut vehicle = vehicle;
                        assert(vehicle.route@ == route_links(next_leg(a0).route));
                        // the vehicle is handed over at the link where its leg ends
                        while vehicle.curr_route_elem < vehicle.route.len() - 1
                            invariant
                                vehicle.wf(),
                                vehicle.id == veh_id,
                                vehicle.route@ == route_links(next_leg(a0).route),
                                vehicle.driver.id == a0.id,
                                departs(oq, now, a0),
                                route_vehicle(next_leg(a0).route) == veh_id,
                                oq == old(self).activity_engine.queue_spec(),
                            decreases vehicle.route@.len() - vehicle.curr_route_elem,
                        {
                            vehicle.advance_route_index();
                        }
                        let last = vehicle.curr_link_id();
                        if !self.message_broker.knows_link(last) {
                            return Err(SimError::UnknownLink { vehicle: vehicle.id, link: last });
                        }
                        let ghost hv = vehicle;
                        self.message_broker.add_veh(vehicle, now);
                        proof {
                            assert(hv.curr_link_spec() == end_link);
                            let (i, j) = choose|i: int, j: int|
                                0 <= i < self.message_broker.out_spec().len() && self.message_broker.out_spec()[i].to_process
                                    == old(self).message_broker.mapping_spec()[hv.curr_link_spec() as int] && 0 <= j
                                    < self.message_broker.out_spec()[i].vehicles@.len() && #[trigger] self.message_broker.out_spec()[i].vehicles@[j]
                                    == hv;
                            assert(handed_over(
                                self.message_broker.out_spec(),
                                self.message_broker.mapping_spec()[end_link as int],
                                veh_id,
                                end_link,
                                a0.id,
                            ));
                        }
                    }
                },
            }
            proof {
                if !links_grow(net_before, self.network.links@) {
                    assert(self.network.links@ == net_before);
                    assert(links_grow(net_before, net_before));
                }
                assert(self.events@.take(ev0.len() as int) =~= ev0);
                assert(crate::message_broker::out_grows(pre.message_broker.out_spec(), self.message_broker.out_spec())) by {
                    if pre.message_broker.out_spec() == self.message_broker.out_spec() {
                        let o = pre.message_broker.out_spec();
                        assert forall|i: int| 0 <= i < o.len() implies (#[trigger] o[i]).to_process == o[i].to_process && forall|v: Vehicle|
                            o[i].vehicles@.contains(v) ==> o[i].vehicles@.contains(v) by {}
                    }
                }
                assert forall|j: int|
                    agents@.len() <= j < agents0.len() && (#[trigger] agents0[j]).has_next() && teleports_remotely(
                        *old(self),
                        agents0[j],
                    ) implies remote_handover(*self, agents0[j]) by {
                    if j != jj {
                        let leg = next_leg(agents0[j]);
                        let end = route_links(leg.route).last();
                        lemma_handed_over_kept(
                            pre.message_broker.out_spec(),
                            self.message_broker.out_spec(),
                            self.message_broker.mapping_spec()[end as int],
                            route_vehicle(leg.route),
                            end,
                            agents0[j].id,
                        );
                    }
                }
                assert forall|j: int|
                    agents@.len() <= j < agents0.len() && (#[trigger] agents0[j]).has_next() && departs_on_network(
                        *old(self),
                        agents0[j],
                    ) implies network_departure(*self, agents0[j], now) by {
                    if j != jj {
                        lemma_network_departure_kept(pre, *self, agents0[j], now);
                    }
                }
                assert(forall|x: (u32, Vehicle)| tq0.contains(x) ==> self.teleportation_q@.contains(x));
                assert forall|j: int|
                    agents@.len() <= j < agents0.len() && (#[trigger] agents0[j]).has_next() && teleports_locally(
                        *old(self),
                        agents0[j],
                    ) implies exists|v: Vehicle|
                        self.teleportation_q@.contains((teleport_end(agents0[j], now), v)) && v.id == route_vehicle(
                            next_leg(agents0[j]).route,
                        ) && v.driver.id == agents0[j].id by {
                    if j != jj {
                        let v = choose|v: Vehicle|
                            tq0.contains((teleport_end(agents0[j], now), v)) && v.id == route_vehicle(
                                next_leg(agents0[j]).route,
                            ) && v.driver.id == agents0[j].id;
                        assert(self.teleportation_q@.contains((teleport_end(agents0[j], now), v)));
                    }
                }
                assert(self.events@.len() >= ev1.len());
                assert(self.events@.take(ev1.len() as int) =~= ev1);
                assert(self.events@.take(evw.len() as int) =~= evw);
                assert(self.events@.take(old(self).events@.len() as int) =~= old(self).events@);
                lemma_contains_prefix(ev1, self.events@, departure_of(a0, now));
                assert(self.events@.take(ev0.len() as int) =~= ev0);
                assert forall|j: int|
                    agents@.len() <= j < agents0.len() && (#[trigger] agents0[j]).has_next() implies self.events@.contains(
                        departure_of(agents0[j], now),
                    ) by {
                    if j != jj {
                        lemma_contains_prefix(ev0, self.events@, departure_of(agents0[j], now));
                    }
                }
            }
        }
        proof {
            assert forall|i: int|
                0 <= i < oq.len() && oq[i].0 <= now && (#[trigger] oq[i]).1.has_next() implies self.events@.contains(
                    departure_of(oq[i].1, now),
                ) by {
                assert(i >= q1.len()) by {
                    if i < q1.len() {
                        assert(q1[i] == oq[i]);
                    }
                }
                let j = oq.len() - 1 - i;
                assert(agents0[j] == oq[i].1);
            }
            assert forall|i: int|
                0 <= i < oq.len() && oq[i].0 <= now && (#[trigger] oq[i]).1.has_next() && teleports_remotely(*old(self), oq[i].1)
                implies remote_handover(*self, oq[i].1) by {
                assert(i >= q1.len()) by {
                    if i < q1.len() {
                        assert(q1[i] == oq[i]);
                    }
                }
                let j = oq.len() - 1 - i;
                assert(agents0[j] == oq[i].1);
            }
            assert forall|i: int|
                0 <= i < oq.len() && oq[i].0 <= now && (#[trigger] oq[i]).1.has_next() && departs_on_network(*old(self), oq[i].1)
                implies network_departure(*self, oq[i].1, now) by {
                assert(i >= q1.len()) by {
                    if i < q1.len() {
                        assert(q1[i] == oq[i]);
                    }
                }
                let j = oq.len() - 1 - i;
                assert(agents0[j] == oq[i].1);
            }
            assert forall|i: int|
                0 <= i < oq.len() && oq[i].0 <= now && (#[trigger] oq[i]).1.has_next() && teleports_locally(*old(self), oq[i].1)
                implies exists|v: Vehicle|
                self.teleportation_q@.contains((teleport_end(oq[i].1, now), v)) && v.id == route_vehicle(next_leg(oq[i].1).route)
                    && v.driver.id == oq[i].1.id by {
                assert(i >= q1.len()) by {
                    if i < q1.len() {
                        assert(q1[i] == oq[i]);
                    }
                }
                let j = oq.len() - 1 - i;
                assert(agents0[j] == oq[i].1);
            }
            assert forall|i: int| q1.len() <= i < oq.len() implies self.events@[old(self).events@.len() + oq.len() - 1 - i]
                == (now, #[trigger] act_end_of(oq[i].1)) by {
                let k = old(self).events@.len() + oq.len() - 1 - i;
                assert(self.events@.take(evw.len() as int)[k] == self.events@[k]);
            }
        }
        Ok(())
    }

    /// Lets the driver of `vehicle`, whose leg is done, out at the garage and on to
    /// the activity after the leg.
    fn arrive(&mut self, vehicle: Vehicle, now: u32)
        requires
            old(self).wf(),
            vehicle.wf(),
        ensures
            final(self).activity_engine.queue_spec().len() == old(self).activity_engine.queue_spec().len() + 1,
            final(self).events@.len() == old(self).events@.len() + 2,
            final(self).events@ == old(self).events@ + arrival_events(vehicle, now),
            queued_after_leg(final(self).activity_engine.queue_spec(), vehicle, now),
            forall|x: (u32, Agent)|
                old(self).activity_engine.queue_spec().contains(x) ==> final(self).activity_engine.queue_spec().contains(x),
            vehicle.veh_type < old(self).garage.vehicle_types@.len() ==> final(self).garage.is_parked(vehicle.id as int),
            forall|id: int| old(self).garage.is_parked(id) ==> final(self).garage.is_parked(id),
            final(self).garage.vehicle_types@ == old(self).garage.vehicle_types@,
            final(self).network == old(self).network,
            final(self).teleportation_q == old(self).teleportation_q,
            final(self).message_broker == old(self).message_broker,
            final(self).events@.take(old(self).events@.len() as int) == old(self).events@,
            final(self).same_broker_config(old(self)),
            final(self).wf(),
    {
        let mut agent = self.garage.park_veh(vehicle);
        agent.advance_plan();
        let ghost e0 = self.events@;
        let ghost q0 = self.activity_engine.queue_spec();
        let ghost ag = agent;
        self.activity_engine.receive_agent(now, agent, &mut self.events);
        proof {
            let q1 = self.activity_engine.queue_spec();
            let k = choose|k: int| 0 <= k <= q0.len() && #[trigger] q0.insert(k, (activity_end(ag.curr_act_spec(), now as int) as u32, ag)) == q1;
            assert(q1[k] == (activity_end(ag.curr_act_spec(), now as int) as u32, ag));
            assert(activity_end(ag.curr_act_spec(), now as int) <= u32::MAX);
            assert(queued_after_leg(q1, vehicle, now));
            assert forall|x: (u32, Agent)| q0.contains(x) implies q1.contains(x) by {
                let m = choose|m: int| 0 <= m < q0.len() && q0[m] == x;
                if m < k {
                    assert(q1[m] == x);
                } else {
                    assert(q1[m + 1] == x);
                }
            }
        }
        assert(self.events@.take(e0.len() as int) =~= e0);
        assert(self.events@ =~= e0 + arrival_events(vehicle, now));
    }

    /// Ends the teleported legs due at `now`: each driver travelled, arrives, and
    /// starts the activity after the leg.
    pub fn terminate_teleportation(&mut self, now: u32)
        requires
            old(self).wf(),
        ensures
            final(self).teleportation_q@ == old(self).teleportation_q@.take(final(self).teleportation_q@.len() as int),
            forall|i: int|
                0 <= i < final(self).teleportation_q@.len() ==> (#[trigger] final(self).teleportation_q@[i]).0 > now,
            forall|i: int|
                final(self).teleportation_q@.len() <= i < old(self).teleportation_q@.len()
                    ==> (#[trigger] old(self).teleportation_q@[i]).0 <= now,
            final(self).teleportation_q@.len() + final(self).activity_engine.queue_spec().len()
                == old(self).teleportation_q@.len() + old(self).activity_engine.queue_spec().len(),
            final(self).events@.len() == old(self).events@.len() + 3 * (old(self).teleportation_q@.len()
                - final(self).teleportation_q@.len()),
            final(self).events@.take(old(self).events@.len() as int) == old(self).events@,
            final(self).events@ == old(self).events@ + teleport_events(
                old(self).teleportation_q@.skip(final(self).teleportation_q@.len() as int),
                now,
            ),
            forall|i: int|
                final(self).teleportation_q@.len() <= i < old(self).teleportation_q@.len() && (#[trigger] old(
                    self,
                ).teleportation_q@[i]).1.veh_type < old(self).garage.vehicle_types@.len() ==> final(self).garage.is_parked(
                    old(self).teleportation_q@[i].1.id as int,
                ),
            forall|i: int|
                final(self).teleportation_q@.len() <= i < old(self).teleportation_q@.len() ==> queued_after_leg(
                    final(self).activity_engine.queue_spec(),
                    #[trigger] old(self).teleportation_q@[i].1,
                    now,
                ),
            final(self).network == old(self).network,
            final(self).same_broker_config(old(self)),
            final(self).wf(),
    {
        let ghost q0 = self.teleportation_q@;
        let mut vehicles = self.teleportation_q.pop(now);
        assert forall|i: int| 0 <= i < self.teleportation_q@.len() implies (#[trigger] self.teleportation_q@[i]).1.wf() by {
            assert(self.teleportation_q@[i] == q0[i]);
        }
        assert forall|j: int| 0 <= j < vehicles@.len() implies (#[trigger] vehicles@[j]).wf() by {
            assert(vehicles@[j] == q0[q0.len() - 1 - j].1);
        }
        let ghost q1 = self.teleportation_q@;
        let ghost n_due = vehicles@.len();
        while vehicles.len() > 0
            invariant
                self.wf(),
                self.same_broker_config(old(self)),
                forall|j: int| 0 <= j < vehicles@.len() ==> (#[trigger] vehicles@[j]).wf(),
                self.teleportation_q@ == q1,
                self.network == old(self).network,
                n_due == old(self).teleportation_q@.len() - q1.len(),
                vehicles@.len() <= n_due,
                self.activity_engine.queue_spec().len() + vehicles@.len() == old(self).activity_engine.queue_spec().len()
                    + n_due,
                self.events@.len() == old(self).events@.len() + 3 * (n_due - vehicles@.len()),
                self.events@.take(old(self).events@.len() as int) == old(self).events@,
                q1 == q0.take(q1.len() as int),
                q0 == old(self).teleportation_q@,
                q1.len() + n_due == q0.len(),
                forall|j: int| 0 <= j < vehicles@.len() ==> #[trigger] vehicles@[j] == q0[q0.len() - 1 - j].1,
                self.events@ == old(self).events@ + teleport_events(
                    q0.subrange(q1.len() as int, q1.len() + n_due - vehicles@.len()),
                    now,
                ),
                self.garage.vehicle_types@ == old(self).garage.vehicle_types@,
                forall|i: int|
                    q1.len() <= i < q1.len() + n_due - vehicles@.len() && (#[trigger] q0[i]).1.veh_type
                        < old(self).garage.vehicle_types@.len() ==> self.garage.is_parked(q0[i].1.id as int),
                forall|i: int|
                    q1.len() <= i < q1.len() + n_due - vehicles@.len() ==> queued_after_leg(
                        self.activity_engine.queue_spec(),
                        #[trigger] q0[i].1,
                        now,
                    ),
            decreases vehicles@.len(),
        {
            let ghost before = vehicles@;
            let vehicle = vehicles.pop().unwrap();
            assert(vehicle == before[before.len() - 1]);
            let ghost m = n_due - before.len();
            let ghost done = q0.subrange(q1.len() as int, q1.len() + m);
            let ghost done2 = q0.subrange(q1.len() as int, q1.len() + m + 1);
            assert(done2.drop_last() =~= done);
            assert(done2.last().1 == vehicle);
            let leg = vehicle.driver.curr_leg();
            let person = vehicle.driver.id;
            let mode = leg.mode;
            let distance = leg.route.distance();
            let ghost e0 = self.events@;
            self.events.publish_event(now, Event::Travelled { person, distance, mode });
            let ghost vv = vehicle;
            let ghost aq0 = self.activity_engine.queue_spec();
            self.arrive(vehicle, now);
            assert(self.events@.take(old(self).events@.len() as int) =~= e0.take(old(self).events@.len() as int));
            assert(self.events@ =~= old(self).events@ + teleport_events(done2, now));
            proof {
                assert forall|i: int|
                    q1.len() <= i < q1.len() + m + 1 implies queued_after_leg(
                        self.activity_engine.queue_spec(),
                        #[trigger] q0[i].1,
                        now,
                    ) by {
                    if i < q1.len() + m {
                        lemma_queued_kept(aq0, self.activity_engine.queue_spec(), q0[i].1, now);
                    } else {
                        assert(q0[i].1 == vv);
                    }
                }
                assert forall|i: int|
                    q1.len() <= i < q1.len() + m + 1 && (#[trigger] q0[i]).1.veh_type < old(self).garage.vehicle_types@.len()
                        implies self.garage.is_parked(q0[i].1.id as int) by {
                    if i == q1.len() + m {
                        assert(q0[i].1 == vv);
                    }
                }
            }
            assert forall|j: int| 0 <= j < vehicles@.len() implies #[trigger] vehicles@[j] == q0[q0.len() - 1 - j].1 by {
                assert(vehicles@[j] == before[j]);
            }
        }
        assert(q0.subrange(q1.len() as int, (q1.len() + n_due) as int) =~= q0.skip(q1.len() as int));
    }

    /// Moves vehicles across the nodes of the partition, until no node can move one
    /// more at `now`; the drivers of those that reached the end of their routes leave
    /// their vehicles, arrive, and start their next activity.
    pub fn move_nodes(&mut self, now: u32)
        requires
            old(self).wf(),
        ensures
            all_nodes_done(final(self).network.nodes@, final(self).network.links@, now as int),
            final(self).network.nodes@ == old(self).network.nodes@,
            same_shape(old(self).network.links@, final(self).network.links@),
            final(self).network.count() + final(self).activity_engine.queue_spec().len()
                == old(self).network.count() + old(self).activity_engine.queue_spec().len(),
            final(self).teleportation_q == old(self).teleportation_q,
            final(self).events@.take(old(self).events@.len() as int) == old(self).events@,
            final(self).events@.len() >= old(self).events@.len(),
            final(self).same_broker_config(old(self)),
            final(self).wf(),
            exists|ls: Seq<Seq<Option<SimLink>>>, es: Seq<Seq<(u32, Event)>>, xs: Seq<Seq<Vehicle>>|
                #[trigger] node_run(ls, es, xs, now) && ls[0] == old(self).network.links@ && ls.last()
                    == final(self).network.links@ && es[0] == old(self).events@ && xs[0] == Seq::<Vehicle>::empty()
                    && final(self).events@ == es.last() + exit_events(xs.last(), now),
    {
        let ghost e_start = self.events@;
        let mut exited = self.network.move_nodes(&mut self.events, now);
        let ghost net1 = self.network;
        let ghost ex_all = exited@;
        let ghost e_nodes = self.events@;
        let ghost (ls, es, xs) = choose|ls: Seq<Seq<Option<SimLink>>>, es: Seq<Seq<(u32, Event)>>, xs: Seq<Seq<Vehicle>>|
            #[trigger] node_run(ls, es, xs, now) && ls[0] == old(self).network.links@ && ls.last() == net1.links@ && es[0]
                == old(self).events@ && es.last() == e_nodes && xs[0] == Seq::<Vehicle>::empty() && xs.last() == ex_all;
        assert(ex_all.skip(ex_all.len() as int) =~= Seq::<Vehicle>::empty());
        assert(exit_events(Seq::<Vehicle>::empty(), now) == Seq::<(u32, Event)>::empty());
        assert(self.events@ =~= e_nodes + exit_events(ex_all.skip(exited@.len() as int), now));
        while exited.len() > 0
            invariant
                self.wf(),
                self.same_broker_config(old(self)),
                forall|j: int| 0 <= j < exited@.len() ==> (#[trigger] exited@[j]).wf(),
                self.network == net1,
                self.teleportation_q == old(self).teleportation_q,
                self.events@.len() >= old(self).events@.len(),
                same_shape(old(self).network.links@, net1.links@),
                all_nodes_done(net1.nodes@, net1.links@, now as int),
                net1.nodes@ == old(self).network.nodes@,
                self.events@.take(old(self).events@.len() as int) == old(self).events@,
                self.network.count() + self.activity_engine.queue_spec().len() + exited@.len()
                    == old(self).network.count() + old(self).activity_engine.queue_spec().len(),
                exited@ == ex_all.take(exited@.len() as int),
                exited@.len() <= ex_all.len(),
                self.events@ == e_nodes + exit_events(ex_all.skip(exited@.len() as int), now),
            decreases exited@.len(),
        {
            let ghost before = exited@;
            let vehicle = exited.pop().unwrap();
            assert(vehicle == before[before.len() - 1]);
            assert(exited@ =~= ex_all.take(exited@.len() as int));
            let ghost e0 = self.events@;
            self.events.publish_event(
                now,
                Event::PersonLeavesVehicle { person: vehicle.driver.id, vehicle: vehicle.id },
            );
            let ghost vv = vehicle;
            self.arrive(vehicle, now);
            assert(self.events@.take(old(self).events@.len() as int) =~= e0.take(old(self).events@.len() as int));
            proof {
                let j = exited@.len() as int;
                assert(ex_all.skip(j) =~= seq![vv] + ex_all.skip(j + 1));
                lemma_exit_events_front(vv, ex_all.skip(j + 1), now);
                assert(self.events@ =~= e_nodes + exit_events(ex_all.skip(j), now));
            }
        }
        assert(ex_all.skip(0) =~= ex_all);
    }

    /// Refills and frees capacity on the links, and hands what leaves the partition
    /// to the message broker: the vehicles of the upstream ends of split links, and
    /// the occupancy reports of the downstream ends. Fails where a vehicle handed
    /// over is on a link that no partition holds.
    pub fn move_links(&mut self, now: u32) -> (r: Result<(), SimError>)
        requires
            old(self).wf(),
        ensures
            final(self).same_broker_config(old(self)),
            final(self).wf(),
            final(self).events@ == old(self).events@,
            final(self).network.nodes@ == old(self).network.nodes@,
            forall|i: int|
                0 <= i < old(self).network.links@.len() ==> #[trigger] moved_link(
                    old(self).network.links@[i],
                    final(self).network.links@[i],
                    now as int,
                ),
            (r is Err) == exists|j: int|
                0 <= j < outbound_vehicles(old(self).network.links@).len() && (#[trigger] outbound_vehicles(
                    old(self).network.links@,
                )[j]).curr_link_spec() >= old(self).message_broker.mapping_spec().len(),
            r matches Err(e) ==> e is UnknownLink,
            r matches Err(SimError::UnknownLink { vehicle, link }) ==> link >= old(self).message_broker.mapping_spec().len()
                && exists|j: int|
                0 <= j < outbound_vehicles(old(self).network.links@).len() && (#[trigger] outbound_vehicles(
                    old(self).network.links@,
                )[j]).id == vehicle && outbound_vehicles(old(self).network.links@)[j].curr_link_spec() == link,
            final(self).teleportation_q == old(self).teleportation_q,
            final(self).network.links@.len() == old(self).network.links@.len(),
    {
        let (mut vehicles, mut caps) = self.network.move_links(now);
        let ghost out = vehicles@;
        proof {
            crate::sim_network::lemma_outbound_wf(old(self).network.links@);
        }
        let ghost net1 = self.network;
        let ghost mlen = self.message_broker.mapping_spec().len();
        while vehicles.len() > 0
            invariant
                self.wf(),
                self.same_broker_config(old(self)),
                mlen == old(self).message_broker.mapping_spec().len(),
                out == outbound_vehicles(old(self).network.links@),
                forall|j: int| 0 <= j < out.len() ==> (#[trigger] out[j]).wf(),
                vehicles@ == out.take(vehicles@.len() as int),
                vehicles@.len() <= out.len(),
                forall|j: int| vehicles@.len() <= j < out.len() ==> (#[trigger] out[j]).curr_link_spec() < mlen,
                self.teleportation_q == old(self).teleportation_q,
                self.network == net1,
                net1.nodes@ == old(self).network.nodes@,
                net1.links@.len() == old(self).network.links@.len(),
                forall|i: int|
                    0 <= i < old(self).network.links@.len() ==> #[trigger] moved_link(
                        old(self).network.links@[i],
                        net1.links@[i],
                        now as int,
                    ),
                self.events@ == old(self).events@,
            decreases vehicles@.len(),
        {
            let ghost before = vehicles@;
            let vehicle = vehicles.pop().unwrap();
            assert(vehicle == out[before.len() - 1]);
            assert(vehicles@ =~= out.take(vehicles@.len() as int));
            let link = vehicle.curr_link_id();
            if !self.message_broker.knows_link(link) {
                assert(out[before.len() - 1] == vehicle);
                return Err(SimError::UnknownLink { vehicle: vehicle.id, link });
            }
            self.message_broker.add_veh(vehicle, now);
        }
        while caps.len() > 0
            invariant
                self.wf(),
                self.same_broker_config(old(self)),
                self.network == net1,
                self.teleportation_q == old(self).teleportation_q,
                self.events@ == old(self).events@,
                net1.nodes@ == old(self).network.nodes@,
                net1.links@.len() == old(self).network.links@.len(),
                forall|i: int|
                    0 <= i < old(self).network.links@.len() ==> #[trigger] moved_link(
                        old(self).network.links@[i],
                        net1.links@[i],
                        now as int,
                    ),
                forall|j: int| 0 <= j < out.len() ==> (#[trigger] out[j]).curr_link_spec() < mlen,
                mlen == old(self).message_broker.mapping_spec().len(),
                out == outbound_vehicles(old(self).network.links@),
            decreases caps@.len(),
        {
            let cap = caps.pop().unwrap();
            self.message_broker.add_cap(cap, now);
        }
        Ok(())
    }

    /// The first half of tick `now`: wakes agents up, ends teleported legs, moves
    /// vehicles across nodes and links. Returns the messages for the other
    /// partitions, one at least to each neighbor.
    pub fn before_sync(&mut self, now: u32) -> (r: Result<Vec<SyncMessage>, SimError>)
        requires
            old(self).wf(),
        ensures
            final(self).wf(),
            r matches Ok(msgs) ==> forall|p: u32|
                old(self).message_broker.neighbors_spec().contains(p) ==> crate::message_broker::has_msg(msgs@, p),
            r is Ok ==> forall|i: int|
                0 <= i < final(self).teleportation_q@.len() ==> (#[trigger] final(self).teleportation_q@[i]).0 > now,
            r is Ok ==> exists|mid: Seq<Option<SimLink>>|
                all_nodes_done(old(self).network.nodes@, mid, now as int) && mid.len() == final(self).network.links@.len()
                    && forall|i: int| 0 <= i < mid.len() ==> #[trigger] moved_link(mid[i], final(self).network.links@[i], now as int),
            r matches Err(e) ==> wakeup_error(
                e,
                old(self).activity_engine.queue_spec(),
                now,
                old(self).message_broker.mapping_spec().len(),
                *final(self),
            ) || (e matches SimError::UnknownLink { vehicle, link } && link >= old(self).message_broker.mapping_spec().len()
                && exists|mid: Seq<Option<SimLink>>|
                same_shape(old(self).network.links@, mid) && exists|j: int|
                    0 <= j < outbound_vehicles(mid).len() && (#[trigger] outbound_vehicles(mid)[j]).id == vehicle
                        && outbound_vehicles(mid)[j].curr_link_spec() == link),
            r is Ok ==> forall|i: int|
                0 <= i < old(self).activity_engine.queue_spec().len() && old(self).activity_engine.queue_spec()[i].0
                    <= now && (#[trigger] old(self).activity_engine.queue_spec()[i]).1.has_next()
                    ==> final(self).events@.contains(departure_of(old(self).activity_engine.queue_spec()[i].1, now)),
            r is Ok ==> forall|i: int|
                0 <= i < old(self).activity_engine.queue_spec().len() && old(self).activity_engine.queue_spec()[i].0
                    <= now && (#[trigger] old(self).activity_engine.queue_spec()[i]).1.has_next() && departs_on_network(
                    *old(self),
                    old(self).activity_engine.queue_spec()[i].1,
                ) ==> final(self).events@.contains(
                    (
                        now,
                        Event::PersonEntersVehicle {
                            person: old(self).activity_engine.queue_spec()[i].1.id,
                            vehicle: route_vehicle(next_leg(old(self).activity_engine.queue_spec()[i].1).route),
                        },
                    ),
                ) && final(self).events@.contains(
                    (
                        now,
                        Event::LinkEnter {
                            link: route_links(next_leg(old(self).activity_engine.queue_spec()[i].1).route)[0],
                            vehicle: route_vehicle(next_leg(old(self).activity_engine.queue_spec()[i].1).route),
                        },
                    ),
                ),
    {
        let ghost oq = self.activity_engine.queue_spec();
        self.wakeup(now)?;
        let ghost woke = *self;
        let ghost w = self.network.links@;
        self.terminate_teleportation(now);
        let ghost ev_t = self.events@;
        self.move_nodes(now);
        let ghost ev_n = self.events@;
        proof {
            assert(ev_t.take(woke.events@.len() as int) == woke.events@);
            assert(ev_n.take(woke.events@.len() as int) =~= ev_t.take(woke.events@.len() as int));
        }
        let ghost mid = self.network.links@;
        proof {
            lemma_same_shape_trans2(old(self).network.links@, w, w);
        }
        proof {
            lemma_same_shape_trans2(old(self).network.links@, w, mid);
        }
        let moved = self.move_links(now);
        proof {
            if moved is Ok {
                assert(all_nodes_done(old(self).network.nodes@, mid, now as int));
                assert(mid.len() == self.network.links@.len());
                assert(forall|i: int| 0 <= i < mid.len() ==> #[trigger] moved_link(mid[i], self.network.links@[i], now as int));
            }
        }
        moved?;
        proof {
            assert(self.events@.len() >= woke.events@.len());
            assert(self.events@.take(woke.events@.len() as int) =~= woke.events@);
            assert forall|i: int|
                0 <= i < oq.len() && oq[i].0 <= now && (#[trigger] oq[i]).1.has_next() implies self.events@.contains(
                    departure_of(oq[i].1, now),
                ) by {
                lemma_contains_prefix(woke.events@, self.events@, departure_of(oq[i].1, now));
            }
            assert forall|i: int|
                0 <= i < oq.len() && oq[i].0 <= now && (#[trigger] oq[i]).1.has_next() && departs_on_network(*old(self), oq[i].1)
                implies self.events@.contains(
                (now, Event::PersonEntersVehicle { person: oq[i].1.id, vehicle: route_vehicle(next_leg(oq[i].1).route) }),
            ) && self.events@.contains(
                (
                    now,
                    Event::LinkEnter {
                        link: route_links(next_leg(oq[i].1).route)[0],
                        vehicle: route_vehicle(next_leg(oq[i].1).route),
                    },
                ),
            ) by {
                assert(network_departure(woke, oq[i].1, now));
                lemma_contains_prefix(
                    woke.events@,
                    self.events@,
                    (now, Event::PersonEntersVehicle { person: oq[i].1.id, vehicle: route_vehicle(next_leg(oq[i].1).route) }),
                );
                lemma_contains_prefix(
                    woke.events@,
                    self.events@,
                    (
                        now,
                        Event::LinkEnter {
                            link: route_links(next_leg(oq[i].1).route)[0],
                            vehicle: route_vehicle(next_leg(oq[i].1).route),
                        },
                    ),
                );
            }
        }
        Ok(self.message_broker.prepare_send_recv_vehicles(now))
    }

    /// The second half of tick `now`, once every neighbor's message has come in:
    /// mirrors the reported occupancies and takes in the vehicles that other
    /// partitions handed over, from the next tick on: onto their link, or into the
    /// teleportation queue until the end of their travel time. Fails on a report of a
    /// link whose upstream end is not here, or a vehicle that is not well formed, of
    /// an unknown type, or on a link it cannot be put on here.
    pub fn after_sync(&mut self, now: u32) -> (r: Result<(), SimError>)
        requires
            old(self).wf(),
            now < u32::MAX,
        ensures
            r is Ok ==> final(self).message_broker.received_spec().len() == 0,
            r is Ok ==> forall|k: int|
                0 <= k < old(self).message_broker.received_spec().len() ==> msg_accepted(
                    #[trigger] old(self).message_broker.received_spec()[k],
                    *old(self),
                ),
            r matches Err(e) ==> after_sync_error(e, old(self).message_broker.received_spec(), *old(self), *final(self)),
            r is Ok ==> final(self).network.count() + final(self).teleportation_q@.len() == old(self).network.count()
                + old(self).teleportation_q@.len() + msgs_vehicles(old(self).message_broker.received_spec()),
            r is Ok ==> forall|k: int, q: int|
                0 <= k < old(self).message_broker.received_spec().len() && 0 <= q < old(self).message_broker.received_spec()[k].vehicles@.len()
                    ==> taken_in(
                    *final(self),
                    old(self).garage.vehicle_types@,
                    #[trigger] old(self).message_broker.received_spec()[k].vehicles@[q],
                    now,
                ),
            final(self).same_broker_config(old(self)),
            final(self).wf(),
    {
        let next = now + 1;
        let ghost msgs0 = self.message_broker.received_spec();
        let mut msgs = self.message_broker.take_received();
        let ghost ntypes = self.garage.vehicle_types@.len();
        while msgs.len() > 0
            invariant
                self.wf(),
                self.same_broker_config(old(self)),
                self.message_broker.received_spec().len() == 0,
                next == now + 1,
                msgs0 == old(self).message_broker.received_spec(),
                msgs@ == msgs0.take(msgs@.len() as int),
                msgs@.len() <= msgs0.len(),
                same_shape(old(self).network.links@, self.network.links@),
                self.garage.vehicle_types@ == old(self).garage.vehicle_types@,
                forall|k: int| msgs@.len() <= k < msgs0.len() ==> msg_accepted(#[trigger] msgs0[k], *old(self)),
                self.network.count() + self.teleportation_q@.len() + msgs_vehicles(msgs@) == old(self).network.count()
                    + old(self).teleportation_q@.len() + msgs_vehicles(msgs0),
                forall|k: int, q: int|
                    msgs@.len() <= k < msgs0.len() && 0 <= q < msgs0[k].vehicles@.len() ==> taken_in(
                        *self,
                        old(self).garage.vehicle_types@,
                        #[trigger] msgs0[k].vehicles@[q],
                        now,
                    ),
            decreases msgs@.len(),
        {
            let ghost before = msgs@;
            let mut msg = msgs.pop().unwrap();
            let ghost kk = before.len() - 1;
            let ghost m0 = msg;
            assert(msg == msgs0[kk]);
            assert(msgs@ =~= msgs0.take(msgs@.len() as int));
            assert(before.drop_last() =~= msgs@);
            let ghost base = self.network.count() + self.teleportation_q@.len() + msgs_vehicles(msgs@) + m0.vehicles@.len();
            proof {
                lemma_out_links_same_shape(old(self).network.links@, self.network.links@);
            }
            if !self.network.reports_apply(&msg.storage_capacities) {
                proof {
                    let j = choose|j: int|
                        0 <= j < msg.storage_capacities@.len() && !self.network.is_out_link(
                            #[trigger] msg.storage_capacities@[j].link_id as int,
                        );
                    assert(msgs0[kk].storage_capacities@[j] == msg.storage_capacities@[j]);
                }
                return Err(SimError::UnexpectedStorageReport { from_process: msg.from_process });
            }
            let ghost pre_caps = *self;
            self.network.update_storage_caps(&msg.storage_capacities);
            proof {
                assert forall|k: int, q: int|
                    msgs@.len() + 1 <= k < msgs0.len() && 0 <= q < msgs0[k].vehicles@.len() implies taken_in(
                        *self,
                        old(self).garage.vehicle_types@,
                        #[trigger] msgs0[k].vehicles@[q],
                        now,
                    ) by {
                    lemma_taken_in_kept(pre_caps, *self, old(self).garage.vehicle_types@, msgs0[k].vehicles@[q], now);
                }
            }
            let ghost s1 = self.network.links@;
            proof {
                lemma_same_shape_trans2(old(self).network.links@, pre_caps.network.links@, s1);
            }
            while msg.vehicles.len() > 0
                invariant
                    self.wf(),
                    self.same_broker_config(old(self)),
                    self.message_broker.received_spec().len() == 0,
                    next == now + 1,
                    msg.vehicles@ == m0.vehicles@.take(msg.vehicles@.len() as int),
                    msg.vehicles@.len() <= m0.vehicles@.len(),
                    msg.from_process == m0.from_process,
                    0 <= kk < msgs0.len(),
                    m0 == msgs0[kk],
                    msgs0 == old(self).message_broker.received_spec(),
                    same_shape(old(self).network.links@, self.network.links@),
                    self.garage.vehicle_types@ == old(self).garage.vehicle_types@,
                    forall|q: int|
                        msg.vehicles@.len() <= q < m0.vehicles@.len() ==> vehicle_accepted(
                            #[trigger] m0.vehicles@[q],
                            *old(self),
                        ),
                    self.network.count() + self.teleportation_q@.len() + msgs_vehicles(msgs@) + msg.vehicles@.len()
                        == base,
                    kk == msgs@.len(),
                    forall|k: int, q: int|
                        kk < k < msgs0.len() && 0 <= q < msgs0[k].vehicles@.len() ==> taken_in(
                            *self,
                            old(self).garage.vehicle_types@,
                            #[trigger] msgs0[k].vehicles@[q],
                            now,
                        ),
                    forall|q: int|
                        msg.vehicles@.len() <= q < m0.vehicles@.len() ==> taken_in(
                            *self,
                            old(self).garage.vehicle_types@,
                            #[trigger] m0.vehicles@[q],
                            now,
                        ),
                decreases msg.vehicles@.len(),
            {
                let ghost vb = msg.vehicles@;
                let vehicle = msg.vehicles.pop().unwrap();
                let ghost qq = vb.len() - 1;
                assert(vehicle == m0.vehicles@[qq]);
                assert(msg.vehicles@ =~= m0.vehicles@.take(msg.vehicles@.len() as int));
                assert(msgs0[kk].vehicles@[qq] == vehicle);
                if !vehicle.is_valid() {
                    return Err(SimError::InvalidVehicle { vehicle: vehicle.id });
                }
                if vehicle.veh_type >= self.garage.vehicle_types.len() as u64 {
                    return Err(SimError::UnknownVehicleType { vehicle: vehicle.id });
                }
                let lod = self.garage.vehicle_types[vehicle.veh_type as usize].lod;
                let ghost l0 = self.network.links@;
                let ghost pre = *self;
                let ghost vv = vehicle;
                match lod {
                    LevelOfDetail::Network => {
                        let vid = vehicle.id;
                        let link = vehicle.curr_link_id();
                        if let Some(_) = self.network.send_veh_en_route(vehicle, next) {
                            return Err(SimError::LinkNotHere { vehicle: vid, link });
                        }
                    },
                    LevelOfDetail::Teleported => {
                        let trav_time = vehicle.driver.curr_leg().route.trav_time();
                        self.teleport(vehicle, next.saturating_add(trav_time));
                    },
                }
                proof {
                    lemma_same_shape_trans2(old(self).network.links@, l0, self.network.links@);
                    if lod == LevelOfDetail::Network {
                        let l = vv.curr_link_spec() as int;
                        assert(self.network.links@[l]->Some_0.vehicles_spec() == l0[l]->Some_0.vehicles_spec().push(vv));
                        let q2 = self.network.links@[l]->Some_0.vehicles_spec();
                        assert(q2[q2.len() - 1] == vv);
                        assert(self.teleportation_q == pre.teleportation_q);
                    } else {
                        assert(self.network.links@ == l0);
                        lemma_links_grow_refl(l0);
                        assert(self.teleportation_q@.contains((handover_arrival(vv, now), vv)));
                    }
                    assert(taken_in(*self, old(self).garage.vehicle_types@, vv, now));
                    assert forall|k: int, q: int|
                        kk < k < msgs0.len() && 0 <= q < msgs0[k].vehicles@.len() implies taken_in(
                            *self,
                            old(self).garage.vehicle_types@,
                            #[trigger] msgs0[k].vehicles@[q],
                            now,
                        ) by {
                        lemma_taken_in_kept(pre, *self, old(self).garage.vehicle_types@, msgs0[k].vehicles@[q], now);
                    }
                    assert forall|q: int|
                        msg.vehicles@.len() <= q < m0.vehicles@.len() implies taken_in(
                            *self,
                            old(self).garage.vehicle_types@,
                            #[trigger] m0.vehicles@[q],
                            now,
                        ) by {
                        if q != qq {
                            lemma_taken_in_kept(pre, *self, old(self).garage.vehicle_types@, m0.vehicles@[q], now);
                        }
                    }
                }
            }
            proof {
                assert(m0.vehicles@.take(0) =~= Seq::<Vehicle>::empty());
                assert(msg_accepted(msgs0[kk], *old(self))) by {
                    assert forall|q: int| 0 <= q < m0.vehicles@.len() implies vehicle_accepted(
                        #[trigger] m0.vehicles@[q],
                        *old(self),
                    ) by {}
                }
            }
        }
        Ok(())
    }

}

} // verus!
