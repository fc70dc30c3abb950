use rust_q_sim::events::{Event, EventsPublisher};
use rust_q_sim::garage::Garage;
use rust_q_sim::link::{LocalLink, SimLink, SplitInLink, SplitOutLink};
use rust_q_sim::message_broker::NetMessageBroker;
use rust_q_sim::network::{Link, Network, Node};
use rust_q_sim::population::{Activity, Agent, GenericRoute, Leg, NetworkRoute, PlanElement, Route};
use rust_q_sim::sim_network::{SimNetworkPartition, SimNode};
use rust_q_sim::simulation::Simulation;
use rust_q_sim::vehicle::{LevelOfDetail, Vehicle, VehicleType};

const HOME: u64 = 0;
const ERRANDS: u64 = 1;
const CAR: u64 = 0;
const WALK: u64 = 1;

fn activity(act_type: u64, link_id: u64, end_time: Option<u32>) -> PlanElement {
    PlanElement::Activity(Activity { act_type, link_id, start_time: None, end_time, max_dur: None })
}

fn car_agent(id: u64, links: Vec<u64>) -> Agent {
    let first = links[0];
    let last = links[links.len() - 1];
    Agent {
        id,
        plan: vec![
            activity(HOME, first, Some(0)),
            PlanElement::Leg(Leg { mode: CAR, route: Route::Network(NetworkRoute { veh_id: id, links, distance: 100 }) }),
            activity(ERRANDS, last, None),
        ],
        curr_plan_elem: 0,
    }
}

fn walk_agent(id: u64, start_link: u64, end_link: u64, trav_time: u32) -> Agent {
    Agent {
        id,
        plan: vec![
            activity(HOME, start_link, Some(0)),
            PlanElement::Leg(Leg {
                mode: WALK,
                route: Route::Generic(GenericRoute { veh_id: id, start_link, end_link, trav_time, distance: 80 }),
            }),
            activity(ERRANDS, end_link, None),
        ],
        curr_plan_elem: 0,
    }
}

fn garage() -> Garage {
    let mut garage = Garage::new();
    garage.add_veh_type(VehicleType { id: 0, max_v: 100_000, pce: 1_000, net_mode: CAR, lod: LevelOfDetail::Network });
    garage.add_veh_type(VehicleType { id: 1, max_v: 2_000, pce: 1_000, net_mode: WALK, lod: LevelOfDetail::Teleported });
    garage
}

/// 100 m at 10 m/s, 3600 vehicles per hour.
fn link(id: u64, from: u64, to: u64) -> LocalLink {
    LocalLink::new(id, 3600, 10_000, 1_000, 100_000, 1_000_000, 7_500, from, to)
}

fn node(id: u64, in_links: Vec<u64>) -> SimNode {
    let in_link_weights = in_links.iter().map(|_| 3600).collect();
    SimNode { id, in_links, in_link_weights }
}

fn run_single(sim: &mut Simulation, from: u32, to: u32) {
    for now in from..=to {
        let out = sim.before_sync(now).unwrap();
        assert!(out.is_empty());
        assert!(!sim.message_broker.is_waiting());
        sim.after_sync(now).unwrap();
    }
}

fn run_pair(sims: &mut [Simulation; 2], from: u32, to: u32) {
    for now in from..=to {
        let mut out = sims[0].before_sync(now).unwrap();
        out.extend(sims[1].before_sync(now).unwrap());
        for msg in out {
            let target = msg.to_process as usize;
            sims[target].message_broker.handle_incoming_msg(msg, now);
        }
        for sim in sims.iter_mut() {
            assert!(!sim.message_broker.is_waiting());
            sim.after_sync(now).unwrap();
        }
    }
}

#[test]
fn single_link_single_agent() {
    let network = SimNetworkPartition::new(
        vec![node(0, vec![]), node(1, vec![0])],
        vec![Some(SimLink::Local(link(0, 0, 1)))],
        42,
    );
    let mut garage = garage();
    assert!(garage.add_veh(0, 0, 0));
    let broker = NetMessageBroker::new(0, vec![0], vec![]);
    let mut sim = Simulation::new(network, garage, vec![car_agent(0, vec![0])], broker, EventsPublisher::new(), 0);

    run_single(&mut sim, 0, 12);

    let expected = vec![
        (0, Event::ActEnd { person: 0, link: 0, act_type: HOME }),
        (0, Event::Departure { person: 0, link: 0, mode: CAR }),
        (0, Event::PersonEntersVehicle { person: 0, vehicle: 0 }),
        (0, Event::LinkEnter { link: 0, vehicle: 0 }),
        (10, Event::LinkLeave { link: 0, vehicle: 0 }),
        (10, Event::PersonLeavesVehicle { person: 0, vehicle: 0 }),
        (10, Event::Arrival { person: 0, link: 0, mode: CAR }),
        (10, Event::ActStart { person: 0, link: 0, act_type: ERRANDS }),
    ];
    assert_eq!(expected, sim.events.take_events());
    assert_eq!(1, sim.activity_engine.len());
}

#[test]
fn teleported_leg_local() {
    let network = SimNetworkPartition::new(vec![], vec![Some(SimLink::Local(link(0, 0, 1)))], 42);
    let mut garage = garage();
    assert!(garage.add_veh(0, 0, 1));
    let broker = NetMessageBroker::new(0, vec![0], vec![]);
    let mut sim = Simulation::new(network, garage, vec![walk_agent(0, 0, 0, 8)], broker, EventsPublisher::new(), 0);

    run_single(&mut sim, 0, 7);
    assert_eq!(0, sim.activity_engine.len());
    run_single(&mut sim, 8, 8);
    assert_eq!(1, sim.activity_engine.len());

    let expected = vec![
        (0, Event::ActEnd { person: 0, link: 0, act_type: HOME }),
        (0, Event::Departure { person: 0, link: 0, mode: WALK }),
        (8, Event::Travelled { person: 0, distance: 80, mode: WALK }),
        (8, Event::Arrival { person: 0, link: 0, mode: WALK }),
        (8, Event::ActStart { person: 0, link: 0, act_type: ERRANDS }),
    ];
    assert_eq!(expected, sim.events.take_events());
}

#[test]
fn teleported_leg_remote() {
    // link 0 lies in partition 0, link 1 in partition 1
    let mapping = vec![0, 1];
    let net0 = SimNetworkPartition::new(vec![], vec![Some(SimLink::Local(link(0, 0, 1))), None], 1);
    let net1 = SimNetworkPartition::new(vec![], vec![None, Some(SimLink::Local(link(1, 2, 3)))], 2);
    let mut garage0 = garage();
    assert!(garage0.add_veh(0, 0, 1));
    let sim0 = Simulation::new(
        net0,
        garage0,
        vec![walk_agent(0, 0, 1, 8)],
        NetMessageBroker::new(0, mapping.clone(), vec![]),
        EventsPublisher::new(),
        0,
    );
    let sim1 = Simulation::new(net1, garage(), vec![], NetMessageBroker::new(1, mapping, vec![]), EventsPublisher::new(), 0);
    let mut sims = [sim0, sim1];

    run_pair(&mut sims, 0, 12);

    let expected0 = vec![
        (0, Event::ActEnd { person: 0, link: 0, act_type: HOME }),
        (0, Event::Departure { person: 0, link: 0, mode: WALK }),
    ];
    assert_eq!(expected0, sims[0].events.take_events());
    let expected1 = vec![
        (9, Event::Travelled { person: 0, distance: 80, mode: WALK }),
        (9, Event::Arrival { person: 0, link: 1, mode: WALK }),
        (9, Event::ActStart { person: 0, link: 1, act_type: ERRANDS }),
    ];
    assert_eq!(expected1, sims[1].events.take_events());
    assert_eq!(0, sims[0].activity_engine.len());
    assert_eq!(1, sims[1].activity_engine.len());
}

#[test]
fn three_links_two_partitions() {
    // node 0 -L0-> node 1 -L1-> node 2 -L2-> node 3; nodes 0 and 1 in partition 0
    let mapping = vec![0, 1, 1];
    let net0 = SimNetworkPartition::new(
        vec![node(0, vec![]), node(1, vec![0])],
        vec![
            Some(SimLink::Local(link(0, 0, 1))),
            Some(SimLink::Out(SplitOutLink::new(1, 3600, 1_000, 100_000, 7_500, 1_000_000, 1))),
            None,
        ],
        1,
    );
    let net1 = SimNetworkPartition::new(
        vec![node(2, vec![1]), node(3, vec![2])],
        vec![
            None,
            Some(SimLink::In(SplitInLink::new(0, link(1, 1, 2)))),
            Some(SimLink::Local(link(2, 2, 3))),
        ],
        2,
    );
    assert_eq!(vec![1], net0.neighbors());
    assert_eq!(vec![0], net1.neighbors());
    let mut garage0 = garage();
    assert!(garage0.add_veh(0, 0, 0));
    let sim0 = Simulation::new(
        net0,
        garage0,
        vec![car_agent(0, vec![0, 1, 2])],
        NetMessageBroker::new(0, mapping.clone(), vec![1]),
        EventsPublisher::new(),
        0,
    );
    let sim1 = Simulation::new(net1, garage(), vec![], NetMessageBroker::new(1, mapping, vec![0]), EventsPublisher::new(), 0);
    let mut sims = [sim0, sim1];

    run_pair(&mut sims, 0, 40);

    let events0 = sims[0].events.take_events();
    assert!(events0.contains(&(10, Event::LinkLeave { link: 0, vehicle: 0 })));
    assert!(events0.contains(&(10, Event::LinkEnter { link: 1, vehicle: 0 })));
    let events1 = sims[1].events.take_events();
    assert!(events1.contains(&(21, Event::LinkLeave { link: 1, vehicle: 0 })));
    assert!(events1.contains(&(21, Event::LinkEnter { link: 2, vehicle: 0 })));
    assert!(events1.contains(&(31, Event::Arrival { person: 0, link: 2, mode: CAR })));
    assert!(events1.contains(&(31, Event::ActStart { person: 0, link: 2, act_type: ERRANDS })));
    assert_eq!(1, sims[1].activity_engine.len());
}

fn prefill_vehicle(id: u64, route: Vec<u64>) -> Vehicle {
    let mut driver = car_agent(id, route.clone());
    driver.curr_plan_elem = 1;
    Vehicle { id, veh_type: 0, max_v: 100_000, pce: 1_000, route, curr_route_elem: 0, driver }
}

#[test]
fn storage_constrained_upstream_block() {
    // L1 is ordinary; L2 holds 8 pce (20 m, 3 lanes) and lets hardly anything through
    let l2 = LocalLink::new(1, 1, 10_000, 3_000, 20_000, 1_000_000, 7_500, 1, 2);
    assert_eq!(8_000, l2.max_storage());
    let mut net = SimNetworkPartition::new(
        vec![node(1, vec![0]), node(2, vec![1])],
        vec![Some(SimLink::Local(link(0, 0, 1))), Some(SimLink::Local(l2))],
        7,
    );
    assert!(net.send_veh_en_route(prefill_vehicle(100, vec![0, 1]), 0).is_none());
    let mut events = EventsPublisher::new();
    let mut first_leave = None;
    for now in 0..20 {
        if now == 9 {
            for i in 0..8 {
                assert!(net.send_veh_en_route(prefill_vehicle(i, vec![1]), 9).is_none());
            }
        }
        net.move_nodes(&mut events, now);
        net.move_links(now);
        for (t, e) in events.take_events() {
            if e == (Event::LinkLeave { link: 0, vehicle: 100 }) && first_leave.is_none() {
                first_leave = Some(t);
            }
        }
    }
    // L2 pops its first vehicle at 11; its storage is freed at the end of that tick
    assert_eq!(Some(12), first_leave);
}

#[test]
fn vehicle_conservation_over_ticks() {
    let mut net = SimNetworkPartition::new(
        vec![node(0, vec![]), node(1, vec![0]), node(2, vec![1])],
        vec![Some(SimLink::Local(link(0, 0, 1))), Some(SimLink::Local(link(1, 1, 2)))],
        3,
    );
    for i in 0..5 {
        assert!(net.send_veh_en_route(prefill_vehicle(i, vec![0, 1]), 0).is_none());
    }
    let mut events = EventsPublisher::new();
    let mut exited = 0;
    for now in 0..40 {
        exited += net.move_nodes(&mut events, now).len();
        let (out, _) = net.move_links(now);
        assert!(out.is_empty());
    }
    assert_eq!(5, exited);
    let enters = events.take_events().iter().filter(|(_, e)| matches!(e, Event::LinkEnter { .. })).count();
    assert_eq!(5, enters);
}

#[test]
fn unknown_link_is_handed_back() {
    let mut net = SimNetworkPartition::new(vec![], vec![Some(SimLink::Local(link(0, 0, 1)))], 3);
    let back = net.send_veh_en_route(prefill_vehicle(1, vec![5]), 0);
    assert_eq!(1, back.unwrap().id);
}

fn merge_run(seed: u64) -> Vec<(u32, Event)> {
    // two approaches into node 2, which feeds a short link out of it
    let out = LocalLink::new(2, 3600, 10_000, 1_000, 15_000, 1_000_000, 7_500, 2, 3);
    let mut net = SimNetworkPartition::new(
        vec![node(2, vec![0, 1]), node(3, vec![2])],
        vec![Some(SimLink::Local(link(0, 0, 2))), Some(SimLink::Local(link(1, 1, 2))), Some(SimLink::Local(out))],
        seed,
    );
    for i in 0..6 {
        assert!(net.send_veh_en_route(prefill_vehicle(i, vec![i % 2, 2]), 0).is_none());
    }
    let mut events = EventsPublisher::new();
    for now in 0..60 {
        net.move_nodes(&mut events, now);
        net.move_links(now);
    }
    events.take_events()
}

#[test]
fn same_seed_same_events() {
    let first = merge_run(5);
    let second = merge_run(5);
    assert_eq!(first, second);
    let leaves = first.iter().filter(|(_, e)| matches!(e, Event::LinkLeave { link: 2, .. })).count();
    assert_eq!(6, leaves);
}

#[test]
fn partitions_from_one_network() {
    let mut network = Network { nodes: vec![], links: vec![], effective_cell_size: 7_500 };
    for (id, partition) in [(0u64, 0u32), (1, 0), (2, 1), (3, 1)] {
        network.nodes.push(Node { id, partition, in_links: vec![], out_links: vec![] });
    }
    for id in 0..3u64 {
        network.links.push(Link { id, from: id, to: id + 1, length: 100_000, freespeed: 10_000, capacity: 3600, permlanes: 1_000 });
        network.nodes[id as usize].out_links.push(id);
        network.nodes[id as usize + 1].in_links.push(id);
    }
    let mut garage0 = garage();
    assert!(garage0.add_veh(0, 0, 0));
    let sim0 = Simulation::from_network(&network, 0, vec![car_agent(0, vec![0, 1, 2])], garage0, 1_000_000, 1, 0);
    let sim1 = Simulation::from_network(&network, 1, vec![car_agent(0, vec![0, 1, 2])], garage(), 1_000_000, 2, 0);
    assert_eq!(1, sim0.activity_engine.len());
    assert_eq!(0, sim1.activity_engine.len());
    let mut sims = [sim0, sim1];

    run_pair(&mut sims, 0, 40);

    let events1 = sims[1].events.take_events();
    assert!(events1.contains(&(31, Event::Arrival { person: 0, link: 2, mode: CAR })));
    assert_eq!(1, sims[1].activity_engine.len());
    assert_eq!(0, sims[0].activity_engine.len());
}
