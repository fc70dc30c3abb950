use rust_q_sim::communicator::{ChannelSimCommunicator, DummySimCommunicator, SimCommunicator};
use rust_q_sim::message_broker::NetMessageBroker;
use rust_q_sim::messages::SyncMessage;
use rust_q_sim::population::{Activity, Agent, Leg, NetworkRoute, PlanElement, Route};
use rust_q_sim::sim_network::SplitStorage;
use rust_q_sim::vehicle::Vehicle;

fn vehicle(id: u64, link: u64) -> Vehicle {
    let driver = Agent {
        id,
        plan: vec![
            PlanElement::Activity(Activity { act_type: 0, link_id: link, start_time: None, end_time: Some(0), max_dur: None }),
            PlanElement::Leg(Leg {
                mode: 0,
                route: Route::Network(NetworkRoute { veh_id: id, links: vec![link], distance: 0 }),
            }),
            PlanElement::Activity(Activity { act_type: 1, link_id: link, start_time: None, end_time: None, max_dur: None }),
        ],
        curr_plan_elem: 1,
    };
    Vehicle { id, veh_type: 0, max_v: 10_000, pce: 1_000, route: vec![link], curr_route_elem: 0, driver }
}

#[test]
fn send_recv_empty_msgs() {
    // partition 1 neighbors 0 and 2; every neighbor gets a message, empty ones included
    let mut broker = NetMessageBroker::new(1, vec![0, 1, 2], vec![0, 2]);
    let out = broker.prepare_send_recv_vehicles(5);
    assert_eq!(2, out.len());
    for msg in &out {
        assert_eq!(5, msg.time);
        assert_eq!(1, msg.from_process);
        assert!(msg.vehicles.is_empty());
        assert!(msg.storage_capacities.is_empty());
    }
    let mut targets: Vec<u32> = out.iter().map(|m| m.to_process).collect();
    targets.sort();
    assert_eq!(vec![0, 2], targets);
}

#[test]
fn vehicles_grouped_by_partition() {
    let mut broker = NetMessageBroker::new(0, vec![0, 1, 2], vec![1]);
    broker.add_veh(vehicle(10, 2), 3);
    broker.add_veh(vehicle(11, 1), 3);
    broker.add_veh(vehicle(12, 2), 3);
    let out = broker.prepare_send_recv_vehicles(3);
    assert_eq!(2, out.len());
    let to2 = out.iter().find(|m| m.to_process == 2).unwrap();
    assert_eq!(vec![10, 12], to2.vehicles.iter().map(|v| v.id).collect::<Vec<_>>());
    let to1 = out.iter().find(|m| m.to_process == 1).unwrap();
    assert_eq!(vec![11], to1.vehicles.iter().map(|v| v.id).collect::<Vec<_>>());
    // the next tick starts afresh
    let next = broker.prepare_send_recv_vehicles(4);
    assert_eq!(1, next.len());
    assert!(next[0].vehicles.is_empty());
}

#[test]
fn send_recv_storage_cap() {
    let mut broker = NetMessageBroker::new(1, vec![0, 1], vec![0]);
    broker.add_cap(SplitStorage { link_id: 1, from_part: 0, used: 42 }, 7);
    let out = broker.prepare_send_recv_vehicles(7);
    assert_eq!(1, out.len());
    assert_eq!(0, out[0].to_process);
    assert_eq!(1, out[0].storage_capacities.len());
    assert_eq!(1, out[0].storage_capacities[0].link_id);
    assert_eq!(42, out[0].storage_capacities[0].value);
}

#[test]
fn waits_until_every_neighbor_sent_this_tick() {
    let mut broker = NetMessageBroker::new(1, vec![0, 1, 2], vec![0, 2]);
    broker.prepare_send_recv_vehicles(5);
    assert!(broker.is_waiting());
    broker.handle_incoming_msg(SyncMessage::new(5, 0, 1), 5);
    assert!(broker.is_waiting());
    assert_eq!(vec![2], broker.expected());
    // a message for a later tick does not end the wait
    broker.handle_incoming_msg(SyncMessage::new(6, 2, 1), 5);
    assert!(broker.is_waiting());
    broker.handle_incoming_msg(SyncMessage::new(5, 2, 1), 5);
    assert!(!broker.is_waiting());
    assert_eq!(2, broker.take_received().len());

    // the cached message for tick 6 counts at tick 6
    broker.prepare_send_recv_vehicles(6);
    assert_eq!(vec![0], broker.expected());
    let received = broker.take_received();
    assert_eq!(1, received.len());
    assert_eq!(2, received[0].from_process);
}

#[test]
fn remote_message_without_neighbors() {
    let mut broker = NetMessageBroker::new(1, vec![0, 1], vec![]);
    broker.prepare_send_recv_vehicles(0);
    assert!(!broker.is_waiting());
    let mut msg = SyncMessage::new(0, 0, 1);
    msg.add_veh(vehicle(3, 1));
    broker.handle_incoming_msg(msg, 0);
    let received = broker.take_received();
    assert_eq!(1, received.len());
    assert_eq!(3, received[0].vehicles[0].id);
}

#[test]
fn rank_for_link() {
    let broker = NetMessageBroker::new(3, vec![4, 5], vec![]);
    assert_eq!(3, broker.rank());
    assert_eq!(5, broker.rank_for_link(1));
    assert!(broker.knows_link(1));
    assert!(!broker.knows_link(2));
}

#[test]
fn channels_between_partitions() {
    let comms = ChannelSimCommunicator::create_n_2_n(3);
    assert_eq!(3, comms.len());
    for (i, c) in comms.iter().enumerate() {
        assert_eq!(i as u32, c.rank());
    }
    assert!(comms[0].send_msg(SyncMessage::new(4, 0, 2)));
    let got = comms[2].receive_msg().unwrap();
    assert_eq!(4, got.time);
    assert_eq!(0, got.from_process);
    assert!(!comms[0].send_msg(SyncMessage::new(4, 0, 9)));
    let dummy = DummySimCommunicator();
    assert_eq!(0, dummy.rank());
    assert!(dummy.receive_msg().is_none());
}

/// Four partitions; partition 0 neighbours 1 and 2, partition 3 neighbours 1 and 2.
/// Link 2 lies in partition 2, link 6 in partition 3.
fn four_brokers() -> Vec<NetMessageBroker> {
    let mapping = vec![0, 0, 2, 1, 1, 2, 3, 3];
    let neighbors = [vec![1, 2], vec![0, 3], vec![0, 3], vec![1, 2]];
    (0..4u32).map(|rank| NetMessageBroker::new(rank, mapping.clone(), neighbors[rank as usize].clone())).collect()
}

/// One synchronisation of all partitions at `now`; what each received.
fn exchange(brokers: &mut [NetMessageBroker], now: u32) -> Vec<Vec<SyncMessage>> {
    let mut out = Vec::new();
    for b in brokers.iter_mut() {
        out.extend(b.prepare_send_recv_vehicles(now));
    }
    for msg in out {
        let to = msg.to_process as usize;
        brokers[to].handle_incoming_msg(msg, now);
    }
    brokers
        .iter_mut()
        .map(|b| {
            assert!(!b.is_waiting());
            b.take_received()
        })
        .collect()
}

fn routed_vehicle(id: u64, route: Vec<u64>) -> Vehicle {
    let mut v = vehicle(id, route[0]);
    v.route = route;
    v
}

#[test]
fn send_recv_local_vehicle_msg() {
    let mut brokers = four_brokers();
    brokers[0].add_veh(routed_vehicle(0, vec![2, 6]), 0);

    let result_0 = exchange(&mut brokers, 0);
    for (rank, msgs) in result_0.iter().enumerate() {
        if rank == 2 {
            let msg = msgs.iter().find(|m| m.from_process == 0).unwrap();
            assert_eq!(0, msg.time);
            assert_eq!(1, msg.vehicles.len());
        } else {
            assert!(msgs.iter().all(|m| m.vehicles.is_empty()));
        }
    }
    let mut msgs_2 = result_0.into_iter().nth(2).unwrap();
    let pos = msgs_2.iter().position(|m| m.from_process == 0).unwrap();
    let mut v = msgs_2.remove(pos).vehicles.remove(0);
    v.curr_route_elem += 1;
    brokers[2].add_veh(v, 1);

    let result_1 = exchange(&mut brokers, 1);
    for (rank, msgs) in result_1.iter().enumerate() {
        if rank == 3 {
            let msg = msgs.iter().find(|m| m.from_process == 2).unwrap();
            assert_eq!(1, msg.time);
            assert_eq!(1, msg.vehicles.len());
        } else {
            assert!(msgs.iter().all(|m| m.vehicles.is_empty()));
        }
    }
}

#[test]
fn send_recv_remote_message() {
    let mut brokers = four_brokers();
    // a vehicle for partition 3, which is no neighbor of 0, for tick 1
    brokers[0].add_veh(routed_vehicle(0, vec![6]), 1);

    for msgs in exchange(&mut brokers, 0) {
        for msg in msgs {
            assert_eq!(0, msg.time);
            assert!(msg.vehicles.is_empty());
        }
    }
    let result_1 = exchange(&mut brokers, 1);
    for (rank, msgs) in result_1.iter().enumerate() {
        for msg in msgs {
            if rank == 3 && msg.from_process == 0 {
                assert_eq!(1, msg.vehicles.len());
            }
            assert_eq!(1, msg.time);
        }
    }
    assert!(result_1[3].iter().any(|m| m.from_process == 0));
}

#[test]
fn send_recv_local_and_remote_msg() {
    let mut brokers = four_brokers();
    brokers[0].add_veh(routed_vehicle(0, vec![6]), 1);

    for msgs in exchange(&mut brokers, 0) {
        for msg in msgs {
            assert_eq!(0, msg.time);
            assert!(msg.vehicles.is_empty());
        }
    }
    brokers[2].add_veh(routed_vehicle(1, vec![6]), 1);

    let result_1 = exchange(&mut brokers, 1);
    for (rank, msgs) in result_1.iter().enumerate() {
        for msg in msgs {
            if rank == 3 && msg.from_process == 0 {
                assert_eq!(1, msg.vehicles.len());
                assert_eq!(0, msg.vehicles[0].id);
            } else if rank == 3 && msg.from_process == 2 {
                assert_eq!(1, msg.vehicles.len());
                assert_eq!(1, msg.vehicles[0].id);
            } else {
                assert_eq!(0, msg.vehicles.len());
            }
            assert_eq!(1, msg.time);
        }
    }
}

#[test]
fn cached_messages_come_out_by_tick() {
    let mut broker = NetMessageBroker::new(1, vec![0, 1], vec![]);
    broker.prepare_send_recv_vehicles(1);
    // messages for later ticks arrive out of order
    broker.handle_incoming_msg(SyncMessage::new(3, 0, 1), 1);
    broker.handle_incoming_msg(SyncMessage::new(2, 0, 1), 1);
    broker.handle_incoming_msg(SyncMessage::new(5, 0, 1), 1);
    assert!(broker.take_received().is_empty());
    broker.prepare_send_recv_vehicles(4);
    let times: Vec<u32> = broker.take_received().iter().map(|m| m.time).collect();
    assert_eq!(vec![2, 3], times);
    broker.prepare_send_recv_vehicles(5);
    let times: Vec<u32> = broker.take_received().iter().map(|m| m.time).collect();
    assert_eq!(vec![5], times);
}
