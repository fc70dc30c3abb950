use rust_q_sim::events::EventsPublisher;
use rust_q_sim::network::{Link, Network, Node};
use rust_q_sim::population::{Activity, Agent, Leg, NetworkRoute, PlanElement, Route};
use rust_q_sim::sim_network::SimNetworkPartition;
use rust_q_sim::vehicle::Vehicle;

/// Three links in series, node i to node i+1; lengths in metres.
fn three_links(partitions: [u32; 4], lengths: [u32; 3], cell_mm: u32) -> Network {
    let mut net = Network { nodes: vec![], links: vec![], effective_cell_size: cell_mm };
    for (id, partition) in partitions.iter().enumerate() {
        net.nodes.push(Node { id: id as u64, partition: *partition, in_links: vec![], out_links: vec![] });
    }
    for id in 0..3u64 {
        net.links.push(Link {
            id,
            from: id,
            to: id + 1,
            length: lengths[id as usize] * 1_000,
            freespeed: 10_000,
            capacity: 3600,
            permlanes: 1_000,
        });
        net.nodes[id as usize].out_links.push(id);
        net.nodes[id as usize + 1].in_links.push(id);
    }
    net
}

fn vehicle(id: u64, route: Vec<u64>, max_v: u64, pce: u32) -> Vehicle {
    let driver = Agent {
        id,
        plan: vec![
            PlanElement::Activity(Activity { act_type: 0, link_id: route[0], start_time: None, end_time: Some(0), max_dur: None }),
            PlanElement::Leg(Leg { mode: 0, route: Route::Network(NetworkRoute { veh_id: id, links: route.clone(), distance: 0 }) }),
            PlanElement::Activity(Activity { act_type: 1, link_id: route[route.len() - 1], start_time: None, end_time: None, max_dur: None }),
        ],
        curr_plan_elem: 1,
    };
    Vehicle { id, veh_type: 0, max_v, pce, route, curr_route_elem: 0, driver }
}

#[test]
fn vehicle_travels_local() {
    let mut publisher = EventsPublisher::new();
    let global_net = three_links([0, 0, 0, 0], [100, 100, 100], 7_500);
    let mut network = SimNetworkPartition::from_network(&global_net, 0, 1_000_000, 1);
    assert!(network.send_veh_en_route(vehicle(1, vec![0, 1, 2], 10_000, 1_000), 0).is_none());

    let mut exited_at = None;
    for i in 0..120 {
        let result = network.move_nodes(&mut publisher, i);
        network.move_links(i);
        if !result.is_empty() {
            assert_eq!(1, result[0].id);
            exited_at = Some(i);
        }
    }
    assert_eq!(Some(30), exited_at);
}

#[test]
fn vehicle_reaches_boundary() {
    let mut publisher = EventsPublisher::new();
    let global_net = three_links([0, 0, 1, 1], [100, 100, 100], 7_500);
    let mut network = SimNetworkPartition::from_network(&global_net, 0, 1_000_000, 1);
    assert!(network.send_veh_en_route(vehicle(1, vec![0, 1, 2], 10_000, 100_000), 0).is_none());

    for now in 0..20 {
        let node_result = network.move_nodes(&mut publisher, now);
        assert!(node_result.is_empty());

        let (vehicles, storage_caps) = network.move_links(now);
        assert_eq!(0, storage_caps.len());

        if now == 10 {
            assert_eq!(1, vehicles.len());
        } else {
            assert!(vehicles.is_empty());
        }
    }
}

#[test]
fn move_nodes_flow_cap_constraint() {
    let mut publisher = EventsPublisher::new();
    let global_net = three_links([0, 0, 0, 0], [100, 100, 100], 7_500);
    let mut network = SimNetworkPartition::from_network(&global_net, 0, 1_000_000, 1);

    for i in 0..100 {
        assert!(network.send_veh_en_route(vehicle(i, vec![0], 10_000, 1_000), 0).is_none());
    }

    // link 0 releases one vehicle a second, the first at t=10
    let mut counter = 0;
    for now in 0..110 {
        let result = network.move_nodes(&mut publisher, now);
        let _ = network.move_links(now);
        if now < 10 {
            assert!(result.is_empty());
        } else {
            assert_eq!(1, result.len());
            counter += 1;
        }
    }
    assert_eq!(100, counter);
}

#[test]
fn move_nodes_storage_cap_constraint() {
    let mut publisher = EventsPublisher::new();
    // link 1 is 1000 m of one lane with cells of 10 m: it holds 100 pce
    let global_net = three_links([0, 0, 0, 0], [100, 1_000, 100], 10_000);
    let mut network = SimNetworkPartition::from_network(&global_net, 0, 1_000_000, 1);

    // ten slow vehicles of 10 pce jam link 1; the first leaves it at t=1000
    for i in 0..10 {
        assert!(network.send_veh_en_route(vehicle(i, vec![1, 2], 1_000, 10_000), 0).is_none());
    }

    // this one waits on link 0 until link 1 has storage again, at t=1001
    assert!(network.send_veh_en_route(vehicle(11, vec![0, 1, 2], 10_000, 1_000), 0).is_none());

    for now in 0..1010 {
        network.move_nodes(&mut publisher, now);
        network.move_links(now);

        let link0 = network.links[0].as_ref().unwrap();
        if (10..1001).contains(&now) {
            assert!(link0.offers_veh(now).is_some());
        } else {
            assert!(link0.offers_veh(now).is_none());
        }
    }
}
