use rust_q_sim::link::{LocalLink, SimLink, SplitOutLink};
use rust_q_sim::population::{Activity, Agent, Leg, NetworkRoute, PlanElement, Route};
use rust_q_sim::vehicle::Vehicle;

fn create_agent(id: u64, links: Vec<u64>) -> Agent {
    let first = if links.is_empty() { 0 } else { links[0] };
    let last = if links.is_empty() { 0 } else { links[links.len() - 1] };
    Agent {
        id,
        plan: vec![
            PlanElement::Activity(Activity { act_type: 0, link_id: first, start_time: None, end_time: Some(0), max_dur: None }),
            PlanElement::Leg(Leg {
                mode: 0,
                route: Route::Network(NetworkRoute { veh_id: id, links, distance: 0 }),
            }),
            PlanElement::Activity(Activity { act_type: 1, link_id: last, start_time: None, end_time: None, max_dur: None }),
        ],
        curr_plan_elem: 1,
    }
}

/// A vehicle on link 1; speeds in mm/s, pce in milli-pce.
fn vehicle(id: u64, max_v: u64, pce: u32) -> Vehicle {
    Vehicle { id, veh_type: 0, max_v, pce, route: vec![1], curr_route_elem: 0, driver: create_agent(id, vec![1]) }
}

fn standard_link(capacity_h: u32) -> SimLink {
    SimLink::Local(LocalLink::new(1, capacity_h, 10_000, 3_000, 100_000, 1_000_000, 7_500, 1, 2))
}

#[test]
fn storage_cap_consumed() {
    let mut link = standard_link(3600);
    link.push_veh(vehicle(1, 10_000, 1_500), 0);
    assert_eq!(1_500, link.used_storage());
}

#[test]
fn storage_cap_released() {
    let mut link = standard_link(3600);
    link.push_veh(vehicle(1, 10_000, 1_500), 0);
    let _vehicle = link.pop_veh();

    // what left is only freed at the next tick boundary
    assert_eq!(1_500, link.used_storage());

    link.update_released_storage_cap();
    assert_eq!(0, link.used_storage());
    if let SimLink::Local(ll) = link {
        assert_eq!(0, ll.storage_cap.released());
    }
}

#[test]
fn calculates_exit_time() {
    let mut link = standard_link(3600);
    link.push_veh(vehicle(1, 10_000, 1_500), 0);
    for now in 0..9 {
        assert!(link.offers_veh(now).is_none());
    }
    assert!(link.offers_veh(10).is_some())
}

#[test]
fn exit_time_uses_slower_of_link_and_vehicle() {
    let mut link = standard_link(3600);
    // 100 m at 4 m/s: 25 s
    link.push_veh(vehicle(1, 4_000, 1_000), 3);
    assert!(link.offers_veh(27).is_none());
    assert!(link.offers_veh(28).is_some());
}

#[test]
fn exit_time_is_at_least_one_second() {
    let mut link = SimLink::Local(LocalLink::new(1, 3600, 10_000, 1_000, 500, 1_000_000, 7_500, 1, 2));
    link.push_veh(vehicle(1, 10_000, 1_000), 5);
    assert!(link.offers_veh(5).is_none());
    assert!(link.offers_veh(6).is_some());
}

#[test]
fn fifo_ordering() {
    let id1 = 42;
    let id2 = 43;
    let mut link = SimLink::Local(LocalLink::new(1, 1, 1_000, 1_000, 15_000, 1_000_000, 10_000, 0, 0));

    link.push_veh(vehicle(id1, 10_000, 1_000), 0);
    assert_eq!(1_000, link.used_storage());
    assert!(link.is_available());

    link.push_veh(vehicle(id2, 10_000, 1_000), 0);
    assert_eq!(2_000, link.used_storage());
    assert!(!link.is_available());

    let popped_vehicle1 = link.pop_veh();
    assert_eq!(id1, popped_vehicle1.id);

    // the first vehicle spent the flow capacity; let enough time pass to refill it
    link.update_flow_cap(1_000_000);
    let popped_vehicle2 = link.pop_veh();
    assert_eq!(id2, popped_vehicle2.id);
}

#[test]
fn storage_cap_initialized_default() {
    let link = LocalLink::new(1, 1, 1_000, 3_000, 100_000, 200_000, 7_500, 1, 2);
    // 100 m * 3 lanes * 0.2 / 7.5 m = 8 pce
    assert_eq!(8_000, link.max_storage());
}

#[test]
fn storage_cap_initialized_large_flow() {
    // 360000 vehicles per hour at a sample of 0.2 is 20 pce/s; twice that times the
    // sample is 8 pce, as is 100 m * 3 lanes * 0.2 / 7.5 m
    let link = LocalLink::new(1, 360_000, 1_000, 3_000, 100_000, 200_000, 7_500, 1, 2);
    assert_eq!(8_000, link.max_storage());
}

#[test]
fn storage_cap_from_flow() {
    // one lane of 7.5 m holds one pce; twice a flow of 10 pce/s at a sample of 0.5 is 10 pce
    let link = LocalLink::new(1, 72_000, 1_000, 1_000, 7_500, 500_000, 7_500, 1, 2);
    assert_eq!(10_000, link.max_storage());
}

#[test]
fn flow_cap_initialized() {
    let link = LocalLink::new(1, 3600, 1_000, 3_000, 100_000, 200_000, 7_500, 1, 2);
    // 0.2 pce per second is 720 pce per hour
    assert_eq!(720_000, link.flow_capacity());
}

#[test]
fn flow_cap_refills_up_to_one_pce() {
    let mut link = standard_link(360);
    link.push_veh(vehicle(1, 10_000, 1_500), 0);
    link.push_veh(vehicle(2, 10_000, 1_500), 0);
    link.update_flow_cap(10);
    let popped1 = link.pop_veh();
    assert_eq!(1, popped1.id);
    // the bucket held one pce; the vehicle took 1.5, and 0.1 pce come back per second
    for now in 11..16 {
        link.update_flow_cap(now);
        assert!(link.offers_veh(now).is_none());
    }
    link.update_flow_cap(16);
    assert_eq!(2, link.offers_veh(16).unwrap().id);
}

#[test]
fn flow_constrained_release() {
    // ten vehicles may leave from t=10 on, the link lets one pce a second through
    let mut link = standard_link(3600);
    for i in 0..10 {
        link.push_veh(vehicle(i, 10_000, 1_000), 0);
    }
    let mut released: Vec<(u32, u64)> = Vec::new();
    for now in 0..30 {
        link.update_flow_cap(now);
        while link.offers_veh(now).is_some() {
            let v = link.pop_veh();
            released.push((now, v.id));
        }
        link.update_released_storage_cap();
    }
    let expected: Vec<(u32, u64)> = (0..10).map(|i| (10 + i as u32, i)).collect();
    assert_eq!(expected, released);
}

#[test]
fn push_and_take() {
    let mut link = SimLink::Out(SplitOutLink::with_storage(0, 1, 100_000));
    let id1 = 42;
    let id2 = 43;
    link.push_veh(vehicle(id1, 10_000, 1_000), 0);
    link.push_veh(vehicle(id2, 10_000, 1_000), 0);

    assert_eq!(2_000, link.used_storage());

    if let SimLink::Out(ref mut ol) = link {
        let mut result = ol.take_veh();
        assert_eq!(2, result.len());
        let taken_1 = result.pop_front().unwrap();
        assert_eq!(id1, taken_1.id);
        let taken_2 = result.pop_front().unwrap();
        assert_eq!(id2, taken_2.id);
        assert_eq!(0, link.used_storage());
    } else {
        panic!("expected out link")
    }
}

#[test]
fn mirrored_storage_blocks_out_link() {
    let mut ol = SplitOutLink::with_storage(0, 1, 2_000);
    assert!(ol.is_available());
    ol.set_used_storage_cap(2_000);
    assert!(!ol.is_available());
    ol.set_used_storage_cap(1_000);
    assert_eq!(1_000, ol.used_storage());
    assert!(ol.is_available());
}
