use rust_q_sim::garage::{Garage, IOVehicleType};
use rust_q_sim::id::Id;
use rust_q_sim::population::{Activity, Agent, GenericRoute, Leg, PlanElement, Route};
use rust_q_sim::vehicle::{LevelOfDetail, VehicleType};

#[test]
fn add_veh_type() {
    let mut garage = Garage::new();
    let type_id = Id::create(&mut garage.vehicle_type_ids, "some-type");
    let mode = Id::create(&mut garage.modes, "default-mode");
    let veh_type = VehicleType { id: type_id.internal(), max_v: 1, pce: 1000, net_mode: mode.internal(), lod: LevelOfDetail::Network };

    garage.add_veh_type(veh_type);

    assert_eq!(1, garage.vehicle_types.len());
}

#[test]
fn add_empty_io_veh_type() {
    let io_veh_type = IOVehicleType {
        id: "some-id".to_string(),
        network_mode: None,
        maximum_velocity: None,
        passenger_car_equivalents: None,
        lod: None,
    };
    let mut garage = Garage::new();

    assert!(garage.add_io_veh_type(&io_veh_type));

    assert_eq!(1, garage.vehicle_types.len());
    assert_eq!(0, Id::get_from_ext(&garage.modes, "car").unwrap().internal());
    assert_eq!(0, Id::get_from_ext(&garage.vehicle_type_ids, "some-id").unwrap().internal());
    let veh_type = garage.vehicle_types[0];
    assert!(matches!(veh_type.lod, LevelOfDetail::Network));
    assert_eq!(u64::MAX, veh_type.max_v);
    assert_eq!(1000, veh_type.pce);
}

#[test]
fn add_io_veh_type() {
    let io_veh_type = IOVehicleType {
        id: "some-id".to_string(),
        network_mode: Some("some_mode".to_string()),
        maximum_velocity: Some(100_000),
        passenger_car_equivalents: Some(21_000),
        lod: Some("teleported".to_string()),
    };
    let mut garage = Garage::new();

    assert!(garage.add_io_veh_type(&io_veh_type));

    let expected_id = Id::get_from_ext(&garage.vehicle_type_ids, "some-id").unwrap();
    let expected_mode = Id::get_from_ext(&garage.modes, "some_mode").unwrap();
    let veh_type = garage.vehicle_types[0];
    assert!(matches!(veh_type.lod, LevelOfDetail::Teleported));
    assert_eq!(veh_type.max_v, 100_000);
    assert_eq!(veh_type.pce, 21_000);
    assert_eq!(veh_type.id, expected_id.internal());
    assert_eq!(veh_type.net_mode, expected_mode.internal());
}

#[test]
fn add_io_veh_type_refuses_unknown_lod_and_duplicates() {
    let mut garage = Garage::new();
    let odd = IOVehicleType {
        id: "odd".to_string(),
        network_mode: None,
        maximum_velocity: None,
        passenger_car_equivalents: None,
        lod: Some("hovering".to_string()),
    };
    assert!(!garage.add_io_veh_type(&odd));
    assert!(garage.vehicle_types.is_empty());

    let car = IOVehicleType {
        id: "car".to_string(),
        network_mode: None,
        maximum_velocity: None,
        passenger_car_equivalents: None,
        lod: Some("network".to_string()),
    };
    let mut fresh = Garage::new();
    assert!(fresh.add_io_veh_type(&car));
    assert!(!fresh.add_io_veh_type(&car));
    assert_eq!(1, fresh.vehicle_types.len());
}

#[test]
fn park_and_unpark() {
    let mut garage = Garage::new();
    garage.add_veh_type(VehicleType { id: 0, max_v: 1_500, pce: 250, net_mode: 3, lod: LevelOfDetail::Teleported });
    assert!(garage.add_veh(7, 1, 0));
    assert_eq!(Some(7), garage.get_veh_id(1, 3));
    assert_eq!(None, garage.get_veh_id(1, 4));
    assert!(!garage.add_veh(8, 1, 5));

    let agent = Agent {
        id: 1,
        plan: vec![
            PlanElement::Activity(Activity { act_type: 0, link_id: 4, start_time: None, end_time: Some(0), max_dur: None }),
            PlanElement::Leg(Leg {
                mode: 3,
                route: Route::Generic(GenericRoute { veh_id: 7, start_link: 4, end_link: 5, trav_time: 3, distance: 9 }),
            }),
            PlanElement::Activity(Activity { act_type: 1, link_id: 5, start_time: None, end_time: None, max_dur: None }),
        ],
        curr_plan_elem: 1,
    };
    assert!(garage.is_parked_exec(7));
    assert!(!garage.is_parked_exec(8));
    let vehicle = garage.unpark_veh(agent, 7);
    assert_eq!(7, vehicle.id);
    assert_eq!(1_500, vehicle.max_v);
    assert_eq!(250, vehicle.pce);
    assert_eq!(vec![4, 5], vehicle.route);
    assert_eq!(0, vehicle.curr_route_elem);
    assert!(garage.vehicles[7].is_none());

    let len = garage.vehicles.len();
    let driver = garage.park_veh(vehicle);
    assert_eq!(1, driver.id);
    assert!(garage.vehicles[7].is_some());
    assert_eq!(len, garage.vehicles.len());
}
