use vstd::prelude::*;
use crate::id::IdStore;
use crate::population::{Agent, route_links};
use crate::vehicle::{LevelOfDetail, Vehicle, VehicleType};

verus! {

/// A parked vehicle.
#[derive(PartialEq, Eq, Structural, Clone, Copy, Debug)]
pub struct GarageVehicle {
    pub id: u64,
    pub veh_type: u64,
}

/// Which vehicle a person drives in a mode.
#[derive(PartialEq, Eq, Structural, Clone, Copy, Debug)]
pub struct Assignment {
    pub person: u64,
    pub mode: u64,
    pub vehicle: u64,
}

/// A vehicle type as vehicle definitions give it; what is missing takes a default.
/// Speeds are in millimetres per second, pce in milli-pce.
pub struct IOVehicleType {
    pub id: String,
    pub network_mode: Option<String>,
    pub maximum_velocity: Option<u64>,
    pub passenger_car_equivalents: Option<u32>,
    /// The `lod` attribute: "network" or "teleported".
    pub lod: Option<String>,
}

/// The level of detail that a `lod` attribute names, if it names one.
pub open spec fn lod_of(s: Seq<char>) -> Option<LevelOfDetail> {
    if s == "network"@ {
        Some(LevelOfDetail::Network)
    } else if s == "teleported"@ {
        Some(LevelOfDetail::Teleported)
    } else {
        None
    }
}

impl LevelOfDetail {
    pub fn from_attr(s: &String) -> (r: Option<LevelOfDetail>)
        ensures
            r == lod_of(s@),
    {
        proof {
            reveal_strlit("network");
            reveal_strlit("teleported");
        }
        if *s == "network".to_string() {
            Some(LevelOfDetail::Network)
        } else if *s == "teleported".to_string() {
            Some(LevelOfDetail::Teleported)
        } else {
            None
        }
    }
}

/// Vehicle types by id, the vehicles parked now by id, which vehicle each person
/// drives in each mode, and the external ids of vehicle types and of modes.
pub struct Garage {
    pub vehicles: Vec<Option<GarageVehicle>>,
    pub vehicle_types: Vec<VehicleType>,
    pub person_2_vehicle: Vec<Assignment>,
    pub vehicle_type_ids: IdStore,
    pub modes: IdStore,
}

impl Garage {
    pub open spec fn wf(&self) -> bool {
        &&& self.vehicle_type_ids.wf()
        &&& self.modes.wf()
        &&& forall|i: int| 0 <= i < self.vehicle_types@.len() ==> (#[trigger] self.vehicle_types@[i]).wf()
            && self.vehicle_types@[i].id == i
        &&& forall|i: int| 0 <= i < self.vehicles@.len() ==> (#[trigger] self.vehicles@[i] matches Some(
            gv,
        ) ==> gv.id == i && gv.veh_type < self.vehicle_types@.len())
    }

    pub open spec fn is_parked(&self, id: int) -> bool {
        0 <= id < self.vehicles@.len() && self.vehicles@[id] is Some
    }

    pub fn new() -> (r: Self)
        ensures
            r.wf(),
            r.vehicles@.len() == 0,
            r.vehicle_types@.len() == 0,
            r.person_2_vehicle@.len() == 0,
    {
        Garage {
            vehicles: Vec::new(),
            vehicle_types: Vec::new(),
            person_2_vehicle: Vec::new(),
            vehicle_type_ids: IdStore::new(),
            modes: IdStore::new(),
        }
    }

    /// Adds a vehicle type; its id must be the next free one. Returns whether it was
    /// added.
    pub fn add_veh_type(&mut self, veh_type: VehicleType)
        requires
            old(self).wf(),
            veh_type.id == old(self).vehicle_types@.len(),
            veh_type.wf(),
        ensures
            final(self).vehicle_type_ids == old(self).vehicle_type_ids,
            final(self).modes == old(self).modes,
            final(self).wf(),
            final(self).vehicle_types@ == old(self).vehicle_types@.push(veh_type),
            final(self).vehicles@ == old(self).vehicles@,
            final(self).person_2_vehicle@ == old(self).person_2_vehicle@,
    {
        self.vehicle_types.push(veh_type);
    }

    /// Adds the type `io` describes, taking in its external id and its mode ("car" if
    /// it names none). A type without a top speed is not limited, one without pce
    /// counts as one pce, one without a `lod` attribute runs on the network. Returns
    /// whether it was added: not where the type is known already, its `lod` names no
    /// level of detail, or its top speed is zero.
    pub fn add_io_veh_type(&mut self, io: &IOVehicleType) -> (r: bool)
        requires
            old(self).wf(),
        ensures
            final(self).wf(),
            final(self).vehicles@ == old(self).vehicles@,
            final(self).person_2_vehicle@ == old(self).person_2_vehicle@,
            final(self).vehicle_type_ids@.contains(io.id@),
            r == (!old(self).vehicle_type_ids@.contains(io.id@)
                && old(self).vehicle_type_ids@.len() == old(self).vehicle_types@.len()
                && (io.lod matches Some(l) ==> lod_of(l@) is Some)
                && io.maximum_velocity != Some(0u64)),
            r ==> final(self).vehicle_types@.len() == old(self).vehicle_types@.len() + 1
                && final(self).vehicle_types@.last().lod == match io.lod {
                    Some(l) => lod_of(l@)->Some_0,
                    None => LevelOfDetail::Network,
                }
                && final(self).vehicle_types@.last().max_v == match io.maximum_velocity {
                    Some(v) => v,
                    None => u64::MAX,
                }
                && final(self).vehicle_types@.last().pce == match io.passenger_car_equivalents {
                    Some(p) => p,
                    None => 1000u32,
                }
                && final(self).modes@[final(self).vehicle_types@.last().net_mode as int] == match io.network_mode {
                    Some(m) => m@,
                    None => "car"@,
                },
            !r ==> final(self).vehicle_types@ == old(self).vehicle_types@,
    {
        proof {
            reveal_strlit("car");
        }
        let ghost known = self.vehicle_type_ids@.contains(io.id@);
        let ghost aligned = self.vehicle_type_ids@.len() == self.vehicle_types@.len();
        let ghost ids0 = self.vehicle_type_ids@;
        let n_ids = self.vehicle_type_ids.len();
        let id = self.vehicle_type_ids.create_id(io.id.as_str());
        proof {
            if !known {
                assert(self.vehicle_type_ids@[ids0.len() as int] == io.id@);
            }
        }
        if self.vehicle_type_ids.len() == n_ids {
            // the type is known already
            return false;
        }
        let mode_name: String = match &io.network_mode {
            Some(m) => m.clone(),
            None => "car".to_string(),
        };
        let ghost modes0 = self.modes@;
        let mode = self.modes.create_id(mode_name.as_str());
        proof {
            if !modes0.contains(mode_name@) {
                assert(self.modes@[modes0.len() as int] == mode_name@);
            }
            assert(self.modes@[mode.internal_spec() as int] == mode_name@);
        }
        let lod = match &io.lod {
            Some(l) => match LevelOfDetail::from_attr(l) {
                Some(lod) => lod,
                None => {
                    return false;
                },
            },
            None => LevelOfDetail::Network,
        };
        let max_v = match io.maximum_velocity {
            Some(v) => v,
            None => u64::MAX,
        };
        let pce = match io.passenger_car_equivalents {
            Some(p) => p,
            None => 1000,
        };
        let veh_type = VehicleType { id: id.internal(), max_v, pce, net_mode: mode.internal(), lod };
        if veh_type.id != self.vehicle_types.len() as u64 || veh_type.max_v == 0 {
            return false;
        }
        self.add_veh_type(veh_type);
        let added = true;
        added
    }

    /// Parks vehicle `veh_id` of type `veh_type_id` and assigns it to `person` for the
    /// network mode of its type. Returns whether the type is known.
    pub fn add_veh(&mut self, veh_id: u64, person_id: u64, veh_type_id: u64) -> (r: bool)
        requires
            old(self).wf(),
            veh_id < usize::MAX,
        ensures
            final(self).vehicle_type_ids == old(self).vehicle_type_ids,
            final(self).modes == old(self).modes,
            final(self).wf(),
            r == (veh_type_id < old(self).vehicle_types@.len()),
            r ==> final(self).vehicles@[veh_id as int] == Some(GarageVehicle { id: veh_id, veh_type: veh_type_id }),
            r ==> final(self).person_2_vehicle@ == old(self).person_2_vehicle@.push(
                Assignment {
                    person: person_id,
                    mode: old(self).vehicle_types@[veh_type_id as int].net_mode,
                    vehicle: veh_id,
                },
            ),
            r ==> forall|i: int| 0 <= i < old(self).vehicles@.len() && i != veh_id
                ==> final(self).vehicles@[i] == old(self).vehicles@[i],
            !r ==> final(self).vehicles@ == old(self).vehicles@ && final(self).person_2_vehicle@ == old(self).person_2_vehicle@,
            final(self).vehicle_types@ == old(self).vehicle_types@,
    {
        if veh_type_id >= self.vehicle_types.len() as u64 {
            return false;
        }
        let mode = self.vehicle_types[veh_type_id as usize].net_mode;
        let ghost v0 = self.vehicles@;
        while (self.vehicles.len() as u64) <= veh_id
            invariant
                self.wf(),
                self.vehicle_types@ == old(self).vehicle_types@,
                self.person_2_vehicle@ == old(self).person_2_vehicle@,
                self.vehicle_type_ids == old(self).vehicle_type_ids,
                self.modes == old(self).modes,
                self.vehicles@.len() >= v0.len(),
                forall|i: int| 0 <= i < v0.len() ==> self.vehicles@[i] == v0[i],
                forall|i: int| v0.len() <= i < self.vehicles@.len() ==> self.vehicles@[i] is None,
                veh_id < usize::MAX,
            decreases veh_id + 1 - self.vehicles@.len(),
        {
            self.vehicles.push(None);
        }
        self.vehicles.set(veh_id as usize, Some(GarageVehicle { id: veh_id, veh_type: veh_type_id }));
        self.person_2_vehicle.push(Assignment { person: person_id, mode, vehicle: veh_id });
        true
    }

    /// The vehicle `person_id` drives in `mode`; the latest assignment counts.
    pub fn get_veh_id(&self, person_id: u64, mode: u64) -> (r: Option<u64>)
        ensures
            r matches Some(v) ==> self.person_2_vehicle@.contains(Assignment { person: person_id, mode, vehicle: v }),
            r is None ==> forall|i: int| 0 <= i < self.person_2_vehicle@.len() ==> !(
            (#[trigger] self.person_2_vehicle@[i]).person == person_id && self.person_2_vehicle@[i].mode == mode),
    {
        let mut i: usize = self.person_2_vehicle.len();
        while i > 0
            invariant
                i <= self.person_2_vehicle@.len(),
                forall|j: int| i <= j < self.person_2_vehicle@.len() ==> !(
                (#[trigger] self.person_2_vehicle@[j]).person == person_id && self.person_2_vehicle@[j].mode == mode),
            decreases i,
        {
            i = i - 1;
            let a = self.person_2_vehicle[i];
            if a.person == person_id && a.mode == mode {
                assert(self.person_2_vehicle@[i as int] == a);
                return Some(a.vehicle);
            }
        }
        None
    }

    /// Takes vehicle `id` out of the garage for `person`, who sets off on the leg it is
    /// at. `None` where the vehicle is not parked here.
    pub fn unpark_veh(&mut self, person: Agent, id: u64) -> (r: Vehicle)
        requires
            old(self).wf(),
            person.wf(),
            !person.on_activity(),
            old(self).is_parked(id as int),
        ensures
            final(self).vehicle_type_ids == old(self).vehicle_type_ids,
            final(self).modes == old(self).modes,
            final(self).wf(),
            final(self).vehicle_types@ == old(self).vehicle_types@,
            final(self).person_2_vehicle@ == old(self).person_2_vehicle@,
            ({
                let t = old(self).vehicle_types@[old(self).vehicles@[id as int]->Some_0.veh_type as int];
                &&& r.wf()
                &&& r.id == id
                &&& r.veh_type == t.id
                &&& r.max_v == t.max_v
                &&& r.pce == t.pce
                &&& r.curr_route_elem == 0
                &&& r.route@ == route_links(person.curr_leg_spec().route)
                &&& r.driver == person
                &&& final(self).vehicles@ == old(self).vehicles@.update(id as int, None)
            }),
    {
        let vlen = self.vehicles.len();
        assert(id < vlen);
        let slot = self.vehicles[id as usize];
        assert(slot == self.vehicles@[id as int]);
        let gv = slot.unwrap();
        assert(self.vehicles@[id as int] matches Some(g) ==> g.veh_type < self.vehicle_types@.len());
        let tlen = self.vehicle_types.len();
        assert(gv.veh_type < tlen);
        let ti = gv.veh_type as usize;
        assert(ti == gv.veh_type);
        let t = self.vehicle_types[ti];
        assert(t == old(self).vehicle_types@[gv.veh_type as int]);
        self.vehicles.set(id as usize, None);
        let route = person.curr_leg().route.link_ids();
        Vehicle { id, veh_type: t.id, max_v: t.max_v, pce: t.pce, route, curr_route_elem: 0, driver: person }
    }

    /// Whether vehicle `id` is parked here.
    pub fn is_parked_exec(&self, id: u64) -> (r: bool)
        ensures
            r == self.is_parked(id as int),
    {
        if id >= self.vehicles.len() as u64 {
            return false;
        }
        let slot = self.vehicles[id as usize];
        assert(slot == self.vehicles@[id as int]);
        slot.is_some()
    }

    /// Puts `vehicle` back into the garage and lets its driver out.
    pub fn park_veh(&mut self, vehicle: Vehicle) -> (r: Agent)
        requires
            old(self).wf(),
            vehicle.id < usize::MAX,
        ensures
            final(self).vehicle_type_ids == old(self).vehicle_type_ids,
            final(self).modes == old(self).modes,
            final(self).wf(),
            r == vehicle.driver,
            final(self).vehicle_types@ == old(self).vehicle_types@,
            final(self).person_2_vehicle@ == old(self).person_2_vehicle@,
            vehicle.veh_type < old(self).vehicle_types@.len() ==> final(self).vehicles@[vehicle.id as int] == Some(
                GarageVehicle { id: vehicle.id, veh_type: vehicle.veh_type },
            ) && final(self).is_parked(vehicle.id as int),
            forall|j: int| 0 <= j < old(self).vehicles@.len() && j != vehicle.id ==> final(self).vehicles@[j] == old(
                self,
            ).vehicles@[j],
            vehicle.veh_type >= old(self).vehicle_types@.len() ==> final(self).vehicles@ == old(self).vehicles@,
            vehicle.id < old(self).vehicles@.len() ==> final(self).vehicles@.len() == old(self).vehicles@.len(),
            forall|j: int| old(self).vehicles@.len() <= j < final(self).vehicles@.len() && j != vehicle.id
                ==> final(self).vehicles@[j] is None,
    {
        if vehicle.veh_type < self.vehicle_types.len() as u64 {
            let ghost v0 = self.vehicles@;
            while (self.vehicles.len() as u64) <= vehicle.id
                invariant
                    self.wf(),
                    self.vehicle_types@ == old(self).vehicle_types@,
                    self.person_2_vehicle@ == old(self).person_2_vehicle@,
                    self.vehicle_type_ids == old(self).vehicle_type_ids,
                    self.modes == old(self).modes,
                    vehicle.id < usize::MAX,
                    self.vehicles@.len() >= v0.len(),
                    forall|i: int| 0 <= i < v0.len() ==> self.vehicles@[i] == v0[i],
                    forall|i: int| v0.len() <= i < self.vehicles@.len() ==> self.vehicles@[i] is None,
                    v0 == old(self).vehicles@,
                    v0.len() <= vehicle.id ==> self.vehicles@.len() <= vehicle.id + 1,
                    v0.len() > vehicle.id ==> self.vehicles@.len() == v0.len(),
                decreases vehicle.id + 1 - self.vehicles@.len(),
            {
                self.vehicles.push(None);
            }
            self.vehicles.set(vehicle.id as usize, Some(GarageVehicle { id: vehicle.id, veh_type: vehicle.veh_type }));
        }
        vehicle.driver
    }
}

} // verus!
