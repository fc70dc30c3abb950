use vstd::prelude::*;
use crate::vehicle::Vehicle;

verus! {

/// The occupancy, in milli-pce, of the downstream end of a split link.
#[derive(PartialEq, Eq, Structural, Clone, Copy, Debug)]
pub struct StorageCapReport {
    pub link_id: u64,
    pub value: u64,
}

/// What one partition sends another for one tick.
pub struct SyncMessage {
    pub time: u32,
    pub from_process: u32,
    pub to_process: u32,
    pub vehicles: Vec<Vehicle>,
    pub storage_capacities: Vec<StorageCapReport>,
}

impl SyncMessage {
    pub fn new(time: u32, from_process: u32, to_process: u32) -> (r: Self)
        ensures
            r.time == time,
            r.from_process == from_process,
            r.to_process == to_process,
            r.vehicles@.len() == 0,
            r.storage_capacities@.len() == 0,
    {
        SyncMessage { time, from_process, to_process, vehicles: Vec::new(), storage_capacities: Vec::new() }
    }

    pub fn add_veh(&mut self, vehicle: Vehicle)
        ensures
            final(self).time == old(self).time,
            final(self).from_process == old(self).from_process,
            final(self).to_process == old(self).to_process,
            final(self).vehicles@ == old(self).vehicles@.push(vehicle),
            final(self).storage_capacities@ == old(self).storage_capacities@,
    {
        self.vehicles.push(vehicle);
    }

    pub fn add_storage_cap(&mut self, cap: StorageCapReport)
        ensures
            final(self).time == old(self).time,
            final(self).from_process == old(self).from_process,
            final(self).to_process == old(self).to_process,
            final(self).vehicles@ == old(self).vehicles@,
            final(self).storage_capacities@ == old(self).storage_capacities@.push(cap),
    {
        self.storage_capacities.push(cap);
    }
}

} // verus!
