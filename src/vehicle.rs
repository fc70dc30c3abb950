use vstd::prelude::*;
use crate::population::Agent;

verus! {

#[derive(PartialEq, Eq, Structural, Clone, Copy, Debug)]
pub enum LevelOfDetail {
    Network,
    Teleported,
}

/// A kind of vehicle. Speeds are in millimetres per second, pce in milli-pce.
#[derive(Clone, Copy, Debug)]
pub struct VehicleType {
    pub id: u64,
    pub max_v: u64,
    pub pce: u32,
    pub net_mode: u64,
    pub lod: LevelOfDetail,
}

/// A vehicle under way, with its driver, the link ids of its route and the index of
/// the link it is on. Speeds are in millimetres per second, pce in milli-pce.
pub struct Vehicle {
    pub id: u64,
    pub veh_type: u64,
    pub max_v: u64,
    pub pce: u32,
    pub route: Vec<u64>,
    pub curr_route_elem: usize,
    pub driver: Agent,
}

impl VehicleType {
    pub open spec fn wf(&self) -> bool {
        self.max_v > 0
    }
}

impl Vehicle {
    pub open spec fn wf(&self) -> bool {
        &&& self.curr_route_elem < self.route@.len()
        &&& self.route@.len() < usize::MAX
        &&& self.max_v > 0
        &&& self.id < usize::MAX
        &&& self.driver.wf()
        &&& !self.driver.on_activity()
    }

    pub open spec fn curr_link_spec(&self) -> u64 {
        self.route@[self.curr_route_elem as int]
    }

    pub open spec fn has_next_link(&self) -> bool {
        self.curr_route_elem + 1 < self.route@.len()
    }

    pub open spec fn next_link_spec(&self) -> u64 {
        self.route@[self.curr_route_elem + 1]
    }

    /// Whether the vehicle keeps its invariant, checked field by field.
    pub fn is_valid(&self) -> (r: bool)
        ensures
            r == self.wf(),
    {
        self.curr_route_elem < self.route.len() && self.route.len() < usize::MAX && self.max_v > 0
            && self.id < usize::MAX as u64
            && self.driver.check_plan() && self.driver.curr_plan_elem % 2 != 0
    }

    pub fn curr_link_id(&self) -> (r: u64)
        requires
            self.wf(),
        ensures
            r == self.curr_link_spec(),
    {
        self.route[self.curr_route_elem]
    }

    /// The link after the current one, if the route goes on.
    pub fn peek_next_route_element(&self) -> (r: Option<u64>)
        requires
            self.wf(),
        ensures
            r == (if self.has_next_link() { Some(self.next_link_spec()) } else { None::<u64> }),
    {
        if self.curr_route_elem < self.route.len() - 1 {
            Some(self.route[self.curr_route_elem + 1])
        } else {
            None
        }
    }

    pub fn advance_route_index(&mut self)
        requires
            old(self).wf(),
            old(self).has_next_link(),
        ensures
            final(self).wf(),
            final(self).curr_route_elem == old(self).curr_route_elem + 1,
            final(self).route@ == old(self).route@,
            final(self).id == old(self).id,
            final(self).veh_type == old(self).veh_type,
            final(self).pce == old(self).pce,
            final(self).max_v == old(self).max_v,
            final(self).driver == old(self).driver,
    {
        self.curr_route_elem = self.curr_route_elem + 1;
    }
}

} // verus!
