use vstd::prelude::*;

verus! {

/// The end time of an activity that never ends.
pub const UNDEFINED_TIME: u32 = u32::MAX;

pub struct Activity {
    pub act_type: u64,
    pub link_id: u64,
    pub start_time: Option<u32>,
    pub end_time: Option<u32>,
    pub max_dur: Option<u32>,
}

/// When an activity that starts at `now` ends: its explicit end time if it has one,
/// else `now` plus its maximum duration, else never.
pub open spec fn activity_end(act: Activity, now: int) -> int {
    match act.end_time {
        Some(e) => e as int,
        None => match act.max_dur {
            Some(d) => if now + d > u32::MAX { u32::MAX as int } else { now + d },
            None => UNDEFINED_TIME as int,
        },
    }
}

impl Activity {
    pub fn end_time(&self, now: u32) -> (r: u32)
        ensures
            r == activity_end(*self, now as int),
    {
        match self.end_time {
            Some(e) => e,
            None => match self.max_dur {
                Some(d) => now.saturating_add(d),
                None => UNDEFINED_TIME,
            },
        }
    }
}

/// A route over network links, driven by the vehicle `veh_id`.
pub struct NetworkRoute {
    pub veh_id: u64,
    pub links: Vec<u64>,
    pub distance: u64,
}

/// A route that is only known by its ends and its travel time.
pub struct GenericRoute {
    pub veh_id: u64,
    pub start_link: u64,
    pub end_link: u64,
    pub trav_time: u32,
    pub distance: u64,
}

pub enum Route {
    Network(NetworkRoute),
    Generic(GenericRoute),
}

pub open spec fn route_links(r: Route) -> Seq<u64> {
    match r {
        Route::Network(n) => n.links@,
        Route::Generic(g) => seq![g.start_link, g.end_link],
    }
}

impl Route {
    pub fn veh_id(&self) -> (r: u64)
        ensures
            r == match *self {
                Route::Network(n) => n.veh_id,
                Route::Generic(g) => g.veh_id,
            },
    {
        match self {
            Route::Network(n) => n.veh_id,
            Route::Generic(g) => g.veh_id,
        }
    }

    pub open spec fn wf(&self) -> bool {
        &&& route_links(*self).len() > 0
        &&& route_links(*self).len() < usize::MAX
    }

    pub fn start_link(&self) -> (r: u64)
        requires
            self.wf(),
        ensures
            r == route_links(*self)[0],
    {
        match self {
            Route::Network(n) => n.links[0],
            Route::Generic(g) => g.start_link,
        }
    }

    pub fn end_link(&self) -> (r: u64)
        requires
            self.wf(),
        ensures
            r == route_links(*self).last(),
    {
        match self {
            Route::Network(n) => n.links[n.links.len() - 1],
            Route::Generic(g) => g.end_link,
        }
    }

    /// The travel time of a route known only by its ends; none for a network route.
    pub fn trav_time(&self) -> (r: u32)
        ensures
            r == match *self {
                Route::Network(_) => 0,
                Route::Generic(g) => g.trav_time,
            },
    {
        match self {
            Route::Network(_) => 0,
            Route::Generic(g) => g.trav_time,
        }
    }

    pub fn distance(&self) -> (r: u64)
        ensures
            r == match *self {
                Route::Network(n) => n.distance,
                Route::Generic(g) => g.distance,
            },
    {
        match self {
            Route::Network(n) => n.distance,
            Route::Generic(g) => g.distance,
        }
    }

    /// The link ids that a vehicle on this route passes, in order.
    pub fn link_ids(&self) -> (r: Vec<u64>)
        ensures
            r@ == route_links(*self),
    {
        match self {
            Route::Network(n) => {
                let mut v: Vec<u64> = Vec::new();
                let mut i: usize = 0;
                while i < n.links.len()
                    invariant
                        i <= n.links@.len(),
                        v@ == n.links@.take(i as int),
                    decreases n.links@.len() - i,
                {
                    v.push(n.links[i]);
                    i = i + 1;
                    assert(v@ =~= n.links@.take(i as int));
                }
                assert(v@ =~= n.links@);
                v
            },
            Route::Generic(g) => {
                let v = vec![g.start_link, g.end_link];
                assert(v@ =~= seq![g.start_link, g.end_link]);
                v
            },
        }
    }
}

pub struct Leg {
    pub mode: u64,
    pub route: Route,
}

pub enum PlanElement {
    Activity(Activity),
    Leg(Leg),
}

/// A person, with a plan of activities and legs in turn (an activity first and last)
/// and the index of the element it is at.
pub struct Agent {
    pub id: u64,
    pub plan: Vec<PlanElement>,
    pub curr_plan_elem: usize,
}

/// Activities stand at even indices of a plan, legs at odd ones; a plan starts and
/// ends with an activity, and every route names at least one link.
pub open spec fn plan_wf(plan: Seq<PlanElement>) -> bool {
    &&& plan.len() % 2 == 1
    &&& plan.len() < usize::MAX
    &&& forall|i: int| 0 <= i < plan.len() && i % 2 == 0 ==> (plan[i] is Activity)
    &&& forall|i: int| 0 <= i < plan.len() && i % 2 == 1 ==> (plan[i] is Leg)
    &&& forall|i: int| 0 <= i < plan.len() && i % 2 == 1 ==> (#[trigger] plan[i])->Leg_0.route.wf()
}

impl Agent {
    pub open spec fn wf(&self) -> bool {
        &&& plan_wf(self.plan@)
        &&& self.curr_plan_elem < self.plan@.len()
    }

    pub open spec fn on_activity(&self) -> bool {
        self.curr_plan_elem % 2 == 0
    }

    pub open spec fn has_next(&self) -> bool {
        self.curr_plan_elem + 1 < self.plan@.len()
    }

    pub open spec fn curr_act_spec(&self) -> Activity {
        self.plan@[self.curr_plan_elem as int]->Activity_0
    }

    pub open spec fn curr_leg_spec(&self) -> Leg {
        self.plan@[self.curr_plan_elem as int]->Leg_0
    }

    pub open spec fn prev_leg_spec(&self) -> Leg {
        self.plan@[self.curr_plan_elem - 1]->Leg_0
    }

    pub fn curr_act(&self) -> (r: &Activity)
        requires
            self.wf(),
            self.on_activity(),
        ensures
            *r == self.curr_act_spec(),
    {
        match &self.plan[self.curr_plan_elem] {
            PlanElement::Activity(a) => a,
            PlanElement::Leg(_) => {
                assert(false);
                unreached()
            },
        }
    }

    pub fn curr_leg(&self) -> (r: &Leg)
        requires
            self.wf(),
            !self.on_activity(),
        ensures
            *r == self.curr_leg_spec(),
            r.route.wf(),
    {
        match &self.plan[self.curr_plan_elem] {
            PlanElement::Leg(l) => l,
            PlanElement::Activity(_) => {
                assert(false);
                unreached()
            },
        }
    }

    /// The leg that led to the current activity.
    pub fn previous_leg(&self) -> (r: &Leg)
        requires
            self.wf(),
            self.on_activity(),
            self.curr_plan_elem > 0,
        ensures
            *r == self.prev_leg_spec(),
    {
        match &self.plan[self.curr_plan_elem - 1] {
            PlanElement::Leg(l) => l,
            PlanElement::Activity(_) => {
                assert(false);
                unreached()
            },
        }
    }

    /// Whether the plan is well formed, checked element by element.
    pub fn check_plan(&self) -> (r: bool)
        ensures
            r == self.wf(),
    {
        let n = self.plan.len();
        if n % 2 != 1 || n == usize::MAX || self.curr_plan_elem >= n {
            return false;
        }
        let mut i: usize = 0;
        while i < n
            invariant
                n == self.plan@.len(),
                i <= n,
                forall|j: int| 0 <= j < i && j % 2 == 0 ==> (self.plan@[j] is Activity),
                forall|j: int| 0 <= j < i && j % 2 == 1 ==> (self.plan@[j] is Leg),
                forall|j: int| 0 <= j < i && j % 2 == 1 ==> (#[trigger] self.plan@[j])->Leg_0.route.wf(),
            decreases n - i,
        {
            match &self.plan[i] {
                PlanElement::Activity(_) => {
                    if i % 2 != 0 {
                        return false;
                    }
                },
                PlanElement::Leg(l) => {
                    if i % 2 != 1 {
                        return false;
                    }
                    let len = match &l.route {
                        Route::Network(nr) => nr.links.len(),
                        Route::Generic(_) => 2,
                    };
                    if len == 0 || len == usize::MAX {
                        assert(!self.plan@[i as int]->Leg_0.route.wf());
                        return false;
                    }
                },
            }
            i = i + 1;
        }
        true
    }

    /// Moves on to the next element of the plan.
    pub fn advance_plan(&mut self)
        requires
            old(self).wf(),
            old(self).has_next(),
        ensures
            final(self).wf(),
            final(self).id == old(self).id,
            final(self).plan@ == old(self).plan@,
            final(self).curr_plan_elem == old(self).curr_plan_elem + 1,
    {
        self.curr_plan_elem = self.curr_plan_elem + 1;
    }
}

} // verus!
