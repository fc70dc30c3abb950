use vstd::prelude::*;

verus! {

/// What happens in the simulation. Ids are internal ids.
#[derive(PartialEq, Eq, Structural, Clone, Copy, Debug)]
pub enum Event {
    ActStart { person: u64, link: u64, act_type: u64 },
    ActEnd { person: u64, link: u64, act_type: u64 },
    Departure { person: u64, link: u64, mode: u64 },
    Arrival { person: u64, link: u64, mode: u64 },
    Travelled { person: u64, distance: u64, mode: u64 },
    PersonEntersVehicle { person: u64, vehicle: u64 },
    PersonLeavesVehicle { person: u64, vehicle: u64 },
    LinkEnter { link: u64, vehicle: u64 },
    LinkLeave { link: u64, vehicle: u64 },
    Generic { kind: u64 },
}

/// Collects the events of a partition, each with the tick it happened at, in the
/// order they happened. Whoever drives the simulation hands them on to writers.
pub struct EventsPublisher {
    events: Vec<(u32, Event)>,
}

impl View for EventsPublisher {
    type V = Seq<(u32, Event)>;

    closed spec fn view(&self) -> Seq<(u32, Event)> {
        self.events@
    }
}

impl EventsPublisher {
    pub fn new() -> (r: Self)
        ensures
            r@ == Seq::<(u32, Event)>::empty(),
    {
        EventsPublisher { events: Vec::new() }
    }

    pub fn publish_event(&mut self, time: u32, event: Event)
        ensures
            final(self)@ == old(self)@.push((time, event)),
    {
        self.events.push((time, event));
    }

    /// Hands out the events published so far and forgets them.
    pub fn take_events(&mut self) -> (r: Vec<(u32, Event)>)
        ensures
            r@ == old(self)@,
            final(self)@ == Seq::<(u32, Event)>::empty(),
    {
        let mut out: Vec<(u32, Event)> = Vec::new();
        std::mem::swap(&mut self.events, &mut out);
        out
    }

    pub fn len(&self) -> (r: usize)
        ensures
            r == self@.len(),
    {
        self.events.len()
    }
}

} // verus!
