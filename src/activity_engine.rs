use vstd::prelude::*;
use crate::events::{Event, EventsPublisher};
use crate::population::{Agent, activity_end};
use crate::time_queue::TimeQueue;

verus! {

/// Every agent of `q` is well formed and at an activity.
pub open spec fn agents_at_activity(q: Seq<(u32, Agent)>) -> bool {
    forall|i: int| 0 <= i < q.len() ==> (#[trigger] q[i]).1.wf() && q[i].1.on_activity()
}

/// The activity-end events of `agents` at tick `now`, in order.
pub open spec fn act_end_events(agents: Seq<Agent>, now: u32) -> Seq<(u32, Event)> {
    agents.map_values(
        |a: Agent|
            (
                now,
                Event::ActEnd {
                    person: a.id,
                    link: a.curr_act_spec().link_id,
                    act_type: a.curr_act_spec().act_type,
                },
            ),
    )
}

/// Holds the agents that are at an activity until it ends.
pub struct ActivityEngine {
    activity_q: TimeQueue<Agent>,
}

impl ActivityEngine {
    pub closed spec fn queue_spec(&self) -> Seq<(u32, Agent)> {
        self.activity_q@
    }

    pub open spec fn wf(&self) -> bool {
        &&& crate::time_queue::non_increasing(self.queue_spec())
        &&& agents_at_activity(self.queue_spec())
    }

    pub fn new(activity_q: TimeQueue<Agent>) -> (r: Self)
        requires
            activity_q.wf(),
            agents_at_activity(activity_q@),
        ensures
            r.wf(),
            r.queue_spec() == activity_q@,
    {
        ActivityEngine { activity_q }
    }

    pub fn len(&self) -> (r: usize)
        ensures
            r == self.queue_spec().len(),
    {
        self.activity_q.len()
    }

    /// Puts `agent`, who starts its current activity at `now`, into the queue until
    /// that activity ends.
    pub fn add_agent(&mut self, agent: Agent, now: u32)
        requires
            old(self).wf(),
            agent.wf(),
            agent.on_activity(),
        ensures
            final(self).wf(),
            exists|k: int|
                0 <= k <= old(self).queue_spec().len() && final(self).queue_spec() == #[trigger] old(self).queue_spec().insert(
                    k,
                    (activity_end(agent.curr_act_spec(), now as int) as u32, agent),
                ),
    {
        let end = agent.curr_act().end_time(now);
        let ghost q0 = self.activity_q@;
        self.activity_q.add(agent, end);
        proof {
            let k = choose|k: int| 0 <= k <= q0.len() && self.activity_q@ == q0.insert(k, (end, agent));
            assert forall|i: int| 0 <= i < self.activity_q@.len() implies (#[trigger] self.activity_q@[i]).1.wf()
                && self.activity_q@[i].1.on_activity() by {
                if i < k {
                    assert(self.activity_q@[i] == q0[i]);
                } else if i > k {
                    assert(self.activity_q@[i] == q0[i - 1]);
                }
            }
        }
    }

    /// Takes out the agents whose activity ends by `now` and publishes the end of
    /// each activity.
    pub fn wake_up(&mut self, now: u32, events: &mut EventsPublisher) -> (r: Vec<Agent>)
        requires
            old(self).wf(),
        ensures
            final(self).wf(),
            forall|i: int| 0 <= i < r@.len() ==> (#[trigger] r@[i]).wf() && r@[i].on_activity(),
            final(self).queue_spec().len() + r@.len() == old(self).queue_spec().len(),
            final(self).queue_spec() == old(self).queue_spec().take(final(self).queue_spec().len() as int),
            forall|i: int| 0 <= i < final(self).queue_spec().len() ==> (#[trigger] final(self).queue_spec()[i]).0 > now,
            forall|j: int|
                0 <= j < r@.len() ==> (#[trigger] r@[j]) == old(self).queue_spec()[old(self).queue_spec().len() - 1 - j].1
                    && old(self).queue_spec()[old(self).queue_spec().len() - 1 - j].0 <= now,
            final(events)@ == old(events)@ + act_end_events(r@, now),
    {
        let ghost q0 = self.activity_q@;
        let agents = self.activity_q.pop(now);
        assert forall|i: int| 0 <= i < self.activity_q@.len() implies (#[trigger] self.activity_q@[i]).1.wf()
            && self.activity_q@[i].1.on_activity() by {
            assert(self.activity_q@[i] == q0[i]);
        }
        let ghost e0 = events@;
        let mut i: usize = 0;
        while i < agents.len()
            invariant
                i <= agents@.len(),
                forall|j: int| 0 <= j < agents@.len() ==> (#[trigger] agents@[j]) == q0[q0.len() - 1 - j].1,
                agents@.len() <= q0.len(),
                agents_at_activity(q0),
                events@ == e0 + act_end_events(agents@.take(i as int), now),
            decreases agents@.len() - i,
        {
            let a = &agents[i];
            assert(q0[q0.len() - 1 - i].1 == agents@[i as int]);
            let act = a.curr_act();
            events.publish_event(now, Event::ActEnd { person: a.id, link: act.link_id, act_type: act.act_type });
            i = i + 1;
            assert(act_end_events(agents@.take(i as int), now) =~= act_end_events(agents@.take(i - 1), now).push(
                (now, Event::ActEnd { person: a.id, link: act.link_id, act_type: act.act_type }),
            ));
        }
        assert(agents@.take(agents@.len() as int) =~= agents@);
        assert forall|j: int| 0 <= j < agents@.len() implies (#[trigger] agents@[j]).wf() && agents@[j].on_activity() by {
            assert(agents@[j] == q0[q0.len() - 1 - j].1);
        }
        agents
    }

    /// Lets `agent` arrive at the activity its plan is at, by the leg before it:
    /// publishes the arrival and the start of the activity, and queues the agent.
    pub fn receive_agent(&mut self, now: u32, agent: Agent, events: &mut EventsPublisher)
        requires
            old(self).wf(),
            agent.wf(),
            agent.on_activity(),
            agent.curr_plan_elem > 0,
        ensures
            final(self).wf(),
            final(self).queue_spec().len() == old(self).queue_spec().len() + 1,
            exists|k: int|
                0 <= k <= old(self).queue_spec().len() && final(self).queue_spec() == #[trigger] old(self).queue_spec().insert(
                    k,
                    (activity_end(agent.curr_act_spec(), now as int) as u32, agent),
                ),
            final(events)@ == old(events)@.push(
                (
                    now,
                    Event::Arrival {
                        person: agent.id,
                        link: agent.curr_act_spec().link_id,
                        mode: agent.prev_leg_spec().mode,
                    },
                ),
            ).push(
                (
                    now,
                    Event::ActStart {
                        person: agent.id,
                        link: agent.curr_act_spec().link_id,
                        act_type: agent.curr_act_spec().act_type,
                    },
                ),
            ),
    {
        let act = agent.curr_act();
        let mode = agent.previous_leg().mode;
        events.publish_event(now, Event::Arrival { person: agent.id, link: act.link_id, mode });
        events.publish_event(now, Event::ActStart { person: agent.id, link: act.link_id, act_type: act.act_type });
        self.add_agent(agent, now);
    }
}

} // verus!
