use vstd::prelude::*;

verus! {

/// Accumulator units per milli-pce: the accumulator counts in 1/3600 milli-pce, so
/// that a capacity given in milli-pce per hour adds exactly itself every second.
pub const UNITS_PER_MILLI_PCE: u64 = 3600;

/// Accumulator units of one whole pce (1000 milli-pce).
pub const ONE_PCE_UNITS: u64 = 3_600_000;

/// The largest flow capacity a regulator takes, in milli-pce per hour.
pub const MAX_FLOW_CAPACITY: u64 = 8_796_093_022_208;

/// The ceiling of the accumulator: one pce, or one second of capacity if that is more.
pub open spec fn flow_limit(capacity: int) -> int {
    if capacity > ONE_PCE_UNITS {
        capacity
    } else {
        ONE_PCE_UNITS as int
    }
}

/// The accumulator after refilling from `last` to `now`.
pub open spec fn refilled(capacity: int, accumulated: int, last: int, now: int) -> int {
    if now > last {
        let a = accumulated + capacity * (now - last);
        if a > flow_limit(capacity) {
            flow_limit(capacity)
        } else {
            a
        }
    } else {
        accumulated
    }
}

/// A token bucket that limits how many pce may leave a link per second.
///
/// The capacity is held in milli-pce per hour; the accumulator in 1/3600 milli-pce,
/// so that one second of refill adds exactly `capacity` to it.
pub struct Flowcap {
    capacity: u64,
    accumulated: i64,
    last_update: u32,
}

impl Flowcap {
    pub closed spec fn capacity_spec(&self) -> int {
        self.capacity as int
    }

    pub closed spec fn accumulated_spec(&self) -> int {
        self.accumulated as int
    }

    pub closed spec fn last_update_spec(&self) -> int {
        self.last_update as int
    }

    pub open spec fn wf(&self) -> bool {
        &&& self.capacity_spec() <= MAX_FLOW_CAPACITY
        &&& self.accumulated_spec() <= flow_limit(self.capacity_spec())
        &&& self.accumulated_spec() >= i64::MIN
    }

    /// A regulator for `capacity` milli-pce per hour, holding one second's worth of it.
    pub fn new(capacity: u64) -> (r: Self)
        requires
            capacity <= MAX_FLOW_CAPACITY,
        ensures
            r.wf(),
            r.capacity_spec() == capacity,
            r.accumulated_spec() == capacity,
            r.last_update_spec() == 0,
    {
        Flowcap { capacity, accumulated: capacity as i64, last_update: 0 }
    }

    /// The capacity in milli-pce per hour.
    pub fn capacity(&self) -> (r: u64)
        ensures
            r == self.capacity_spec(),
    {
        self.capacity
    }

    pub fn accumulated(&self) -> (r: i64)
        ensures
            r == self.accumulated_spec(),
    {
        self.accumulated
    }

    /// Refills the accumulator for the seconds elapsed since the last refill.
    pub fn update_capacity(&mut self, now: u32)
        requires
            old(self).wf(),
        ensures
            final(self).wf(),
            final(self).capacity_spec() == old(self).capacity_spec(),
            final(self).accumulated_spec() == refilled(
                old(self).capacity_spec(),
                old(self).accumulated_spec(),
                old(self).last_update_spec(),
                now as int,
            ),
            final(self).last_update_spec() == if now > old(self).last_update_spec() {
                now as int
            } else {
                old(self).last_update_spec()
            },
    {
        if now > self.last_update {
            let elapsed: u32 = now - self.last_update;
            assert((elapsed as int) * (self.capacity as int) <= 4_294_967_295int * 8_796_093_022_208int)
                by (nonlinear_arith)
                requires
                    elapsed <= 4_294_967_295int,
                    self.capacity <= 8_796_093_022_208int,
            ;
            let gain: i128 = (elapsed as i128) * (self.capacity as i128);
            let a: i128 = self.accumulated as i128 + gain;
            let limit: u64 = if self.capacity > ONE_PCE_UNITS {
                self.capacity
            } else {
                ONE_PCE_UNITS
            };
            if a > limit as i128 {
                self.accumulated = limit as i64;
            } else {
                self.accumulated = a as i64;
            }
            self.last_update = now;
        }
    }

    /// Whether a vehicle may leave now.
    pub fn has_capacity(&self) -> (r: bool)
        ensures
            r == (self.accumulated_spec() > 0),
    {
        self.accumulated > 0
    }

    /// Takes `pce` milli-pce from the accumulator, which may go below zero.
    pub fn consume_capacity(&mut self, pce: u32)
        requires
            old(self).wf(),
            old(self).accumulated_spec() - pce * UNITS_PER_MILLI_PCE >= i64::MIN,
        ensures
            final(self).wf(),
            final(self).capacity_spec() == old(self).capacity_spec(),
            final(self).last_update_spec() == old(self).last_update_spec(),
            final(self).accumulated_spec() == old(self).accumulated_spec() - pce * UNITS_PER_MILLI_PCE,
    {
        self.accumulated = self.accumulated - (pce as i64) * (UNITS_PER_MILLI_PCE as i64);
    }
}

/// One operation on a flow regulator: a refill at a tick, or the release of a
/// vehicle of some milli-pce.
pub enum FlowStep {
    Refill(u32),
    Release(u32),
}

/// Whether a run of `steps` on a regulator of `capacity`, starting from `accumulated`
/// last refilled at `last`, releases a vehicle only while the accumulator is
/// positive, and only vehicles of one pce or more.
pub open spec fn flow_run_ok(capacity: int, accumulated: int, last: int, steps: Seq<FlowStep>) -> bool
    decreases steps.len(),
{
    if steps.len() == 0 {
        true
    } else {
        match steps[0] {
            FlowStep::Refill(now) => flow_run_ok(
                capacity,
                refilled(capacity, accumulated, last, now as int),
                if now > last { now as int } else { last },
                steps.drop_first(),
            ),
            FlowStep::Release(pce) => accumulated > 0 && pce >= 1000 && flow_run_ok(
                capacity,
                accumulated - pce * UNITS_PER_MILLI_PCE,
                last,
                steps.drop_first(),
            ),
        }
    }
}

/// The number of releases in `steps`.
pub open spec fn releases(steps: Seq<FlowStep>) -> int
    decreases steps.len(),
{
    if steps.len() == 0 {
        0
    } else {
        releases(steps.drop_first()) + match steps[0] {
            FlowStep::Release(_) => 1int,
            FlowStep::Refill(_) => 0int,
        }
    }
}

/// Every refill of `steps` happens no later than `end`.
pub open spec fn refills_until(steps: Seq<FlowStep>, end: int) -> bool {
    forall|i: int| 0 <= i < steps.len() ==> (#[trigger] steps[i] matches FlowStep::Refill(now) ==> now <= end)
}

proof fn lemma_flow_run(capacity: int, acc: int, last: int, t0: int, t: int, k: int, steps: Seq<FlowStep>)
    requires
        0 <= capacity,
        0 <= t,
        t0 <= last <= t0 + t,
        k >= 0,
        acc + k * ONE_PCE_UNITS <= ONE_PCE_UNITS + capacity * (last - t0),
        k == 0 || (k - 1) * ONE_PCE_UNITS < ONE_PCE_UNITS + capacity * t,
        refills_until(steps, t0 + t),
        flow_run_ok(capacity, acc, last, steps),
    ensures
        k + releases(steps) == 0 || (k + releases(steps) - 1) * ONE_PCE_UNITS < ONE_PCE_UNITS + capacity * t,
    decreases steps.len(),
{
    if steps.len() > 0 {
        let rest = steps.drop_first();
        assert forall|i: int| 0 <= i < rest.len() implies (#[trigger] rest[i] matches FlowStep::Refill(now) ==> now
            <= t0 + t) by {
            assert(rest[i] == steps[i + 1]);
        }
        assert(refills_until(rest, t0 + t));
        match steps[0] {
            FlowStep::Refill(now) => {
                assert(steps[0] matches FlowStep::Refill(n) ==> n <= t0 + t);
                let acc2 = refilled(capacity, acc, last, now as int);
                if now > last {
                    assert(capacity * (now - last) + capacity * (last - t0) == capacity * (now - t0))
                        by (nonlinear_arith);
                    lemma_flow_run(capacity, acc2, now as int, t0, t, k, rest);
                } else {
                    lemma_flow_run(capacity, acc2, last, t0, t, k, rest);
                }
            },
            FlowStep::Release(pce) => {
                assert(capacity * (last - t0) <= capacity * t) by (nonlinear_arith)
                    requires
                        0 <= capacity,
                        last - t0 <= t,
                ;
                lemma_flow_run(capacity, acc - pce * UNITS_PER_MILLI_PCE, last, t0, t, k + 1, rest);
            },
        }
    }
}

/// The flow bound: a link of at most one pce per second, whose bucket holds at most
/// one pce at tick `t0`, releases at most ⌈capacity × t⌉ + 1 vehicles of one pce or
/// more up to tick `t0 + t` (capacity in pce per second is `capacity` over
/// [`ONE_PCE_UNITS`]).
pub proof fn law_flow_bound(capacity: int, accumulated: int, t0: int, t: int, steps: Seq<FlowStep>)
    requires
        0 <= capacity <= ONE_PCE_UNITS,
        accumulated <= ONE_PCE_UNITS,
        0 <= t,
        refills_until(steps, t0 + t),
        flow_run_ok(capacity, accumulated, t0, steps),
    ensures
        releases(steps) <= (capacity * t + ONE_PCE_UNITS - 1) / (ONE_PCE_UNITS as int) + 1,
{
    assert(capacity * (t0 - t0) == 0) by (nonlinear_arith);
    lemma_flow_run(capacity, accumulated, t0, t0, t, 0, steps);
    let k = releases(steps);
    let x = capacity * t;
    assert(x >= 0) by (nonlinear_arith)
        requires
            x == capacity * t,
            capacity >= 0,
            t >= 0,
    ;
    lemma_releases_nonneg(steps);
    if k > 0 {
        assert((k - 1) * 3_600_000 < 3_600_000 + x);
        assert(k - 1 <= (x + 3_600_000 - 1) / 3_600_000) by (nonlinear_arith)
            requires
                (k - 1) * 3_600_000 < 3_600_000 + x,
                k >= 1,
                x >= 0,
        ;
    }
}

proof fn lemma_releases_nonneg(steps: Seq<FlowStep>)
    ensures
        releases(steps) >= 0,
    decreases steps.len(),
{
    if steps.len() > 0 {
        lemma_releases_nonneg(steps.drop_first());
    }
}

} // verus!
