use vstd::prelude::*;

verus! {

/// The occupancy a link can hold, in milli-pce: the larger of the space its lanes
/// give (`length × lanes × sample / cell size`) and twice one second of its flow
/// capacity, scaled by the sample size; capped at [`MAX_STORAGE`].
///
/// Lengths and cell sizes are in millimetres, lanes in thousandths of a lane, the
/// sample size in parts per million and the flow capacity in milli-pce per hour.
pub open spec fn max_storage(length: int, lanes: int, flow_capacity: int, sample: int, cell: int) -> int {
    let by_space = length * lanes * sample / (1_000_000 * cell);
    let by_flow = 2 * flow_capacity * sample / 3_600_000_000;
    let m = if by_space > by_flow { by_space } else { by_flow };
    if m > MAX_STORAGE { MAX_STORAGE as int } else { m }
}

/// The largest occupancy a link is sized for, in milli-pce.
pub const MAX_STORAGE: u64 = 9_223_372_036_854_775_807;

/// The occupancy of a link, in milli-pce. What leaves the link is only returned to
/// it at the next tick boundary (`apply_released`).
pub struct StorageCap {
    max: u64,
    used: u64,
    released: u64,
}

impl StorageCap {
    pub closed spec fn max_spec(&self) -> int {
        self.max as int
    }

    pub closed spec fn used_spec(&self) -> int {
        self.used as int
    }

    pub closed spec fn released_spec(&self) -> int {
        self.released as int
    }

    pub open spec fn wf(&self) -> bool {
        &&& self.released_spec() <= self.used_spec()
        &&& self.max_spec() <= MAX_STORAGE
    }

    /// An empty storage of `max` milli-pce.
    pub fn with_max(max: u64) -> (r: Self)
        requires
            max <= MAX_STORAGE,
        ensures
            r.wf(),
            r.max_spec() == max,
            r.used_spec() == 0,
            r.released_spec() == 0,
    {
        StorageCap { max, used: 0, released: 0 }
    }

    /// An empty storage sized by [`max_storage`].
    pub fn new(length: u32, lanes: u32, flow_capacity: u64, sample: u32, cell: u32) -> (r: Self)
        requires
            cell > 0,
        ensures
            r.wf(),
            r.max_spec() == max_storage(length as int, lanes as int, flow_capacity as int, sample as int, cell as int),
            r.used_spec() == 0,
            r.released_spec() == 0,
    {
        assert((length as int) * (lanes as int) <= 4_294_967_295int * 4_294_967_295int) by (nonlinear_arith)
            requires
                length <= 4_294_967_295int,
                lanes <= 4_294_967_295int,
        {
        }
        let ll: u128 = (length as u128) * (lanes as u128);
        assert(ll * (sample as int) <= 18_446_744_073_709_551_615int * 4_294_967_295int) by (nonlinear_arith)
            requires
                ll <= 18_446_744_073_709_551_615int,
                sample <= 4_294_967_295int,
        {
        }
        let by_space: u128 = ll * (sample as u128) / (1_000_000u128 * cell as u128);
        let fc: u128 = 2 * (flow_capacity as u128);
        assert(fc * (sample as int) <= 36_893_488_147_419_103_230int * 4_294_967_295int) by (nonlinear_arith)
            requires
                fc <= 36_893_488_147_419_103_230int,
                sample <= 4_294_967_295int,
        {
        }
        let by_flow: u128 = fc * (sample as u128) / 3_600_000_000u128;
        assert(by_space == (length as int) * (lanes as int) * (sample as int) / (1_000_000 * cell as int));
        assert(by_flow == 2 * (flow_capacity as int) * (sample as int) / 3_600_000_000);
        let m: u128 = if by_space > by_flow { by_space } else { by_flow };
        let max: u64 = if m > MAX_STORAGE as u128 { MAX_STORAGE } else { m as u64 };
        StorageCap { max, used: 0, released: 0 }
    }

    pub fn max(&self) -> (r: u64)
        ensures
            r == self.max_spec(),
    {
        self.max
    }

    pub fn used(&self) -> (r: u64)
        ensures
            r == self.used_spec(),
    {
        self.used
    }

    pub fn released(&self) -> (r: u64)
        ensures
            r == self.released_spec(),
    {
        self.released
    }

    /// Occupies `pce` milli-pce.
    pub fn consume(&mut self, pce: u64)
        requires
            old(self).wf(),
            old(self).used_spec() + pce <= u64::MAX,
        ensures
            final(self).wf(),
            final(self).max_spec() == old(self).max_spec(),
            final(self).used_spec() == old(self).used_spec() + pce,
            final(self).released_spec() == old(self).released_spec(),
    {
        self.used = self.used + pce;
    }

    /// Records that `pce` milli-pce left; they stay occupied until `apply_released`.
    pub fn release(&mut self, pce: u64)
        requires
            old(self).wf(),
            old(self).released_spec() + pce <= old(self).used_spec(),
        ensures
            final(self).wf(),
            final(self).max_spec() == old(self).max_spec(),
            final(self).used_spec() == old(self).used_spec(),
            final(self).released_spec() == old(self).released_spec() + pce,
    {
        self.released = self.released + pce;
    }

    /// Frees what was released since the last tick boundary.
    pub fn apply_released(&mut self)
        requires
            old(self).wf(),
        ensures
            final(self).wf(),
            final(self).max_spec() == old(self).max_spec(),
            final(self).used_spec() == old(self).used_spec() - old(self).released_spec(),
            final(self).released_spec() == 0,
    {
        self.used = self.used - self.released;
        self.released = 0;
    }

    /// Drops all occupancy, including what was released and not yet applied.
    pub fn clear(&mut self)
        requires
            old(self).wf(),
        ensures
            final(self).wf(),
            final(self).max_spec() == old(self).max_spec(),
            final(self).used_spec() == 0,
            final(self).released_spec() == 0,
    {
        self.used = 0;
        self.released = 0;
    }

    /// Whether the link takes another vehicle.
    pub fn is_available(&self) -> (r: bool)
        ensures
            r == (self.used_spec() < self.max_spec()),
    {
        self.used < self.max
    }
}

} // verus!
