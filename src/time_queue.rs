use vstd::prelude::*;

verus! {

/// One entry of a [`TimeQueue`]: an item and the tick at which it is released.
pub struct TimeEntry<T> {
    pub time: u32,
    pub item: T,
}

/// A queue of items keyed by a release tick.
///
/// Entries are kept ordered by non-increasing release tick, so that the entries due
/// first sit at the end of the vector and leave it with `pop`.
pub struct TimeQueue<T> {
    entries: Vec<TimeEntry<T>>,
}

/// The entries of `s` are ordered by non-increasing release tick.
pub open spec fn non_increasing<T>(s: Seq<(u32, T)>) -> bool {
    forall|i: int, j: int| 0 <= i < j < s.len() ==> s[i].0 >= s[j].0
}

impl<T> View for TimeQueue<T> {
    type V = Seq<(u32, T)>;

    closed spec fn view(&self) -> Seq<(u32, T)> {
        self.entries@.map_values(|e: TimeEntry<T>| (e.time, e.item))
    }
}

impl<T> TimeQueue<T> {
    pub open spec fn wf(&self) -> bool {
        non_increasing(self@)
    }

    pub fn new() -> (r: Self)
        ensures
            r.wf(),
            r@ == Seq::<(u32, T)>::empty(),
    {
        TimeQueue { entries: Vec::new() }
    }

    pub fn len(&self) -> (r: usize)
        ensures
            r == self@.len(),
    {
        self.entries.len()
    }

    pub fn is_empty(&self) -> (r: bool)
        ensures
            r == (self@.len() == 0),
    {
        self.entries.len() == 0
    }

    /// The number of leading entries whose release tick is later than `time`.
    fn insert_position(&self, time: u32) -> (r: usize)
        requires
            self.wf(),
        ensures
            r <= self@.len(),
            forall|i: int| 0 <= i < r ==> self@[i].0 > time,
            forall|i: int| r <= i < self@.len() ==> self@[i].0 <= time,
    {
        let mut lo: usize = 0;
        let mut hi: usize = self.entries.len();
        while lo < hi
            invariant
                self.wf(),
                lo <= hi <= self@.len(),
                forall|i: int| 0 <= i < lo ==> self@[i].0 > time,
                forall|i: int| hi <= i < self@.len() ==> self@[i].0 <= time,
            decreases hi - lo,
        {
            let mid = lo + (hi - lo) / 2;
            assert(self@[mid as int].0 == self.entries@[mid as int].time);
            if self.entries[mid].time > time {
                lo = mid + 1;
            } else {
                hi = mid;
            }
        }
        lo
    }

    /// Adds `item`, to be released at tick `time`.
    pub fn add(&mut self, item: T, time: u32)
        requires
            old(self).wf(),
        ensures
            final(self).wf(),
            exists|k: int|
                0 <= k <= old(self)@.len() && final(self)@ == old(self)@.insert(k, (time, item)),
    {
        let k = self.insert_position(time);
        self.entries.insert(k, TimeEntry { time, item });
        assert(self@ =~= old(self)@.insert(k as int, (time, item)));
    }

    /// Removes and returns every item whose release tick is at most `now`, earliest
    /// release first.
    pub fn pop(&mut self, now: u32) -> (r: Vec<T>)
        requires
            old(self).wf(),
        ensures
            final(self).wf(),
            final(self)@ == old(self)@.take(final(self)@.len() as int),
            forall|i: int| 0 <= i < final(self)@.len() ==> final(self)@[i].0 > now,
            forall|i: int| final(self)@.len() <= i < old(self)@.len() ==> old(self)@[i].0 <= now,
            r@.len() == old(self)@.len() - final(self)@.len(),
            forall|j: int|
                0 <= j < r@.len() ==> r@[j] == old(self)@[old(self)@.len() - 1 - j].1,
    {
        let mut r: Vec<T> = Vec::new();
        let ghost n = old(self)@.len();
        while self.entries.len() > 0 && self.entries[self.entries.len() - 1].time <= now
            invariant
                self@ == old(self)@.take(self@.len() as int),
                self@.len() <= n,
                n == old(self)@.len(),
                non_increasing(old(self)@),
                forall|i: int| self@.len() <= i < n ==> old(self)@[i].0 <= now,
                r@.len() == n - self@.len(),
                forall|j: int| 0 <= j < r@.len() ==> r@[j] == old(self)@[n - 1 - j].1,
            decreases self@.len(),
        {
            let ghost before = self@;
            let e = self.entries.pop().unwrap();
            assert(before[before.len() - 1] == (e.time, e.item));
            r.push(e.item);
            assert(self@ =~= before.take(before.len() - 1));
        }
        proof {
            let len = self@.len() as int;
            if len > 0 {
                assert(self@[len - 1].0 > now);
                assert forall|i: int| 0 <= i < len implies self@[i].0 > now by {
                    assert(old(self)@[i].0 >= old(self)@[len - 1].0);
                }
            }
        }
        r
    }
}

} // verus!
