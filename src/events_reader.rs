use vstd::prelude::*;
use crate::events::Event;

verus! {

/// How many activities ended at one tick in one partition.
#[derive(PartialEq, Eq, Structural, Clone, Copy, Debug)]
pub struct CountRow {
    pub time: u32,
    pub partition: u32,
    pub count: u64,
}

/// Row `a` comes before row `b`: earlier tick, or the same tick and a lower partition.
pub open spec fn row_before(a: CountRow, b: CountRow) -> bool {
    a.time < b.time || (a.time == b.time && a.partition < b.partition)
}

pub open spec fn rows_sorted(rows: Seq<CountRow>) -> bool {
    forall|i: int, j: int| 0 <= i < j < rows.len() ==> row_before(#[trigger] rows[i], #[trigger] rows[j])
}

/// Some row of `rows` is for tick `t` and partition `p`.
pub open spec fn has_row(rows: Seq<CountRow>, t: u32, p: u32) -> bool {
    exists|i: int| 0 <= i < rows.len() && (#[trigger] rows[i]).time == t && rows[i].partition == p
}

/// The count of the row for tick `t` and partition `p`; zero where there is none.
pub open spec fn counted(rows: Seq<CountRow>, t: u32, p: u32) -> int {
    if has_row(rows, t, p) {
        rows[choose|i: int| 0 <= i < rows.len() && (#[trigger] rows[i]).time == t && rows[i].partition == p].count as int
    } else {
        0
    }
}

/// Counts, from the event stream, the activities that end at each tick in each
/// partition, leaving out some activity types (the interaction activities between
/// legs). The partition of an activity is that of its link.
pub struct StatefulEventsReader {
    partition_by_link: Vec<u32>,
    excluded_act_types: Vec<u64>,
    data: Vec<CountRow>,
}

impl StatefulEventsReader {
    pub closed spec fn partitions_spec(&self) -> Seq<u32> {
        self.partition_by_link@
    }

    pub closed spec fn excluded_spec(&self) -> Seq<u64> {
        self.excluded_act_types@
    }

    pub closed spec fn rows_spec(&self) -> Seq<CountRow> {
        self.data@
    }

    pub open spec fn wf(&self) -> bool {
        rows_sorted(self.rows_spec())
    }

    /// Whether an activity-end event at tick `time` counts, and for which partition.
    pub open spec fn counts(&self, event: Event) -> bool {
        event matches Event::ActEnd { link, act_type, .. } && link < self.partitions_spec().len()
            && !self.excluded_spec().contains(act_type)
    }

    pub fn new(partition_by_link: Vec<u32>, excluded_act_types: Vec<u64>) -> (r: Self)
        ensures
            r.wf(),
            r.partitions_spec() == partition_by_link@,
            r.excluded_spec() == excluded_act_types@,
            r.rows_spec().len() == 0,
    {
        StatefulEventsReader { partition_by_link, excluded_act_types, data: Vec::new() }
    }

    fn is_excluded(&self, act_type: u64) -> (r: bool)
        ensures
            r == self.excluded_spec().contains(act_type),
    {
        let mut i: usize = 0;
        while i < self.excluded_act_types.len()
            invariant
                i <= self.excluded_act_types@.len(),
                forall|j: int| 0 <= j < i ==> self.excluded_act_types@[j] != act_type,
            decreases self.excluded_act_types@.len() - i,
        {
            if self.excluded_act_types[i] == act_type {
                assert(self.excluded_spec()[i as int] == act_type);
                return true;
            }
            i = i + 1;
        }
        false
    }

    /// Counts `event`, which happened at `time`, if it is the end of an activity that
    /// counts; a count stays at `u64::MAX` once it gets there.
    pub fn process_event(&mut self, time: u32, event: &Event)
        requires
            old(self).wf(),
        ensures
            final(self).wf(),
            final(self).partitions_spec() == old(self).partitions_spec(),
            final(self).excluded_spec() == old(self).excluded_spec(),
            forall|t: u32, p: u32|
                #![trigger counted(final(self).rows_spec(), t, p)]
                counted(final(self).rows_spec(), t, p) == if old(self).counts(*event) && t == time && p
                    == old(self).partitions_spec()[event->ActEnd_link as int] && counted(old(self).rows_spec(), t, p)
                    < u64::MAX {
                    counted(old(self).rows_spec(), t, p) + 1
                } else {
                    counted(old(self).rows_spec(), t, p)
                },
    {
        if let Event::ActEnd { link, act_type, .. } = *event {
            if link < self.partition_by_link.len() as u64 && !self.is_excluded(act_type) {
                let p = self.partition_by_link[link as usize];
                self.increment(time, p);
                return;
            }
        }
    }

    /// Adds one to the count of tick `time` in partition `p`.
    fn increment(&mut self, time: u32, p: u32)
        requires
            old(self).wf(),
        ensures
            final(self).wf(),
            final(self).partitions_spec() == old(self).partitions_spec(),
            final(self).excluded_spec() == old(self).excluded_spec(),
            forall|t: u32, q: u32|
                #![trigger counted(final(self).rows_spec(), t, q)]
                counted(final(self).rows_spec(), t, q) == if t == time && q == p && counted(old(self).rows_spec(), t, q)
                    < u64::MAX {
                    counted(old(self).rows_spec(), t, q) + 1
                } else {
                    counted(old(self).rows_spec(), t, q)
                },
    {
        let key = CountRow { time, partition: p, count: 0 };
        let ghost d0 = self.data@;
        let mut i: usize = 0;
        while i < self.data.len() && row_before_exec(&self.data[i], &key)
            invariant
                self.data@ == d0,
                rows_sorted(d0),
                i <= d0.len(),
                forall|j: int| 0 <= j < i ==> row_before(d0[j], key),
            decreases d0.len() - i,
        {
            i = i + 1;
        }
        proof {
            lemma_unique_keys(d0);
        }
        if i < self.data.len() && self.data[i].time == time && self.data[i].partition == p {
            let row = self.data[i];
            if row.count < u64::MAX {
                self.data.set(i, CountRow { time, partition: p, count: row.count + 1 });
            }
            proof {
                let d1 = self.data@;
                assert forall|a: int, b: int| 0 <= a < b < d1.len() implies row_before(#[trigger] d1[a], #[trigger] d1[b]) by {
                    assert(row_before(d0[a], d0[b]));
                }
                lemma_unique_keys(d1);
                assert forall|t: u32, q: u32| #![trigger counted(d1, t, q)]
                    counted(d1, t, q) == if t == time && q == p && counted(d0, t, q) < u64::MAX {
                        counted(d0, t, q) + 1
                    } else {
                        counted(d0, t, q)
                    } by {
                    assert(has_row(d0, time, p) && d0[i as int].time == time && d0[i as int].partition == p);
                    if has_row(d0, t, q) {
                        let k = choose|k: int| 0 <= k < d0.len() && (#[trigger] d0[k]).time == t && d0[k].partition == q;
                        assert(d1[k].time == t && d1[k].partition == q);
                        assert(has_row(d1, t, q));
                    }
                    if has_row(d1, t, q) {
                        let k = choose|k: int| 0 <= k < d1.len() && (#[trigger] d1[k]).time == t && d1[k].partition == q;
                        assert(d0[k].time == t && d0[k].partition == q);
                    }
                }
            }
        } else {
            self.data.insert(i, CountRow { time, partition: p, count: 1 });
            proof {
                let d1 = self.data@;
                assert(d1 == d0.insert(i as int, CountRow { time, partition: p, count: 1 }));
                assert forall|a: int, b: int| 0 <= a < b < d1.len() implies row_before(#[trigger] d1[a], #[trigger] d1[b]) by {
                    if b < i {
                        assert(row_before(d0[a], d0[b]));
                    } else if b == i {
                        assert(row_before(d0[a], key));
                    } else if a < i {
                        assert(row_before(d0[a], d0[b - 1]));
                    } else if a == i {
                        assert(!row_before(d0[i as int], key));
                        assert(b - 1 >= i);
                        if b - 1 > i {
                            assert(row_before(d0[i as int], d0[b - 1]));
                        }
                    } else {
                        assert(row_before(d0[a - 1], d0[b - 1]));
                    }
                }
                lemma_unique_keys(d1);
                assert(!has_row(d0, time, p)) by {
                    if has_row(d0, time, p) {
                        let k = choose|k: int| 0 <= k < d0.len() && (#[trigger] d0[k]).time == time && d0[k].partition == p;
                        if k < i {
                            assert(row_before(d0[k], key));
                        } else if k > i {
                            assert(row_before(d0[i as int], d0[k]));
                            assert(!row_before(d0[i as int], key));
                        }
                    }
                }
                assert forall|t: u32, q: u32| #![trigger counted(d1, t, q)]
                    counted(d1, t, q) == if t == time && q == p && counted(d0, t, q) < u64::MAX {
                        counted(d0, t, q) + 1
                    } else {
                        counted(d0, t, q)
                    } by {
                    assert(d1[i as int].time == time && d1[i as int].partition == p);
                    if has_row(d0, t, q) {
                        let k = choose|k: int| 0 <= k < d0.len() && (#[trigger] d0[k]).time == t && d0[k].partition == q;
                        let k1 = if k < i { k } else { k + 1 };
                        assert(d1[k1] == d0[k]);
                        assert(has_row(d1, t, q));
                    }
                    if has_row(d1, t, q) {
                        let k = choose|k: int| 0 <= k < d1.len() && (#[trigger] d1[k]).time == t && d1[k].partition == q;
                        if k < i {
                            assert(d0[k] == d1[k]);
                        } else if k > i {
                            assert(d0[k - 1] == d1[k]);
                        }
                    }
                }
            }
        }
    }

    /// The counts, ordered by tick and then by partition.
    pub fn rows(&self) -> (r: Vec<CountRow>)
        ensures
            r@ == self.rows_spec(),
    {
        let mut r: Vec<CountRow> = Vec::new();
        let mut i: usize = 0;
        while i < self.data.len()
            invariant
                i <= self.data@.len(),
                r@ == self.data@.take(i as int),
            decreases self.data@.len() - i,
        {
            r.push(self.data[i]);
            i = i + 1;
            assert(r@ =~= self.data@.take(i as int));
        }
        assert(r@ =~= self.data@);
        r
    }
}

fn row_before_exec(a: &CountRow, b: &CountRow) -> (r: bool)
    ensures
        r == row_before(*a, *b),
{
    a.time < b.time || (a.time == b.time && a.partition < b.partition)
}

/// In sorted rows, the row of a tick and partition is the only one with that key.
proof fn lemma_unique_keys(rows: Seq<CountRow>)
    requires
        rows_sorted(rows),
    ensures
        forall|i: int, j: int|
            0 <= i < rows.len() && 0 <= j < rows.len() && rows[i].time == rows[j].time && rows[i].partition
                == rows[j].partition ==> i == j,
{
    assert forall|i: int, j: int|
        0 <= i < rows.len() && 0 <= j < rows.len() && rows[i].time == rows[j].time && rows[i].partition
            == rows[j].partition implies i == j by {
        if i < j {
            assert(row_before(rows[i], rows[j]));
        } else if j < i {
            assert(row_before(rows[j], rows[i]));
        }
    }
}

} // verus!
