use vstd::prelude::*;
use crate::population::Agent;

verus! {

/// A node of the whole network and the partition it is assigned to.
pub struct Node {
    pub id: u64,
    pub partition: u32,
    pub in_links: Vec<u64>,
    pub out_links: Vec<u64>,
}

/// A link of the whole network. Lengths are in millimetres, speeds in millimetres per
/// second, the capacity in vehicles per hour and the lanes in thousandths of a lane.
#[derive(Clone, Copy, Debug)]
pub struct Link {
    pub id: u64,
    pub from: u64,
    pub to: u64,
    pub length: u32,
    pub freespeed: u64,
    pub capacity: u32,
    pub permlanes: u32,
}

/// The whole network, read-only once loaded: nodes and links indexed by id, and the
/// space one vehicle takes on a lane, in millimetres.
pub struct Network {
    pub nodes: Vec<Node>,
    pub links: Vec<Link>,
    pub effective_cell_size: u32,
}

impl Network {
    /// Ids are positions; every link joins two nodes, and every node lists exactly
    /// the links that end and start at it.
    pub open spec fn wf(&self) -> bool {
        &&& self.effective_cell_size > 0
        &&& forall|i: int| 0 <= i < self.nodes@.len() ==> (#[trigger] self.nodes@[i]).in_links@.len() <= u32::MAX
        &&& forall|i: int| 0 <= i < self.nodes@.len() ==> (#[trigger] self.nodes@[i]).id == i
        &&& forall|i: int|
            0 <= i < self.links@.len() ==> {
                &&& (#[trigger] self.links@[i]).id == i
                &&& self.links@[i].from < self.nodes@.len()
                &&& self.links@[i].to < self.nodes@.len()
                &&& self.links@[i].freespeed > 0
            }
        &&& forall|i: int, k: int|
            0 <= i < self.nodes@.len() && 0 <= k < self.nodes@[i].in_links@.len() ==> {
                &&& (#[trigger] self.nodes@[i].in_links@[k]) < self.links@.len()
                &&& self.links@[self.nodes@[i].in_links@[k] as int].to == i
            }
        &&& forall|i: int, k: int|
            0 <= i < self.nodes@.len() && 0 <= k < self.nodes@[i].out_links@.len() ==> {
                &&& (#[trigger] self.nodes@[i].out_links@[k]) < self.links@.len()
                &&& self.links@[self.nodes@[i].out_links@[k] as int].from == i
            }
    }

    pub open spec fn from_part(&self, link: int) -> u32 {
        self.nodes@[self.links@[link].from as int].partition
    }

    pub open spec fn to_part(&self, link: int) -> u32 {
        self.nodes@[self.links@[link].to as int].partition
    }

    /// Link `link` starts or ends at a node of `partition`.
    pub open spec fn touches(&self, link: int, partition: u32) -> bool {
        self.from_part(link) == partition || self.to_part(link) == partition
    }

    /// The partition of each link, by link id: that of the node it ends at.
    pub fn link_partitions(&self) -> (r: Vec<u32>)
        requires
            self.wf(),
        ensures
            r@.len() == self.links@.len(),
            forall|i: int| 0 <= i < r@.len() ==> r@[i] == #[trigger] self.to_part(i),
    {
        let mut r: Vec<u32> = Vec::new();
        let mut i: usize = 0;
        while i < self.links.len()
            invariant
                self.wf(),
                i <= self.links@.len(),
                r@.len() == i,
                forall|k: int| 0 <= k < i ==> r@[k] == #[trigger] self.to_part(k),
            decreases self.links@.len() - i,
        {
            let to = self.links[i].to;
            let nlen = self.nodes.len();
            assert(to < nlen);
            r.push(self.nodes[to as usize].partition);
            i = i + 1;
        }
        r
    }

    /// Agent `a` is at an activity on a link that ends in `partition`.
    pub open spec fn starts_in(&self, a: Agent, partition: u32) -> bool {
        a.curr_act_spec().link_id < self.links@.len() && self.to_part(a.curr_act_spec().link_id as int) == partition
    }

    /// The agents of `s` that start in `partition`, in order.
    pub open spec fn agents_in(&self, s: Seq<Agent>, partition: u32) -> Seq<Agent>
        decreases s.len(),
    {
        if s.len() == 0 {
            Seq::empty()
        } else if self.starts_in(s.last(), partition) {
            self.agents_in(s.drop_last(), partition).push(s.last())
        } else {
            self.agents_in(s.drop_last(), partition)
        }
    }

    /// The agents that start in `partition`: those whose current activity lies on a
    /// link of it, in order.
    pub fn agents_of_partition(&self, agents: Vec<Agent>, partition: u32) -> (r: Vec<Agent>)
        requires
            self.wf(),
            forall|i: int| 0 <= i < agents@.len() ==> (#[trigger] agents@[i]).wf() && agents@[i].on_activity(),
        ensures
            r@ == self.agents_in(agents@, partition),
            forall|i: int| 0 <= i < r@.len() ==> (#[trigger] r@[i]).wf() && r@[i].on_activity(),
    {
        let mut agents = agents;
        let mut kept: Vec<Agent> = Vec::new();
        let ghost a0 = agents@;
        let mut rest: Vec<Agent> = Vec::new();
        // reverse first, so that popping keeps the order
        while agents.len() > 0
            invariant
                forall|i: int| 0 <= i < a0.len() ==> (#[trigger] a0[i]).wf() && a0[i].on_activity(),
                agents@ == a0.take(agents@.len() as int),
                agents@.len() + rest@.len() == a0.len(),
                forall|j: int| 0 <= j < rest@.len() ==> #[trigger] rest@[j] == a0[a0.len() - 1 - j],
            decreases agents@.len(),
        {
            let ghost before = agents@;
            let a = agents.pop().unwrap();
            assert(a == a0[before.len() - 1]);
            assert(agents@ =~= a0.take(agents@.len() as int));
            rest.push(a);
        }
        assert(a0.take(0) =~= Seq::<Agent>::empty());
        while rest.len() > 0
            invariant
                self.wf(),
                forall|i: int| 0 <= i < a0.len() ==> (#[trigger] a0[i]).wf() && a0[i].on_activity(),
                rest@.len() <= a0.len(),
                forall|j: int| 0 <= j < rest@.len() ==> #[trigger] rest@[j] == a0[a0.len() - 1 - j],
                kept@ == self.agents_in(a0.take(a0.len() - rest@.len()), partition),
                forall|i: int| 0 <= i < kept@.len() ==> (#[trigger] kept@[i]).wf() && kept@[i].on_activity(),
            decreases rest@.len(),
        {
            let ghost m = a0.len() - rest@.len();
            let ghost before = rest@;
            let a = rest.pop().unwrap();
            assert(a == a0[m]);
            assert(a0.take(m + 1).drop_last() =~= a0.take(m));
            assert(a0.take(m + 1).last() == a);
            let link = a.curr_act().link_id;
            let mut keep = false;
            if link < self.links.len() as u64 {
                let to = self.links[link as usize].to;
                let nlen = self.nodes.len();
                assert(to < nlen);
                keep = self.nodes[to as usize].partition == partition;
            }
            assert(keep == self.starts_in(a, partition));
            if keep {
                let ghost k0 = kept@;
                kept.push(a);
                assert forall|i: int| 0 <= i < kept@.len() implies (#[trigger] kept@[i]).wf() && kept@[i].on_activity() by {
                    if i < k0.len() {
                        assert(kept@[i] == k0[i]);
                    }
                }
            }
        }
        assert(a0.take(a0.len() as int) =~= a0);
        kept
    }
}

} // verus!
