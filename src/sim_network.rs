use vstd::prelude::*;
use rand::rngs::StdRng;
use crate::events::{Event, EventsPublisher};
use crate::link::{LocalLink, SimLink, SplitInLink, SplitOutLink, pce_sum, ready_in, lemma_ready_in_front, lemma_ready_in_nonneg, link_duration};
use crate::flow_cap::UNITS_PER_MILLI_PCE;
use crate::network::{Link, Network};
use crate::messages::StorageCapReport;
use crate::rng::{draw_weighted, seeded_rng};
use crate::vehicle::Vehicle;

verus! {

/// A node of this partition: its incoming links and the weight of each when the
/// node picks the next link to serve.
pub struct SimNode {
    pub id: u64,
    pub in_links: Vec<u64>,
    pub in_link_weights: Vec<u64>,
}

/// The occupancy of the downstream end of a split link, to report upstream.
pub struct SplitStorage {
    pub link_id: u64,
    pub from_part: u32,
    pub used: u64,
}

/// The number of vehicles a link holds.
pub open spec fn link_count(l: Option<SimLink>) -> int {
    match l {
        Some(sl) => sl.vehicles_spec().len() as int,
        None => 0,
    }
}

/// The number of vehicles on the links of `links`.
pub open spec fn vehicle_count(links: Seq<Option<SimLink>>) -> int
    decreases links.len(),
{
    if links.len() == 0 {
        0
    } else {
        vehicle_count(links.drop_last()) + link_count(links.last())
    }
}

/// The vehicles buffered on the upstream ends of split links, link by link in order
/// of id, each link's first in first.
pub open spec fn outbound_vehicles(links: Seq<Option<SimLink>>) -> Seq<Vehicle>
    decreases links.len(),
{
    if links.len() == 0 {
        Seq::empty()
    } else {
        outbound_vehicles(links.drop_last()) + match links.last() {
            Some(SimLink::Out(ol)) => ol.q_spec(),
            _ => Seq::empty(),
        }
    }
}

/// The occupancy reports of the downstream ends of split links that hold anything,
/// where each link's occupancy is what its vehicles take up.
pub open spec fn storage_reports(links: Seq<Option<SimLink>>) -> Seq<SplitStorage>
    decreases links.len(),
{
    if links.len() == 0 {
        Seq::empty()
    } else {
        storage_reports(links.drop_last()) + match links.last() {
            Some(SimLink::In(il)) => if pce_sum(il.local_link.q_spec()) > 0 {
                seq![SplitStorage {
                    link_id: il.local_link.id,
                    from_part: il.from_part,
                    used: pce_sum(il.local_link.q_spec()) as u64,
                }]
            } else {
                Seq::empty()
            },
            _ => Seq::empty(),
        }
    }
}

/// Every link of `a` is held in `b` too, with at least the vehicles it holds in `a`.
pub open spec fn links_grow(a: Seq<Option<SimLink>>, b: Seq<Option<SimLink>>) -> bool {
    &&& a.len() == b.len()
    &&& forall|i: int| 0 <= i < a.len() && (#[trigger] a[i]) is Some ==> b[i] is Some && forall|v: Vehicle|
        a[i]->Some_0.vehicles_spec().contains(v) ==> b[i]->Some_0.vehicles_spec().contains(v)
}

pub proof fn lemma_links_grow_refl(a: Seq<Option<SimLink>>)
    ensures
        links_grow(a, a),
{
}

/// The link slot `i` holds a link with id `i` that keeps its invariant.
pub open spec fn slot_wf(links: Seq<Option<SimLink>>, i: int) -> bool {
    links[i] matches Some(l) ==> l.wf() && l.id_spec() == i
}

pub open spec fn links_wf(links: Seq<Option<SimLink>>) -> bool {
    forall|i: int| 0 <= i < links.len() ==> #[trigger] slot_wf(links, i)
}

/// `a` and `b` hold the same kind of link in every slot.
pub open spec fn same_shape(a: Seq<Option<SimLink>>, b: Seq<Option<SimLink>>) -> bool {
    &&& a.len() == b.len()
    &&& forall|i: int|
        0 <= i < a.len() ==> {
            &&& (#[trigger] a[i] is Some) == (b[i] is Some)
            &&& (a[i] matches Some(l) ==> (l is Local) == (b[i]->Some_0 is Local) && (l is In) == (
            b[i]->Some_0 is In) && (l is Out) == (b[i]->Some_0 is Out))
        }
}

/// Each incoming link of `node` is held here, as a local link or as the downstream
/// end of a split link.
pub open spec fn node_wf(node: SimNode, links: Seq<Option<SimLink>>) -> bool {
    &&& node.in_links@.len() == node.in_link_weights@.len()
    &&& node.in_links@.len() <= u32::MAX
    &&& forall|k: int| 0 <= k < node.in_link_weights@.len() ==> 0 < #[trigger] node.in_link_weights@[k] <= u32::MAX
    &&& forall|k: int|
        0 <= k < node.in_links@.len() ==> {
            &&& (#[trigger] node.in_links@[k]) < links.len()
            &&& links[node.in_links@[k] as int] is Some
            &&& !(links[node.in_links@[k] as int]->Some_0 is Out)
        }
}

pub open spec fn nodes_wf(nodes: Seq<SimNode>, links: Seq<Option<SimLink>>) -> bool {
    forall|j: int| 0 <= j < nodes.len() ==> #[trigger] node_wf(nodes[j], links)
}

pub proof fn lemma_nodes_same_shape(nodes: Seq<SimNode>, a: Seq<Option<SimLink>>, b: Seq<Option<SimLink>>)
    requires
        nodes_wf(nodes, a),
        same_shape(a, b),
    ensures
        nodes_wf(nodes, b),
{
    assert forall|j: int| 0 <= j < nodes.len() implies #[trigger] node_wf(nodes[j], b) by {
        assert(node_wf(nodes[j], a));
        assert forall|k: int| 0 <= k < nodes[j].in_links@.len() implies {
            &&& (#[trigger] nodes[j].in_links@[k]) < b.len()
            &&& b[nodes[j].in_links@[k] as int] is Some
            &&& !(b[nodes[j].in_links@[k] as int]->Some_0 is Out)
        } by {
            let id = nodes[j].in_links@[k] as int;
            assert(a[id] is Some);
        }
    }
}

/// The vehicles buffered for other partitions keep their invariant.
pub proof fn lemma_outbound_wf(links: Seq<Option<SimLink>>)
    requires
        links_wf(links),
    ensures
        forall|j: int| 0 <= j < outbound_vehicles(links).len() ==> (#[trigger] outbound_vehicles(links)[j]).wf(),
    decreases links.len(),
{
    if links.len() > 0 {
        let init = links.drop_last();
        assert forall|i: int| 0 <= i < init.len() implies #[trigger] slot_wf(init, i) by {
            assert(slot_wf(links, i));
        }
        lemma_outbound_wf(init);
        assert(slot_wf(links, links.len() - 1));
        let tail = match links.last() {
            Some(SimLink::Out(ol)) => ol.q_spec(),
            _ => Seq::empty(),
        };
        assert(outbound_vehicles(links) == outbound_vehicles(init) + tail);
        assert forall|j: int| 0 <= j < outbound_vehicles(links).len() implies (#[trigger] outbound_vehicles(links)[j]).wf() by {
            if j >= outbound_vehicles(init).len() {
                assert(outbound_vehicles(links)[j] == tail[j - outbound_vehicles(init).len()]);
            } else {
                assert(outbound_vehicles(links)[j] == outbound_vehicles(init)[j]);
            }
        }
    }
}

pub proof fn lemma_vehicle_count_update(links: Seq<Option<SimLink>>, i: int, l: Option<SimLink>)
    requires
        0 <= i < links.len(),
    ensures
        vehicle_count(links.update(i, l)) == vehicle_count(links) - link_count(links[i]) + link_count(l),
    decreases links.len(),
{
    let u = links.update(i, l);
    if i == links.len() - 1 {
        assert(u.drop_last() =~= links.drop_last());
    } else {
        lemma_vehicle_count_update(links.drop_last(), i, l);
        assert(u.drop_last() =~= links.drop_last().update(i, l));
    }
}

/// The part of the network that one partition simulates. `links` is indexed by link
/// id and holds the links this partition sees; the others are `None`.
pub struct SimNetworkPartition {
    pub nodes: Vec<SimNode>,
    pub links: Vec<Option<SimLink>>,
    pub rng: StdRng,
}

/// What a node does with the vehicle at the head of one of its incoming links.
pub enum NodeMove {
    /// Nothing can leave the link this tick.
    Blocked,
    /// The vehicle has reached the end of its route.
    Exit,
    /// The vehicle moves on to the link with this id.
    Next(u64),
}

impl SimNetworkPartition {
    pub open spec fn wf(&self) -> bool {
        &&& links_wf(self.links@)
        &&& nodes_wf(self.nodes@, self.links@)
    }

    pub open spec fn count(&self) -> int {
        vehicle_count(self.links@)
    }

    /// A partition of `nodes` and `links`, whose random choices follow from `seed`.
    pub fn new(nodes: Vec<SimNode>, links: Vec<Option<SimLink>>, seed: u64) -> (r: Self)
        requires
            links_wf(links@),
            nodes_wf(nodes@, links@),
        ensures
            r.wf(),
            r.nodes@ == nodes@,
            r.links@ == links@,
    {
        SimNetworkPartition { nodes, links, rng: seeded_rng(seed) }
    }

    /// The part of `network` that `partition` simulates, at a sample of `sample`
    /// parts per million of the population: the nodes of the partition in order of
    /// id, and every link that starts or ends at one of them.
    pub fn from_network(network: &Network, partition: u32, sample: u32, seed: u64) -> (r: Self)
        requires
            network.wf(),
            0 < sample <= 1_000_000,
        ensures
            r.wf(),
            r.links@.len() == network.links@.len(),
            forall|i: int|
                0 <= i < network.links@.len() ==> (#[trigger] r.links@[i] is Some) == network.touches(i, partition),
            forall|i: int|
                0 <= i < network.links@.len() && r.links@[i] is Some ==> #[trigger] sim_link_kind(
                    r.links@[i]->Some_0,
                    network.from_part(i),
                    network.to_part(i),
                    partition,
                ),
            forall|j: int| 0 <= j < r.nodes@.len() ==> network.nodes@[(#[trigger] r.nodes@[j]).id as int].partition == partition,
            forall|i: int|
                0 <= i < network.nodes@.len() && (#[trigger] network.nodes@[i]).partition == partition ==> exists|j: int|
                    0 <= j < r.nodes@.len() && r.nodes@[j].id == i,
            forall|i: int| 0 <= i < r.links@.len() && (#[trigger] r.links@[i]) is Some ==> r.links@[i]->Some_0.vehicles_spec().len() == 0,
    {
        let mut links: Vec<Option<SimLink>> = Vec::new();
        let mut i: usize = 0;
        while i < network.links.len()
            invariant
                network.wf(),
                0 < sample <= 1_000_000,
                i <= network.links@.len(),
                links@.len() == i,
                links_wf(links@),
                forall|k: int| 0 <= k < i ==> (#[trigger] links@[k] is Some) == network.touches(k, partition),
                forall|k: int|
                    0 <= k < i && links@[k] is Some ==> #[trigger] sim_link_kind(
                        links@[k]->Some_0,
                        network.from_part(k),
                        network.to_part(k),
                        partition,
                    ),
                forall|k: int| 0 <= k < i && (#[trigger] links@[k]) is Some ==> links@[k]->Some_0.vehicles_spec().len() == 0,
            decreases network.links@.len() - i,
        {
            let link = network.links[i];
            assert(network.links@[i as int].id == i);
            let nlen = network.nodes.len();
            assert(link.from < nlen && link.to < nlen);
            let fi = link.from as usize;
            let ti = link.to as usize;
            let from_part = network.nodes[fi].partition;
            let to_part = network.nodes[ti].partition;
            assert(from_part == network.from_part(i as int));
            assert(to_part == network.to_part(i as int));
            let slot = if from_part == partition || to_part == partition {
                Some(Self::create_sim_link(&link, from_part, to_part, partition, network.effective_cell_size, sample))
            } else {
                None
            };
            let ghost l0 = links@;
            links.push(slot);
            proof {
                assert forall|k: int| 0 <= k < links@.len() implies #[trigger] slot_wf(links@, k) by {
                    if k < i {
                        assert(slot_wf(l0, k));
                        assert(links@[k] == l0[k]);
                    }
                }
                assert forall|k: int| 0 <= k < i + 1 && (#[trigger] links@[k]) is Some implies links@[k]->Some_0.vehicles_spec().len() == 0 by {
                    if k < i {
                        assert(links@[k] == l0[k]);
                    }
                }
                assert forall|k: int| 0 <= k < i + 1 implies (#[trigger] links@[k] is Some) == network.touches(k, partition) by {
                    if k < i {
                        assert(links@[k] == l0[k]);
                    }
                }
                assert forall|k: int|
                    0 <= k < i + 1 && links@[k] is Some implies #[trigger] sim_link_kind(
                        links@[k]->Some_0,
                        network.from_part(k),
                        network.to_part(k),
                        partition,
                    ) by {
                    if k < i {
                        assert(links@[k] == l0[k]);
                    }
                }
            }
            i = i + 1;
        }
        let mut nodes: Vec<SimNode> = Vec::new();
        let mut j: usize = 0;
        while j < network.nodes.len()
            invariant
                network.wf(),
                j <= network.nodes@.len(),
                links@.len() == network.links@.len(),
                forall|k: int| 0 <= k < links@.len() ==> (#[trigger] links@[k] is Some) == network.touches(k, partition),
                forall|k: int|
                    0 <= k < links@.len() && links@[k] is Some ==> #[trigger] sim_link_kind(
                        links@[k]->Some_0,
                        network.from_part(k),
                        network.to_part(k),
                        partition,
                    ),
                nodes_wf(nodes@, links@),
                forall|m: int| 0 <= m < nodes@.len() ==> network.nodes@[(#[trigger] nodes@[m]).id as int].partition == partition,
                forall|q: int|
                    0 <= q < j && (#[trigger] network.nodes@[q]).partition == partition ==> exists|m: int|
                        0 <= m < nodes@.len() && nodes@[m].id == q,
                forall|q: int| 0 <= q < links@.len() && (#[trigger] links@[q]) is Some ==> links@[q]->Some_0.vehicles_spec().len() == 0,
            decreases network.nodes@.len() - j,
        {
            assert(network.nodes@[j as int].id == j);
            if network.nodes[j].partition == partition {
                let node = Self::create_sim_node(network, j, Ghost(links@), partition);
                let ghost n0 = nodes@;
                nodes.push(node);
                assert forall|m: int| 0 <= m < nodes@.len() implies #[trigger] node_wf(nodes@[m], links@) by {
                    if m < n0.len() {
                        assert(node_wf(n0[m], links@));
                    }
                }
                assert forall|m: int| 0 <= m < nodes@.len() implies network.nodes@[(#[trigger] nodes@[m]).id as int].partition == partition by {
                    if m < n0.len() {
                        assert(nodes@[m] == n0[m]);
                    }
                }
                assert forall|q: int|
                    0 <= q < j + 1 && (#[trigger] network.nodes@[q]).partition == partition implies exists|m: int|
                        0 <= m < nodes@.len() && nodes@[m].id == q by {
                    if q < j {
                        let m = choose|m: int| 0 <= m < n0.len() && n0[m].id == q;
                        assert(nodes@[m] == n0[m]);
                    } else {
                        assert(nodes@[n0.len() as int].id == q);
                    }
                }
            }
            j = j + 1;
        }
        SimNetworkPartition { nodes, links, rng: seeded_rng(seed) }
    }

    /// The node `j` of `network`, which lies in `partition`, with its incoming links
    /// weighted by their capacity (at least one, so that every link gets served).
    fn create_sim_node(network: &Network, j: usize, Ghost(links): Ghost<Seq<Option<SimLink>>>, partition: u32) -> (r: SimNode)
        requires
            network.wf(),
            j < network.nodes@.len(),
            network.nodes@[j as int].partition == partition,
            links.len() == network.links@.len(),
            forall|k: int| 0 <= k < links.len() ==> (#[trigger] links[k] is Some) == network.touches(k, partition),
            forall|k: int|
                0 <= k < links.len() && links[k] is Some ==> #[trigger] sim_link_kind(
                    links[k]->Some_0,
                    network.from_part(k),
                    network.to_part(k),
                    partition,
                ),
        ensures
            node_wf(r, links),
            r.id == j,
            r.in_links@ == network.nodes@[j as int].in_links@,
    {
        let node = &network.nodes[j];
        let mut in_links: Vec<u64> = Vec::new();
        let mut weights: Vec<u64> = Vec::new();
        let mut k: usize = 0;
        while k < node.in_links.len()
            invariant
                network.wf(),
                j < network.nodes@.len(),
                *node == network.nodes@[j as int],
                node.partition == partition,
                k <= node.in_links@.len(),
                in_links@ == node.in_links@.take(k as int),
                weights@.len() == k,
                forall|q: int| 0 <= q < k ==> 0 < #[trigger] weights@[q] <= u32::MAX,
                links.len() == network.links@.len(),
                forall|q: int| 0 <= q < links.len() ==> (#[trigger] links[q] is Some) == network.touches(q, partition),
                forall|q: int|
                    0 <= q < links.len() && links[q] is Some ==> #[trigger] sim_link_kind(
                        links[q]->Some_0,
                        network.from_part(q),
                        network.to_part(q),
                        partition,
                    ),
                forall|q: int|
                    0 <= q < k ==> {
                        &&& (#[trigger] in_links@[q]) < links.len()
                        &&& links[in_links@[q] as int] is Some
                        &&& !(links[in_links@[q] as int]->Some_0 is Out)
                    },
            decreases node.in_links@.len() - k,
        {
            let id = node.in_links[k];
            assert(network.nodes@[j as int].in_links@[k as int] == id);
            assert(id < network.links@.len());
            let cap = network.links[id as usize].capacity;
            let ghost l0 = in_links@;
            in_links.push(id);
            weights.push(if cap == 0 { 1 } else { cap as u64 });
            assert(in_links@ =~= node.in_links@.take(k + 1));
            assert(network.links@[id as int].to == j);
            assert(network.to_part(id as int) == partition);
            assert(links[id as int] is Some);
            assert(sim_link_kind(links[id as int]->Some_0, network.from_part(id as int), network.to_part(id as int), partition));
            assert forall|q: int|
                0 <= q < k + 1 implies {
                    &&& (#[trigger] in_links@[q]) < links.len()
                    &&& links[in_links@[q] as int] is Some
                    &&& !(links[in_links@[q] as int]->Some_0 is Out)
                } by {
                if q < k {
                    assert(in_links@[q] == l0[q]);
                }
            }
            k = k + 1;
        }
        assert(in_links@ =~= node.in_links@);
        assert(network.nodes@[j as int].in_links@.len() <= u32::MAX);
        SimNode { id: j as u64, in_links, in_link_weights: weights }
    }

    /// The link as `partition` sees it, given the partitions of its two ends.
    fn create_sim_link(link: &Link, from_part: u32, to_part: u32, partition: u32, effective_cell_size: u32, sample: u32) -> (r: SimLink)
        requires
            link.freespeed > 0,
            effective_cell_size > 0,
            0 < sample <= 1_000_000,
            from_part == partition || to_part == partition,
        ensures
            r.wf(),
            r.id_spec() == link.id,
            sim_link_kind(r, from_part, to_part, partition),
            r.vehicles_spec().len() == 0,
    {
        let local = LocalLink::from_link(link, sample, effective_cell_size);
        if from_part == to_part {
            SimLink::Local(local)
        } else if to_part == partition {
            SimLink::In(SplitInLink::new(from_part, local))
        } else {
            SimLink::Out(
                SplitOutLink::new(link.id, link.capacity, link.permlanes, link.length, effective_cell_size, sample, to_part),
            )
        }
    }

    /// Whether `id` names a link of this partition that vehicles can enter here.
    pub open spec fn enterable(&self, id: int) -> bool {
        &&& 0 <= id < self.links@.len()
        &&& self.links@[id] is Some
    }

    /// Puts `vehicle` on the link its route is at. The vehicle is handed back where
    /// this partition does not hold that link, or its occupancy would leave the
    /// machine's range.
    pub fn send_veh_en_route(&mut self, vehicle: Vehicle, now: u32) -> (r: Option<Vehicle>)
        requires
            old(self).wf(),
            vehicle.wf(),
        ensures
            final(self).wf(),
            same_shape(old(self).links@, final(self).links@),
            final(self).nodes@ == old(self).nodes@,
            r is None ==> final(self).count() == old(self).count() + 1,
            r is None <==> old(self).enterable(vehicle.curr_link_spec() as int)
                && old(self).links@[vehicle.curr_link_spec() as int]->Some_0.storage_spec().used_spec() + vehicle.pce <= u64::MAX,
            r is None ==> final(self).links@[vehicle.curr_link_spec() as int]->Some_0.vehicles_spec()
                == old(self).links@[vehicle.curr_link_spec() as int]->Some_0.vehicles_spec().push(vehicle),
            r is None ==> final(self).links@[vehicle.curr_link_spec() as int]->Some_0.storage_spec().used_spec()
                == old(self).links@[vehicle.curr_link_spec() as int]->Some_0.storage_spec().used_spec() + vehicle.pce,
            r is None ==> forall|j: int|
                0 <= j < old(self).links@.len() && j != vehicle.curr_link_spec() ==> final(self).links@[j] == old(
                    self,
                ).links@[j],
            r matches Some(v) ==> v == vehicle && final(self).links@ == old(self).links@,
            links_grow(old(self).links@, final(self).links@),
    {
        let link_id = vehicle.curr_link_id();
        if link_id >= self.links.len() as u64 {
            return Some(vehicle);
        }
        let id = link_id as usize;
        let mut slot: Option<SimLink> = None;
        std::mem::swap(&mut self.links[id], &mut slot);
        let ghost before = old(self).links@;
        assert(slot == before[id as int]);
        match slot {
            Some(mut link) => {
                assert(slot_wf(before, id as int));
                if link.used_storage() > u64::MAX - vehicle.pce as u64 {
                    self.links.set(id, Some(link));
                    assert(self.links@ =~= before);
                    return Some(vehicle);
                }
                link.push_veh(vehicle, now);
                self.links.set(id, Some(link));
                proof {
                    let after = self.links@;
                    assert(after =~= before.update(id as int, Some(link)));
                    lemma_vehicle_count_update(before, id as int, Some(link));
                    assert forall|i: int| 0 <= i < after.len() implies #[trigger] slot_wf(after, i) by {
                        if i != id {
                            assert(slot_wf(before, i));
                        }
                    }
                    assert(same_shape(before, after));
                    assert forall|i: int| 0 <= i < before.len() && (#[trigger] before[i]) is Some implies after[i] is Some
                        && forall|v: Vehicle|
                        before[i]->Some_0.vehicles_spec().contains(v) ==> after[i]->Some_0.vehicles_spec().contains(v) by {
                        if i == id {
                            assert forall|v: Vehicle| before[i]->Some_0.vehicles_spec().contains(v) implies after[i]->Some_0.vehicles_spec().contains(
                                v,
                            ) by {
                                let k = choose|k: int| 0 <= k < before[i]->Some_0.vehicles_spec().len() && before[i]->Some_0.vehicles_spec()[k] == v;
                                assert(after[i]->Some_0.vehicles_spec()[k] == v);
                            }
                        } else {
                            assert(after[i] == before[i]);
                        }
                    }
                    lemma_nodes_same_shape(self.nodes@, before, after);
                }
                None
            },
            None => {
                self.links.set(id, None);
                assert(self.links@ =~= before);
                Some(vehicle)
            },
        }
    }

    /// Refills flow capacity and frees released storage on every link whose
    /// downstream end lies here, and empties the upstream ends of split links. Returns
    /// the vehicles to hand to other partitions and the occupancy to report upstream.
    pub fn move_links(&mut self, now: u32) -> (r: (Vec<Vehicle>, Vec<SplitStorage>))
        requires
            old(self).wf(),
        ensures
            final(self).wf(),
            same_shape(old(self).links@, final(self).links@),
            final(self).nodes@ == old(self).nodes@,
            forall|i: int|
                0 <= i < old(self).links@.len() ==> #[trigger] moved_link(
                    old(self).links@[i],
                    final(self).links@[i],
                    now as int,
                ),
            r.0@ == outbound_vehicles(old(self).links@),
            r.1@ == storage_reports(old(self).links@),
            final(self).count() + r.0@.len() == old(self).count(),
    {
        let mut vehicles: Vec<Vehicle> = Vec::new();
        let mut reports: Vec<SplitStorage> = Vec::new();
        let ghost old_links = self.links@;
        let n = self.links.len();
        let mut i: usize = 0;
        while i < n
            invariant
                n == self.links@.len(),
                old_links == old(self).links@,
                wf_links_nodes(self.links@, self.nodes@),
                self.nodes@ == old(self).nodes@,
                i <= n,
                same_shape(old_links, self.links@),
                forall|j: int| 0 <= j < i ==> #[trigger] moved_link(old_links[j], self.links@[j], now as int),
                forall|j: int| i <= j < n ==> self.links@[j] == old_links[j],
                vehicles@ == outbound_vehicles(old_links.take(i as int)),
                reports@ == storage_reports(old_links.take(i as int)),
                vehicle_count(self.links@) + vehicles@.len() == vehicle_count(old_links),
            decreases n - i,
        {
            let ghost before = self.links@;
            let mut slot: Option<SimLink> = None;
            std::mem::swap(&mut self.links[i], &mut slot);
            assert(slot == old_links[i as int]);
            assert(slot_wf(before, i as int));
            assert(old_links.take(i + 1).drop_last() =~= old_links.take(i as int));
            assert(old_links.take(i + 1).last() == old_links[i as int]);
            let new_slot: Option<SimLink> = match slot {
                None => None,
                Some(SimLink::Out(mut ol)) => {
                    let mut q = ol.take_veh();
                    let ghost q0 = q@;
                    let ghost v0 = vehicles@;
                    while q.len() > 0
                        invariant
                            0 <= i < old_links.len(),
                            old_links[i as int] is Some,
                            old_links[i as int]->Some_0 is Out,
                            q0 == old_links[i as int]->Some_0->Out_0.q_spec(),
                            q@ == q0.skip(q0.len() - q@.len()),
                            q@.len() <= q0.len(),
                            vehicles@ == v0 + q0.take(q0.len() - q@.len()),
                        decreases q@.len(),
                    {
                        let ghost qb = q@;
                        let v = q.pop_front().unwrap();
                        vehicles.push(v);
                        assert(q@ =~= q0.skip(q0.len() - q@.len()));
                        assert(q0.take(q0.len() - q@.len()) =~= q0.take(q0.len() - qb.len()).push(v));
                    }
                    assert(q0.take(q0.len() as int) =~= q0);
                    Some(SimLink::Out(ol))
                },
                Some(mut link) => {
                    let ghost l0 = link;
                    link.update_flow_cap(now);
                    link.update_released_storage_cap();
                    if let SimLink::In(il) = &link {
                        let used = il.local_link.used_storage();
                        if used > 0 {
                            reports.push(SplitStorage { link_id: il.local_link.id, from_part: il.from_part, used });
                        }
                    }
                    Some(link)
                },
            };
            self.links.set(i, new_slot);
            proof {
                let after = self.links@;
                assert(after =~= before.update(i as int, new_slot));
                lemma_vehicle_count_update(before, i as int, new_slot);
                assert(moved_link(old_links[i as int], new_slot, now as int));
                assert forall|j: int| 0 <= j < after.len() implies #[trigger] slot_wf(after, j) by {
                    if j != i {
                        assert(slot_wf(before, j));
                    }
                }
                assert(same_shape(before, after));
                lemma_nodes_same_shape(self.nodes@, before, after);
                assert forall|j: int| 0 <= j < i + 1 implies #[trigger] moved_link(old_links[j], after[j], now as int) by {
                    if j < i {
                        assert(moved_link(old_links[j], before[j], now as int));
                    }
                }
            }
            i = i + 1;
        }
        assert(old_links.take(n as int) =~= old_links);
        (vehicles, reports)
    }

    /// What the node may do with the head of incoming link `link_id` at `now`.
    pub fn should_veh_move_out(link_id: u64, links: &Vec<Option<SimLink>>, now: u32) -> (r: NodeMove)
        requires
            links_wf(links@),
            link_id < links@.len(),
            links@[link_id as int] is Some,
            !(links@[link_id as int]->Some_0 is Out),
        ensures
            (r is Blocked) == head_blocked(links@, link_id as int, now as int),
            ({
                let l = links@[link_id as int]->Some_0.local_spec();
                let v = l.q_spec()[0].vehicle;
                match r {
                    NodeMove::Exit => l.offers(now as int) && !v.has_next_link(),
                    NodeMove::Next(nx) => {
                        &&& l.offers(now as int)
                        &&& v.has_next_link()
                        &&& nx == v.next_link_spec()
                        &&& nx < links@.len()
                        &&& links@[nx as int] is Some
                        &&& !(links@[nx as int]->Some_0 is In)
                        &&& links@[nx as int]->Some_0.accepts()
                    },
                    NodeMove::Blocked => !l.offers(now as int) || (v.has_next_link() && !(
                    v.next_link_spec() < links@.len() && links@[v.next_link_spec() as int] is Some
                        && !(links@[v.next_link_spec() as int]->Some_0 is In)
                        && links@[v.next_link_spec() as int]->Some_0.accepts())),
                }
            }),
    {
        let ghost id = link_id as int;
        assert(slot_wf(links@, id));
        let len = links.len();
        assert(link_id < len);
        let idx = link_id as usize;
        assert(idx == link_id);
        match &links[idx] {
            Some(in_link) => match in_link.offers_veh(now) {
                Some(veh) => {
                    assert(in_link.local_spec().q_spec()[0].vehicle.wf());
                    match veh.peek_next_route_element() {
                        Some(next) => {
                            if next >= links.len() as u64 {
                                return NodeMove::Blocked;
                            }
                            match &links[next as usize] {
                                Some(out_link) => {
                                    let is_in = match out_link {
                                        SimLink::In(_) => true,
                                        _ => false,
                                    };
                                    if !is_in && out_link.is_available() {
                                        NodeMove::Next(next)
                                    } else {
                                        NodeMove::Blocked
                                    }
                                },
                                None => NodeMove::Blocked,
                            }
                        },
                        None => NodeMove::Exit,
                    }
                },
                None => NodeMove::Blocked,
            },
            None => NodeMove::Blocked,
        }
    }

    /// Takes the head vehicle off incoming link `id`, which offers it at `now`.
    fn pop_from(links: &mut Vec<Option<SimLink>>, id: u64, Ghost(now): Ghost<int>) -> (r: Vehicle)
        requires
            links_wf(old(links)@),
            id < old(links)@.len(),
            old(links)@[id as int] is Some,
            !(old(links)@[id as int]->Some_0 is Out),
            old(links)@[id as int]->Some_0.local_spec().offers(now),
            !head_blocked(old(links)@, id as int, now),
        ensures
            ready_count(final(links)@, now) == ready_count(old(links)@, now) - 1,
            blocked_kept(old(links)@, final(links)@, now),
            links_wf(final(links)@),
            same_shape(old(links)@, final(links)@),
            r == old(links)@[id as int]->Some_0.local_spec().q_spec()[0].vehicle,
            r.wf(),
            vehicle_count(final(links)@) + 1 == vehicle_count(old(links)@),
            head_left(old(links)@, final(links)@, id as int),
            forall|j: int| 0 <= j < old(links)@.len() && j != id ==> final(links)@[j] == old(links)@[j],
            final(links)@[id as int]->Some_0.storage_spec().max_spec()
                == old(links)@[id as int]->Some_0.storage_spec().max_spec(),
            final(links)@[id as int]->Some_0.storage_spec().used_spec()
                == old(links)@[id as int]->Some_0.storage_spec().used_spec(),
    {
        let ghost before = links@;
        let len = links.len();
        assert(id < len);
        let mut slot: Option<SimLink> = None;
        std::mem::swap(&mut links[id as usize], &mut slot);
        assert(slot == before[id as int]);
        assert(slot_wf(before, id as int));
        let mut link = slot.unwrap();
        let veh = link.pop_veh();
        links.set(id as usize, Some(link));
        proof {
            let after = links@;
            assert(after =~= before.update(id as int, Some(link)));
            lemma_vehicle_count_update(before, id as int, Some(link));
            assert forall|j: int| 0 <= j < after.len() implies #[trigger] slot_wf(after, j) by {
                if j != id {
                    assert(slot_wf(before, j));
                }
            }
            let q0 = before[id as int]->Some_0.local_spec().q_spec();
            lemma_ready_in_front(q0, now);
            assert(link_ready(before[id as int], now) == ready_in(q0, now));
            assert(link_ready(Some(link), now) == ready_in(q0.drop_first(), now));
            lemma_ready_count_update(before, id as int, Some(link), now);
            assert forall|i: int|
                0 <= i < before.len() && before[i] is Some && !(before[i]->Some_0 is Out) && #[trigger] head_blocked(
                    before,
                    i,
                    now,
                ) implies head_blocked(after, i, now) by {
                assert(i != id);
                assert(after[i] == before[i]);
                let v = before[i]->Some_0.local_spec().q_spec()[0].vehicle;
                if v.has_next_link() && v.next_link_spec() < before.len() {
                    let nx = v.next_link_spec() as int;
                    if nx != id {
                        assert(after[nx] == before[nx]);
                    } else {
                        assert(before[nx] is Some);
                    }
                }
            }
        }
        veh
    }

    /// Moves `vehicle`, which leaves incoming link `from_id`, onto link `next`.
    fn move_vehicle(
        mut vehicle: Vehicle,
        from_id: u64,
        next: u64,
        links: &mut Vec<Option<SimLink>>,
        events: &mut EventsPublisher,
        now: u32,
    )
        requires
            links_wf(old(links)@),
            vehicle.wf(),
            vehicle.has_next_link(),
            vehicle.next_link_spec() == next,
            next < old(links)@.len(),
            old(links)@[next as int] is Some,
            !(old(links)@[next as int]->Some_0 is In),
            old(links)@[next as int]->Some_0.accepts(),
        ensures
            ready_count(final(links)@, now as int) == ready_count(old(links)@, now as int),
            blocked_kept(old(links)@, final(links)@, now as int),
            links_wf(final(links)@),
            same_shape(old(links)@, final(links)@),
            vehicle_count(final(links)@) == vehicle_count(old(links)@) + 1,
            forall|j: int| 0 <= j < old(links)@.len() && j != next ==> final(links)@[j] == old(links)@[j],
            final(events)@ == old(events)@.push((now, Event::LinkLeave { link: from_id, vehicle: vehicle.id }))
                .push((now, Event::LinkEnter { link: next, vehicle: vehicle.id })),
            exists|w: Vehicle| advanced(vehicle, w) && #[trigger] entered(old(links)@, final(links)@, next as int, w, now as int),
    {
        let ghost v0 = vehicle;
        events.publish_event(now, Event::LinkLeave { link: from_id, vehicle: vehicle.id });
        vehicle.advance_route_index();
        let ghost w = vehicle;
        let ghost before = links@;
        let len = links.len();
        assert(next < len);
        let mut slot: Option<SimLink> = None;
        std::mem::swap(&mut links[next as usize], &mut slot);
        assert(slot == before[next as int]);
        assert(slot_wf(before, next as int));
        let mut link = slot.unwrap();
        events.publish_event(now, Event::LinkEnter { link: next, vehicle: vehicle.id });
        link.push_veh(vehicle, now);
        links.set(next as usize, Some(link));
        proof {
            let after = links@;
            assert(after =~= before.update(next as int, Some(link)));
            lemma_vehicle_count_update(before, next as int, Some(link));
            assert forall|j: int| 0 <= j < after.len() implies #[trigger] slot_wf(after, j) by {
                if j != next {
                    assert(slot_wf(before, j));
                }
            }
            assert(advanced(v0, w));
            assert(entered(before, after, next as int, w, now as int));
            let t = now as int;
            let old_l = before[next as int]->Some_0;
            if !(old_l is Out) {
                let q0 = old_l.local_spec().q_spec();
                let q1 = link.local_spec().q_spec();
                assert(q1.drop_last() == q0);
                assert(q1.last().earliest_exit_time > t);
                assert(ready_in(q1, t) == ready_in(q0, t));
            }
            assert(link_ready(Some(link), t) == link_ready(before[next as int], t));
            lemma_ready_count_update(before, next as int, Some(link), t);
            assert forall|i: int|
                0 <= i < before.len() && before[i] is Some && !(before[i]->Some_0 is Out) && #[trigger] head_blocked(
                    before,
                    i,
                    t,
                ) implies head_blocked(after, i, t) by {
                let la = before[i]->Some_0.local_spec();
                let lb = after[i]->Some_0.local_spec();
                if i != next {
                    assert(after[i] == before[i]);
                } else {
                    let q0 = la.q_spec();
                    let q1 = lb.q_spec();
                    assert(q1.drop_last() == q0);
                    if q0.len() == 0 {
                        assert(q1[0] == q1.last());
                        assert(!lb.offers(t));
                    } else {
                        assert(q1[0] == q1.drop_last()[0]);
                        assert(lb.flow_spec() == la.flow_spec());
                    }
                }
                if lb.offers(t) {
                    let v = lb.q_spec()[0].vehicle;
                    assert(v == la.q_spec()[0].vehicle);
                    if v.has_next_link() && v.next_link_spec() < before.len() {
                        let nx = v.next_link_spec() as int;
                        if nx != next {
                            assert(after[nx] == before[nx]);
                        } else {
                            assert(before[nx] is Some);
                        }
                    }
                }
            }
        }
    }

    /// Serves the incoming links of `node` for tick `now`: draws a link, weighted by
    /// the node's weights, among those not yet found blocked, and moves its head
    /// vehicle on, out of the network, or finds the link blocked; until every link is
    /// blocked.
    fn move_node(
        node: &SimNode,
        links: &mut Vec<Option<SimLink>>,
        rng: &mut StdRng,
        exited: &mut Vec<Vehicle>,
        events: &mut EventsPublisher,
        now: u32,
    )
        requires
            links_wf(old(links)@),
            node_wf(*node, old(links)@),
        ensures
            links_wf(final(links)@),
            same_shape(old(links)@, final(links)@),
            node_done(*node, final(links)@, now as int),
            blocked_kept(old(links)@, final(links)@, now as int),
            final(exited)@.len() >= old(exited)@.len(),
            final(exited)@.take(old(exited)@.len() as int) == old(exited)@,
            forall|j: int|
                old(exited)@.len() <= j < final(exited)@.len() ==> (#[trigger] final(exited)@[j]).wf()
                    && !final(exited)@[j].has_next_link(),
            vehicle_count(final(links)@) + final(exited)@.len() == vehicle_count(old(links)@) + old(exited)@.len(),
            final(events)@.len() >= old(events)@.len(),
            final(events)@.take(old(events)@.len() as int) == old(events)@,
            link_events_ok(final(events)@, old(events)@.len() as int, now),
            exists|ls: Seq<Seq<Option<SimLink>>>, es: Seq<Seq<(u32, Event)>>, xs: Seq<Seq<Vehicle>>|
                #[trigger] node_run(ls, es, xs, now) && ls[0] == old(links)@ && ls.last() == final(links)@ && es[0] == old(
                    events,
                )@ && es.last() == final(events)@ && xs[0] == old(exited)@ && xs.last() == final(exited)@,
    {
        let n = node.in_links.len();
        let mut available: Vec<bool> = Vec::new();
        let mut weights: Vec<u64> = Vec::new();
        let mut k: usize = 0;
        while k < n
            invariant
                n == node.in_links@.len(),
                node_wf(*node, links@),
                k <= n,
                available@.len() == k,
                weights@.len() == k,
                count_true(available@) == k,
                forall|q: int| 0 <= q < k ==> #[trigger] available@[q] && weights@[q] == node.in_link_weights@[q],
            decreases n - k,
        {
            let ghost a0 = available@;
            available.push(true);
            assert(available@.drop_last() =~= a0);
            weights.push(node.in_link_weights[k]);
            k = k + 1;
        }
        let mut n_avail: usize = n;
        let ghost links0 = links@;
        let ghost exited0 = exited@;
        let ghost events0 = events@;
        let ghost t = now as int;
        let ghost mut ls: Seq<Seq<Option<SimLink>>> = seq![links@];
        let ghost mut es: Seq<Seq<(u32, Event)>> = seq![events@];
        let ghost mut xs: Seq<Seq<Vehicle>> = seq![exited@];
        proof {
            lemma_ready_count_nonneg(links@, t);
        }
        while n_avail > 0
            invariant
                node_run(ls, es, xs, now),
                ls[0] == links0,
                es[0] == events0,
                xs[0] == exited0,
                ls.last() == links@,
                es.last() == events@,
                xs.last() == exited@,
                n == node.in_links@.len(),
                available@.len() == n,
                weights@.len() == n,
                n_avail <= n,
                n_avail == count_true(available@),
                t == now as int,
                forall|q: int|
                    0 <= q < n ==> #[trigger] weights@[q] == if available@[q] {
                        node.in_link_weights@[q]
                    } else {
                        0
                    },
                forall|q: int| 0 <= q < n && !(#[trigger] available@[q]) ==> head_blocked(links@, node.in_links@[q] as int, t),
                blocked_kept(links0, links@, t),
                ready_count(links@, t) >= 0,
                links_wf(links@),
                node_wf(*node, links@),
                same_shape(links0, links@),
                links0 == old(links)@,
                exited0 == old(exited)@,
                events0 == old(events)@,
                exited@.len() >= exited0.len(),
                exited@.take(exited0.len() as int) == exited0,
                forall|j: int| exited0.len() <= j < exited@.len() ==> (#[trigger] exited@[j]).wf()
                    && !exited@[j].has_next_link(),
                vehicle_count(links@) + exited@.len() == vehicle_count(links0) + exited0.len(),
                events@.len() >= events0.len(),
                events@.take(events0.len() as int) == events0,
                link_events_ok(events@, events0.len() as int, now),
            decreases ready_count(links@, t), n_avail,
        {
            let mut draw_weights: Vec<u64> = Vec::new();
            let mut m: usize = 0;
            while m < n
                invariant
                    n == weights@.len(),
                    m <= n,
                    draw_weights@ == weights@.take(m as int),
                decreases n - m,
            {
                draw_weights.push(weights[m]);
                m = m + 1;
                assert(draw_weights@ =~= weights@.take(m as int));
            }
            assert(draw_weights@ =~= weights@);
            proof {
                lemma_count_true_zero(available@);
                let q = choose|q: int| 0 <= q < available@.len() && available@[q];
                assert(weights@[q] > 0);
                assert forall|j: int| 0 <= j < weights@.len() implies #[trigger] weights@[j] <= u64::MAX / (weights@.len() as u64) by {
                    assert(weights@[j] <= u32::MAX);
                    assert(u32::MAX <= u64::MAX / (weights@.len() as u64)) by (nonlinear_arith)
                        requires
                            0 < weights@.len() <= u32::MAX,
                    ;
                }
            }
            let ghost l_before = links@;
            let pick = draw_weighted(draw_weights, rng);
            let k = match pick {
                Some(k) => k,
                None => {
                    assert(false);
                    0
                },
            };
            assert(available@[k as int]);
            let link_id = node.in_links[k];
            assert(node.in_links@[k as int] == link_id);
            assert(slot_wf(links@, link_id as int));
            match Self::should_veh_move_out(link_id, links, now) {
                NodeMove::Blocked => {
                    proof {
                        lemma_count_true_update(available@, k as int, false);
                    }
                    available.set(k, false);
                    weights.set(k, 0);
                    n_avail = n_avail - 1;
                },
                NodeMove::Exit => {
                    let ghost l0 = links@;
                    let veh = Self::pop_from(links, link_id, Ghost(now as int));
                    let ghost e0 = exited@;
                    let ghost ev0 = events@;
                    let ghost lm = links@;
                    proof {
                        lemma_link_events_push(ev0, events0.len() as int, now, (now, Event::LinkLeave { link: link_id, vehicle: veh.id }));
                    }
                    events.publish_event(now, Event::LinkLeave { link: link_id, vehicle: veh.id });
                    exited.push(veh);
                    proof {
                        assert(node_step_via(l0, lm, links@, ev0, events@, e0, exited@, now, link_id as int));
                        lemma_node_run_push(ls, es, xs, links@, events@, exited@, now);
                        ls = ls.push(links@);
                        es = es.push(events@);
                        xs = xs.push(exited@);
                        lemma_nodes_same_shape(node_seq(*node), l0, links@);
                        assert(node_seq(*node)[0] == *node);
                        assert(exited@.take(exited0.len() as int) =~= e0.take(exited0.len() as int));
                        assert(events@.take(events0.len() as int) =~= ev0.take(events0.len() as int));
                        lemma_ready_count_nonneg(links@, t);
                    }
                },
                NodeMove::Next(next) => {
                    let ghost l0 = links@;
                    let veh = Self::pop_from(links, link_id, Ghost(now as int));
                    assert(links@[next as int] is Some && !(links@[next as int]->Some_0 is In)
                        && links@[next as int]->Some_0.accepts()) by {
                        if next != link_id {
                            assert(links@[next as int] == l0[next as int]);
                        } else {
                            assert(l0[next as int] is Some);
                        }
                    }
                    let ghost l1 = links@;
                    let ghost ev0 = events@;
                    let ghost vid = veh.id;
                    let ghost ex0 = exited@;
                    Self::move_vehicle(veh, link_id, next, links, events, now);
                    proof {
                        assert(node_step_via(l0, l1, links@, ev0, events@, ex0, exited@, now, link_id as int));
                        lemma_node_run_push(ls, es, xs, links@, events@, exited@, now);
                        ls = ls.push(links@);
                        es = es.push(events@);
                        xs = xs.push(exited@);
                        let x1 = (now, Event::LinkLeave { link: link_id, vehicle: vid });
                        let x2 = (now, Event::LinkEnter { link: next, vehicle: vid });
                        lemma_link_events_push(ev0, events0.len() as int, now, x1);
                        lemma_link_events_push(ev0.push(x1), events0.len() as int, now, x2);
                    }
                    proof {
                        lemma_nodes_same_shape(node_seq(*node), l0, links@);
                        assert(node_seq(*node)[0] == *node);
                        assert(events@.take(events0.len() as int) =~= ev0.take(events0.len() as int));
                        lemma_ready_count_nonneg(links@, t);
                    }
                },
            }
            proof {
                assert forall|q: int| 0 <= q < n && !(#[trigger] available@[q]) implies head_blocked(
                    links@,
                    node.in_links@[q] as int,
                    t,
                ) by {
                    let id = node.in_links@[q] as int;
                    assert(id < l_before.len() && l_before[id] is Some && !(l_before[id]->Some_0 is Out));
                    if q != k {
                        assert(head_blocked(l_before, id, t));
                    }
                }
                assert(blocked_kept(links0, links@, t)) by {
                    assert forall|id: int|
                        0 <= id < links0.len() && links0[id] is Some && !(links0[id]->Some_0 is Out)
                            && #[trigger] head_blocked(links0, id, t) implies head_blocked(links@, id, t) by {
                        assert(head_blocked(l_before, id, t));
                        assert(l_before[id] is Some && !(l_before[id]->Some_0 is Out));
                    }
                }
            }
        }
        proof {
            lemma_count_true_zero(available@);
            assert forall|q: int| 0 <= q < n implies #[trigger] head_blocked(links@, node.in_links@[q] as int, t) by {
                assert(!available@[q]);
            }
        }
    }

    /// Serves every node of the partition for tick `now`. Returns the vehicles that
    /// reached the end of their routes.
    pub fn move_nodes(&mut self, events: &mut EventsPublisher, now: u32) -> (r: Vec<Vehicle>)
        requires
            old(self).wf(),
        ensures
            final(self).wf(),
            same_shape(old(self).links@, final(self).links@),
            final(self).nodes@ == old(self).nodes@,
            all_nodes_done(final(self).nodes@, final(self).links@, now as int),
            blocked_kept(old(self).links@, final(self).links@, now as int),
            forall|j: int| 0 <= j < r@.len() ==> (#[trigger] r@[j]).wf() && !r@[j].has_next_link(),
            final(self).count() + r@.len() == old(self).count(),
            final(events)@.len() >= old(events)@.len(),
            final(events)@.take(old(events)@.len() as int) == old(events)@,
            link_events_ok(final(events)@, old(events)@.len() as int, now),
            exists|ls: Seq<Seq<Option<SimLink>>>, es: Seq<Seq<(u32, Event)>>, xs: Seq<Seq<Vehicle>>|
                #[trigger] node_run(ls, es, xs, now) && ls[0] == old(self).links@ && ls.last() == final(self).links@
                    && es[0] == old(events)@ && es.last() == final(events)@ && xs[0] == Seq::<Vehicle>::empty()
                    && xs.last() == r@,
    {
        let mut exited: Vec<Vehicle> = Vec::new();
        let mut i: usize = 0;
        let ghost links0 = self.links@;
        let ghost events0 = events@;
        let ghost mut ls: Seq<Seq<Option<SimLink>>> = seq![self.links@];
        let ghost mut es: Seq<Seq<(u32, Event)>> = seq![events@];
        let ghost mut xs: Seq<Seq<Vehicle>> = seq![exited@];
        while i < self.nodes.len()
            invariant
                node_run(ls, es, xs, now),
                ls[0] == links0,
                es[0] == events0,
                xs[0] == Seq::<Vehicle>::empty(),
                ls.last() == self.links@,
                es.last() == events@,
                xs.last() == exited@,
                self.wf(),
                self.nodes@ == old(self).nodes@,
                links0 == old(self).links@,
                events0 == old(events)@,
                same_shape(links0, self.links@),
                forall|j: int| 0 <= j < exited@.len() ==> (#[trigger] exited@[j]).wf() && !exited@[j].has_next_link(),
                vehicle_count(self.links@) + exited@.len() == vehicle_count(links0),
                events@.len() >= events0.len(),
                events@.take(events0.len() as int) == events0,
                i <= self.nodes@.len(),
                forall|j: int| 0 <= j < i ==> #[trigger] node_done(self.nodes@[j], self.links@, now as int),
                blocked_kept(links0, self.links@, now as int),
                link_events_ok(events@, events0.len() as int, now),
            decreases self.nodes@.len() - i,
        {
            assert(node_wf(self.nodes@[i as int], self.links@));
            let ghost l0 = self.links@;
            let ghost ev0 = events@;
            let ghost ex0 = exited@;
            Self::move_node(&self.nodes[i], &mut self.links, &mut self.rng, &mut exited, events, now);
            proof {
                let (ls2, es2, xs2) = choose|ls2: Seq<Seq<Option<SimLink>>>, es2: Seq<Seq<(u32, Event)>>, xs2: Seq<Seq<Vehicle>>|
                    #[trigger] node_run(ls2, es2, xs2, now) && ls2[0] == l0 && ls2.last() == self.links@ && es2[0] == ev0
                        && es2.last() == events@ && xs2[0] == ex0 && xs2.last() == exited@;
                lemma_node_run_concat(ls, es, xs, ls2, es2, xs2, now);
                ls = ls + ls2.drop_first();
                es = es + es2.drop_first();
                xs = xs + xs2.drop_first();
                lemma_link_events_concat(ev0, events@, events0.len() as int, now);
                let t = now as int;
                assert forall|j: int| 0 <= j < i + 1 implies #[trigger] node_done(self.nodes@[j], self.links@, t) by {
                    if j < i {
                        assert(node_done(self.nodes@[j], l0, t));
                        assert(node_wf(self.nodes@[j], l0));
                        assert forall|k: int| 0 <= k < self.nodes@[j].in_links@.len() implies #[trigger] head_blocked(
                            self.links@,
                            self.nodes@[j].in_links@[k] as int,
                            t,
                        ) by {
                            assert(head_blocked(l0, self.nodes@[j].in_links@[k] as int, t));
                        }
                    }
                }
                assert forall|id: int|
                    0 <= id < links0.len() && links0[id] is Some && !(links0[id]->Some_0 is Out)
                        && #[trigger] head_blocked(links0, id, t) implies head_blocked(self.links@, id, t) by {
                    assert(head_blocked(l0, id, t));
                    assert(l0[id] is Some && !(l0[id]->Some_0 is Out));
                }
                lemma_nodes_same_shape(self.nodes@, l0, self.links@);
                assert(events@.take(events0.len() as int) =~= ev0.take(events0.len() as int));
                assert forall|j: int| 0 <= j < exited@.len() implies (#[trigger] exited@[j]).wf() && !exited@[j].has_next_link() by {
                    if j < ex0.len() {
                        assert(exited@[j] == exited@.take(ex0.len() as int)[j]);
                    }
                }
            }
            i = i + 1;
        }
        exited
    }

    /// Mirrors the occupancy that downstream partitions reported onto the upstream
    /// ends of split links; a later report on a link overrides an earlier one. Every
    /// report must name the upstream end of a split link of this partition.
    pub fn update_storage_caps(&mut self, storage_caps: &Vec<StorageCapReport>)
        requires
            old(self).wf(),
            forall|j: int| 0 <= j < storage_caps@.len() ==> old(self).is_out_link(#[trigger] storage_caps@[j].link_id as int),
        ensures
            final(self).wf(),
            same_shape(old(self).links@, final(self).links@),
            final(self).nodes@ == old(self).nodes@,
            final(self).count() == old(self).count(),
            forall|i: int|
                0 <= i < old(self).links@.len() ==> #[trigger] mirrored(
                    old(self).links@[i],
                    final(self).links@[i],
                    last_report(storage_caps@, i),
                ),
            links_grow(old(self).links@, final(self).links@),
    {
        let _ = self.apply_storage_caps(storage_caps);
        proof {
            let a = old(self).links@;
            let b = self.links@;
            assert forall|i: int| 0 <= i < a.len() && (#[trigger] a[i]) is Some implies b[i] is Some && forall|v: Vehicle|
                a[i]->Some_0.vehicles_spec().contains(v) ==> b[i]->Some_0.vehicles_spec().contains(v) by {
                assert(mirrored(a[i], b[i], last_report(storage_caps@, i)));
                if !(a[i]->Some_0 is Out) {
                    assert(b[i] == a[i]);
                }
            }
        }
    }

    /// Whether every report of `storage_caps` names the upstream end of a split link of
    /// this partition.
    pub fn reports_apply(&self, storage_caps: &Vec<StorageCapReport>) -> (r: bool)
        ensures
            r == forall|j: int| 0 <= j < storage_caps@.len() ==> self.is_out_link(#[trigger] storage_caps@[j].link_id as int),
    {
        let mut j: usize = 0;
        while j < storage_caps.len()
            invariant
                j <= storage_caps@.len(),
                forall|k: int| 0 <= k < j ==> self.is_out_link(#[trigger] storage_caps@[k].link_id as int),
            decreases storage_caps@.len() - j,
        {
            let id = storage_caps[j].link_id;
            if id >= self.links.len() as u64 {
                return false;
            }
            let out = match &self.links[id as usize] {
                Some(SimLink::Out(_)) => true,
                _ => false,
            };
            if !out {
                assert(!self.is_out_link(storage_caps@[j as int].link_id as int));
                return false;
            }
            j = j + 1;
        }
        true
    }

    fn apply_storage_caps(&mut self, storage_caps: &Vec<StorageCapReport>) -> (r: bool)
        requires
            old(self).wf(),
        ensures
            final(self).wf(),
            same_shape(old(self).links@, final(self).links@),
            final(self).nodes@ == old(self).nodes@,
            final(self).count() == old(self).count(),
            r == forall|j: int| 0 <= j < storage_caps@.len() ==> old(self).is_out_link(#[trigger] storage_caps@[j].link_id as int),
            forall|i: int|
                0 <= i < old(self).links@.len() ==> #[trigger] mirrored(
                    old(self).links@[i],
                    final(self).links@[i],
                    last_report(storage_caps@, i),
                ),
    {
        let mut all = true;
        let mut j: usize = 0;
        let ghost links0 = self.links@;
        while j < storage_caps.len()
            invariant
                self.wf(),
                self.nodes@ == old(self).nodes@,
                links0 == old(self).links@,
                same_shape(links0, self.links@),
                vehicle_count(self.links@) == vehicle_count(links0),
                j <= storage_caps@.len(),
                all == forall|k: int| 0 <= k < j ==> old(self).is_out_link(#[trigger] storage_caps@[k].link_id as int),
                forall|i: int|
                    0 <= i < links0.len() ==> #[trigger] mirrored(
                        links0[i],
                        self.links@[i],
                        last_report(storage_caps@.take(j as int), i),
                    ),
            decreases storage_caps@.len() - j,
        {
            let cap = storage_caps[j];
            let ghost before = self.links@;
            assert(storage_caps@.take(j + 1).drop_last() =~= storage_caps@.take(j as int));
            assert(storage_caps@.take(j + 1).last() == cap);
            let len = self.links.len();
            let mut applied = false;
            if cap.link_id < len as u64 {
                let idx = cap.link_id as usize;
                let mut slot: Option<SimLink> = None;
                std::mem::swap(&mut self.links[idx], &mut slot);
                assert(slot == before[idx as int]);
                assert(slot_wf(before, idx as int));
                let new_slot = match slot {
                    Some(SimLink::Out(mut ol)) => {
                        ol.set_used_storage_cap(cap.value);
                        applied = true;
                        Some(SimLink::Out(ol))
                    },
                    other => other,
                };
                self.links.set(idx, new_slot);
                proof {
                    let after = self.links@;
                    assert(after =~= before.update(idx as int, new_slot));
                    lemma_vehicle_count_update(before, idx as int, new_slot);
                    assert forall|i: int| 0 <= i < after.len() implies #[trigger] slot_wf(after, i) by {
                        if i != idx {
                            assert(slot_wf(before, i));
                        }
                    }
                    assert(same_shape(before, after));
                    lemma_nodes_same_shape(self.nodes@, before, after);
                }
            }
            proof {
                assert forall|i: int|
                    0 <= i < links0.len() implies #[trigger] mirrored(
                        links0[i],
                        self.links@[i],
                        last_report(storage_caps@.take(j + 1), i),
                    ) by {
                    assert(mirrored(links0[i], before[i], last_report(storage_caps@.take(j as int), i)));
                }
                assert(applied == old(self).is_out_link(cap.link_id as int));
            }
            all = all && applied;
            j = j + 1;
        }
        assert(storage_caps@.take(storage_caps@.len() as int) =~= storage_caps@);
        all
    }

    /// Whether this partition holds the upstream end of split link `id`.
    pub open spec fn is_out_link(&self, id: int) -> bool {
        &&& 0 <= id < self.links@.len()
        &&& self.links@[id] is Some
        &&& self.links@[id]->Some_0 is Out
    }

    /// The partitions at the other end of this partition's split links, each once.
    pub fn neighbors(&self) -> (r: Vec<u32>)
        ensures
            forall|p: u32| r@.contains(p) <==> self.is_neighbor(p),
            r@.no_duplicates(),
    {
        let mut r: Vec<u32> = Vec::new();
        let mut i: usize = 0;
        while i < self.links.len()
            invariant
                i <= self.links@.len(),
                r@.no_duplicates(),
                forall|p: u32| r@.contains(p) <==> exists|k: int| 0 <= k < i && #[trigger] split_part(self.links@[k], p),
            decreases self.links@.len() - i,
        {
            let part: Option<u32> = match &self.links[i] {
                Some(SimLink::In(il)) => Some(il.from_part),
                Some(SimLink::Out(ol)) => Some(ol.to_part),
                _ => None,
            };
            let ghost r0 = r@;
            if let Some(p) = part {
                let mut found = false;
                let mut m: usize = 0;
                while m < r.len()
                    invariant
                        m <= r@.len(),
                        found == exists|q: int| 0 <= q < m && r@[q] == p,
                    decreases r@.len() - m,
                {
                    if r[m] == p {
                        found = true;
                    }
                    m = m + 1;
                }
                if !found {
                    r.push(p);
                    assert(r@[r@.len() - 1] == p);
                } else {
                    let ghost q = choose|q: int| 0 <= q < r0.len() && r0[q] == p;
                    assert(r@[q] == p);
                }
                assert(r@.contains(p));
            }
            assert(part matches Some(pp) ==> r@.contains(pp));
            proof {
                assert forall|p: u32| r@.contains(p) <==> exists|k: int| 0 <= k < i + 1 && #[trigger] split_part(self.links@[k], p) by {
                    if r@.contains(p) {
                        if !r0.contains(p) {
                            assert(split_part(self.links@[i as int], p));
                        }
                    }
                    if exists|k: int| 0 <= k < i + 1 && #[trigger] split_part(self.links@[k], p) {
                        let k = choose|k: int| 0 <= k < i + 1 && #[trigger] split_part(self.links@[k], p);
                        if k == i {
                            assert(part == Some(p));
                        } else {
                            assert(r0.contains(p));
                            let q = choose|q: int| 0 <= q < r0.len() && r0[q] == p;
                            assert(r@[q] == p);
                        }
                    }
                }
            }
            i = i + 1;
        }
        r
    }

    pub open spec fn is_neighbor(&self, p: u32) -> bool {
        exists|k: int| 0 <= k < self.links@.len() && #[trigger] split_part(self.links@[k], p)
    }
}

/// The kind of link that a partition sees, given the partitions of its two ends: a
/// local link if both ends lie in one partition, the downstream end of a split link
/// where only the end lies here, its upstream end where only the start does.
pub open spec fn sim_link_kind(l: SimLink, from_part: u32, to_part: u32, partition: u32) -> bool {
    if from_part == to_part {
        l is Local
    } else if to_part == partition {
        l is In && l->In_0.from_part == from_part
    } else {
        l is Out && l->Out_0.to_part == to_part
    }
}

/// `l` is a split link whose other end lies in partition `p`.
pub open spec fn split_part(l: Option<SimLink>, p: u32) -> bool {
    match l {
        Some(SimLink::In(il)) => il.from_part == p,
        Some(SimLink::Out(ol)) => ol.to_part == p,
        _ => false,
    }
}

/// The value of the last report in `reports` on link `id`.
pub open spec fn last_report(reports: Seq<StorageCapReport>, id: int) -> Option<u64>
    decreases reports.len(),
{
    if reports.len() == 0 {
        None
    } else if reports.last().link_id == id {
        Some(reports.last().value)
    } else {
        last_report(reports.drop_last(), id)
    }
}

/// What [`SimNetworkPartition::update_storage_caps`] does to one link slot: the
/// upstream end of a split link takes the reported occupancy, if any; every other
/// slot stays as it is.
pub open spec fn mirrored(old: Option<SimLink>, new: Option<SimLink>, report: Option<u64>) -> bool {
    match old {
        Some(SimLink::Out(ol)) => new matches Some(SimLink::Out(nl)) && {
            &&& nl.id == ol.id
            &&& nl.to_part == ol.to_part
            &&& nl.q_spec() == ol.q_spec()
            &&& nl.storage_spec().max_spec() == ol.storage_spec().max_spec()
            &&& nl.storage_spec().used_spec() == match report {
                Some(v) => v as int,
                None => ol.storage_spec().used_spec(),
            }
        },
        _ => new == old,
    }
}

/// The vehicles on a link that may leave at `now`, by their exit time.
pub open spec fn link_ready(l: Option<SimLink>, now: int) -> int {
    match l {
        Some(SimLink::Local(ll)) => ready_in(ll.q_spec(), now),
        Some(SimLink::In(il)) => ready_in(il.local_link.q_spec(), now),
        _ => 0,
    }
}

pub open spec fn ready_count(links: Seq<Option<SimLink>>, now: int) -> int
    decreases links.len(),
{
    if links.len() == 0 {
        0
    } else {
        ready_count(links.drop_last(), now) + link_ready(links.last(), now)
    }
}

proof fn lemma_ready_count_update(links: Seq<Option<SimLink>>, i: int, l: Option<SimLink>, now: int)
    requires
        0 <= i < links.len(),
    ensures
        ready_count(links.update(i, l), now) == ready_count(links, now) - link_ready(links[i], now) + link_ready(l, now),
    decreases links.len(),
{
    let u = links.update(i, l);
    if i == links.len() - 1 {
        assert(u.drop_last() =~= links.drop_last());
    } else {
        lemma_ready_count_update(links.drop_last(), i, l, now);
        assert(u.drop_last() =~= links.drop_last().update(i, l));
    }
}

proof fn lemma_ready_count_nonneg(links: Seq<Option<SimLink>>, now: int)
    ensures
        ready_count(links, now) >= 0,
    decreases links.len(),
{
    if links.len() > 0 {
        lemma_ready_count_nonneg(links.drop_last(), now);
        match links.last() {
            Some(SimLink::Local(ll)) => lemma_ready_in_nonneg(ll.q_spec(), now),
            Some(SimLink::In(il)) => lemma_ready_in_nonneg(il.local_link.q_spec(), now),
            _ => {},
        }
    }
}

/// Nothing can leave incoming link `id` at `now`: the link offers no vehicle (none
/// queued, its exit time not reached, or no flow capacity left), or the vehicle at its
/// head needs a next link that cannot take it here (not held, the downstream end of a
/// split link, or full).
pub open spec fn head_blocked(links: Seq<Option<SimLink>>, id: int, now: int) -> bool {
    let l = links[id]->Some_0.local_spec();
    let v = l.q_spec()[0].vehicle;
    !l.offers(now) || (v.has_next_link() && !(v.next_link_spec() < links.len() && links[v.next_link_spec() as int] is Some
        && !(links[v.next_link_spec() as int]->Some_0 is In) && links[v.next_link_spec() as int]->Some_0.accepts()))
}

/// A link that is an incoming link, blocked in `a` at `now`, is still blocked in `b`.
pub open spec fn blocked_kept(a: Seq<Option<SimLink>>, b: Seq<Option<SimLink>>, now: int) -> bool {
    forall|id: int|
        0 <= id < a.len() && a[id] is Some && !(a[id]->Some_0 is Out) && #[trigger] head_blocked(a, id, now)
            ==> head_blocked(b, id, now)
}

/// Every incoming link of `node` is blocked at `now`.
pub open spec fn node_done(node: SimNode, links: Seq<Option<SimLink>>, now: int) -> bool {
    forall|k: int| 0 <= k < node.in_links@.len() ==> #[trigger] head_blocked(links, node.in_links@[k] as int, now)
}

/// Nodes do not move a vehicle at `now` any more: every incoming link of every node
/// is blocked.
pub open spec fn all_nodes_done(nodes: Seq<SimNode>, links: Seq<Option<SimLink>>, now: int) -> bool {
    forall|j: int| 0 <= j < nodes.len() ==> #[trigger] node_done(nodes[j], links, now)
}

proof fn lemma_count_true_zero(s: Seq<bool>)
    ensures
        count_true(s) == 0 ==> forall|k: int| 0 <= k < s.len() ==> !s[k],
        count_true(s) > 0 ==> exists|k: int| 0 <= k < s.len() && s[k],
    decreases s.len(),
{
    if s.len() > 0 {
        lemma_count_true_zero(s.drop_last());
        if count_true(s) == 0 {
            assert forall|k: int| 0 <= k < s.len() implies !s[k] by {
                if k < s.len() - 1 {
                    assert(s[k] == s.drop_last()[k]);
                }
            }
        }
        if count_true(s) > 0 {
            if !s.last() {
                let k = choose|k: int| 0 <= k < s.drop_last().len() && s.drop_last()[k];
                assert(s[k] == s.drop_last()[k]);
            } else {
                assert(s[s.len() - 1]);
            }
        }
    }
}

/// Slot `i` of `b` is that of `a` after the head of its queue left: the queue lost
/// its head, the flow capacity the head's pce, and the head's storage is released at
/// the next tick boundary. Every other slot is as it was.
pub open spec fn head_left(a: Seq<Option<SimLink>>, b: Seq<Option<SimLink>>, i: int) -> bool {
    let la = a[i]->Some_0;
    let lb = b[i]->Some_0;
    let v = la.local_spec().q_spec()[0].vehicle;
    &&& a.len() == b.len()
    &&& b[i] is Some
    &&& (lb is Local) == (la is Local)
    &&& (lb is In) == (la is In)
    &&& !(lb is Out)
    &&& lb.id_spec() == la.id_spec()
    &&& lb.local_spec().q_spec() == la.local_spec().q_spec().drop_first()
    &&& lb.local_spec().flow_spec().accumulated_spec() == la.local_spec().flow_spec().accumulated_spec() - v.pce
        * UNITS_PER_MILLI_PCE
    &&& lb.storage_spec().used_spec() == la.storage_spec().used_spec()
    &&& lb.storage_spec().released_spec() == la.storage_spec().released_spec() + v.pce
    &&& forall|j: int| 0 <= j < a.len() && j != i ==> b[j] == a[j]
}

/// Slot `n` of `b` is that of `a` with vehicle `v` appended, entering at `now`.
/// Every other slot is as it was.
pub open spec fn entered(a: Seq<Option<SimLink>>, b: Seq<Option<SimLink>>, n: int, v: Vehicle, now: int) -> bool {
    let la = a[n]->Some_0;
    let lb = b[n]->Some_0;
    &&& a.len() == b.len()
    &&& b[n] is Some
    &&& (lb is Local) == (la is Local)
    &&& (lb is In) == (la is In)
    &&& (lb is Out) == (la is Out)
    &&& lb.vehicles_spec() == la.vehicles_spec().push(v)
    &&& lb.storage_spec().used_spec() == la.storage_spec().used_spec() + v.pce
    &&& (!(la is Out) ==> lb.local_spec().q_spec().last().earliest_exit_time == now + link_duration(
        la.local_spec().length_spec(),
        la.local_spec().free_speed_spec(),
        v.max_v as int,
    ))
    &&& forall|j: int| 0 <= j < a.len() && j != n ==> b[j] == a[j]
}

/// `w` is `v` one link further along its route.
pub open spec fn advanced(v: Vehicle, w: Vehicle) -> bool {
    &&& w.id == v.id
    &&& w.route@ == v.route@
    &&& w.curr_route_elem == v.curr_route_elem + 1
    &&& w.pce == v.pce
    &&& w.max_v == v.max_v
    &&& w.veh_type == v.veh_type
    &&& w.driver == v.driver
}

/// One move of a node at `now`, through the intermediate links `m`: the head `v` of
/// incoming link `i`, which the link offers, leaves it. If its route goes on, its
/// next link took it while below its maximum (LinkLeave(i), LinkEnter(next) are
/// published); else it leaves the network (LinkLeave(i), and it joins the exited).
pub open spec fn node_step_via(
    a: Seq<Option<SimLink>>,
    m: Seq<Option<SimLink>>,
    b: Seq<Option<SimLink>>,
    ea: Seq<(u32, Event)>,
    eb: Seq<(u32, Event)>,
    xa: Seq<Vehicle>,
    xb: Seq<Vehicle>,
    now: u32,
    i: int,
) -> bool {
    let v = a[i]->Some_0.local_spec().q_spec()[0].vehicle;
    &&& 0 <= i < a.len()
    &&& a[i] is Some
    &&& !(a[i]->Some_0 is Out)
    &&& a[i]->Some_0.local_spec().offers(now as int)
    &&& head_left(a, m, i)
    &&& if v.has_next_link() {
        let n = v.next_link_spec() as int;
        &&& n < a.len()
        &&& a[n] is Some
        &&& !(a[n]->Some_0 is In)
        &&& a[n]->Some_0.accepts()
        &&& (exists|w: Vehicle| advanced(v, w) && #[trigger] entered(m, b, n, w, now as int))
        &&& eb == ea.push((now, Event::LinkLeave { link: i as u64, vehicle: v.id })).push(
            (now, Event::LinkEnter { link: n as u64, vehicle: v.id }),
        )
        &&& xb == xa
    } else {
        &&& b == m
        &&& eb == ea.push((now, Event::LinkLeave { link: i as u64, vehicle: v.id }))
        &&& xb == xa.push(v)
    }
}

pub open spec fn node_step(
    a: Seq<Option<SimLink>>,
    b: Seq<Option<SimLink>>,
    ea: Seq<(u32, Event)>,
    eb: Seq<(u32, Event)>,
    xa: Seq<Vehicle>,
    xb: Seq<Vehicle>,
    now: u32,
) -> bool {
    exists|i: int, m: Seq<Option<SimLink>>| #[trigger] node_step_via(a, m, b, ea, eb, xa, xb, now, i)
}

/// `ls`, `es` and `xs` are the links, the events and the exited vehicles after each
/// move of a run of node moves at `now`.
pub open spec fn node_run(
    ls: Seq<Seq<Option<SimLink>>>,
    es: Seq<Seq<(u32, Event)>>,
    xs: Seq<Seq<Vehicle>>,
    now: u32,
) -> bool {
    &&& ls.len() >= 1
    &&& es.len() == ls.len()
    &&& xs.len() == ls.len()
    &&& forall|k: int| 0 <= k < ls.len() - 1 ==> #[trigger] node_step(ls[k], ls[k + 1], es[k], es[k + 1], xs[k], xs[k + 1], now)
}

proof fn lemma_node_run_push(
    ls: Seq<Seq<Option<SimLink>>>,
    es: Seq<Seq<(u32, Event)>>,
    xs: Seq<Seq<Vehicle>>,
    l: Seq<Option<SimLink>>,
    e: Seq<(u32, Event)>,
    x: Seq<Vehicle>,
    now: u32,
)
    requires
        node_run(ls, es, xs, now),
        node_step(ls.last(), l, es.last(), e, xs.last(), x, now),
    ensures
        node_run(ls.push(l), es.push(e), xs.push(x), now),
{
    let ls2 = ls.push(l);
    let es2 = es.push(e);
    let xs2 = xs.push(x);
    assert forall|k: int| 0 <= k < ls2.len() - 1 implies #[trigger] node_step(ls2[k], ls2[k + 1], es2[k], es2[k + 1], xs2[k], xs2[k + 1], now) by {
        if k < ls.len() - 1 {
            assert(ls2[k] == ls[k] && ls2[k + 1] == ls[k + 1] && es2[k] == es[k] && es2[k + 1] == es[k + 1] && xs2[k] == xs[k]
                && xs2[k + 1] == xs[k + 1]);
        } else {
            assert(ls2[k] == ls.last() && ls2[k + 1] == l && es2[k] == es.last() && es2[k + 1] == e && xs2[k] == xs.last()
                && xs2[k + 1] == x);
        }
    }
}

proof fn lemma_node_run_concat(
    ls: Seq<Seq<Option<SimLink>>>,
    es: Seq<Seq<(u32, Event)>>,
    xs: Seq<Seq<Vehicle>>,
    ls2: Seq<Seq<Option<SimLink>>>,
    es2: Seq<Seq<(u32, Event)>>,
    xs2: Seq<Seq<Vehicle>>,
    now: u32,
)
    requires
        node_run(ls, es, xs, now),
        node_run(ls2, es2, xs2, now),
        ls2[0] == ls.last(),
        es2[0] == es.last(),
        xs2[0] == xs.last(),
    ensures
        node_run(ls + ls2.drop_first(), es + es2.drop_first(), xs + xs2.drop_first(), now),
        (ls + ls2.drop_first()).last() == ls2.last(),
        (es + es2.drop_first()).last() == es2.last(),
        (xs + xs2.drop_first()).last() == xs2.last(),
        (ls + ls2.drop_first())[0] == ls[0],
        (es + es2.drop_first())[0] == es[0],
        (xs + xs2.drop_first())[0] == xs[0],
{
    let l3 = ls + ls2.drop_first();
    let e3 = es + es2.drop_first();
    let x3 = xs + xs2.drop_first();
    let n = ls.len();
    assert forall|k: int| 0 <= k < l3.len() - 1 implies #[trigger] node_step(l3[k], l3[k + 1], e3[k], e3[k + 1], x3[k], x3[k + 1], now) by {
        if k < n - 1 {
            assert(l3[k] == ls[k] && l3[k + 1] == ls[k + 1] && e3[k] == es[k] && e3[k + 1] == es[k + 1] && x3[k] == xs[k]
                && x3[k + 1] == xs[k + 1]);
        } else {
            let k2 = k - (n - 1);
            assert(l3[k] == ls2[k2] && l3[k + 1] == ls2[k2 + 1] && e3[k] == es2[k2] && e3[k + 1] == es2[k2 + 1] && x3[k]
                == xs2[k2] && x3[k + 1] == xs2[k2 + 1]);
        }
    }
    if ls2.len() == 1 {
        assert(l3 =~= ls);
        assert(e3 =~= es);
        assert(x3 =~= xs);
    }
}

/// The events of `ev` from index `from` on are link events at `now`, and each
/// LinkEnter directly follows the LinkLeave of the same vehicle.
pub open spec fn link_events_ok(ev: Seq<(u32, Event)>, from: int, now: u32) -> bool {
    forall|i: int|
        from <= i < ev.len() ==> (#[trigger] ev[i]).0 == now && (ev[i].1 is LinkLeave || (ev[i].1 is LinkEnter && i > from
            && ev[i - 1].1 is LinkLeave && ev[i - 1].1->LinkLeave_vehicle == ev[i].1->LinkEnter_vehicle))
}

proof fn lemma_link_events_push(ev: Seq<(u32, Event)>, from: int, now: u32, x: (u32, Event))
    requires
        0 <= from <= ev.len(),
        link_events_ok(ev, from, now),
        x.0 == now,
        x.1 is LinkLeave || (x.1 is LinkEnter && ev.len() > from && ev.last().1 is LinkLeave
            && ev.last().1->LinkLeave_vehicle == x.1->LinkEnter_vehicle),
    ensures
        link_events_ok(ev.push(x), from, now),
{
    let e2 = ev.push(x);
    assert forall|i: int| from <= i < e2.len() implies (#[trigger] e2[i]).0 == now && (e2[i].1 is LinkLeave || (
    e2[i].1 is LinkEnter && i > from && e2[i - 1].1 is LinkLeave && e2[i - 1].1->LinkLeave_vehicle
        == e2[i].1->LinkEnter_vehicle)) by {
        if i < ev.len() {
            assert(e2[i] == ev[i]);
            if i > from {
                assert(e2[i - 1] == ev[i - 1]);
            }
        } else {
            if i > from {
                assert(e2[i - 1] == ev.last());
            }
        }
    }
}

proof fn lemma_link_events_concat(a: Seq<(u32, Event)>, b: Seq<(u32, Event)>, from: int, now: u32)
    requires
        0 <= from <= a.len() <= b.len(),
        b.take(a.len() as int) == a,
        link_events_ok(a, from, now),
        link_events_ok(b, a.len() as int, now),
    ensures
        link_events_ok(b, from, now),
{
    assert forall|i: int| from <= i < b.len() implies (#[trigger] b[i]).0 == now && (b[i].1 is LinkLeave || (b[i].1 is LinkEnter
        && i > from && b[i - 1].1 is LinkLeave && b[i - 1].1->LinkLeave_vehicle == b[i].1->LinkEnter_vehicle)) by {
        if i < a.len() {
            assert(b[i] == b.take(a.len() as int)[i]);
            if i > from {
                assert(b[i - 1] == b.take(a.len() as int)[i - 1]);
            }
        }
    }
}

pub open spec fn node_seq(node: SimNode) -> Seq<SimNode> {
    seq![node]
}

/// The number of `true` entries of `s`.
pub open spec fn count_true(s: Seq<bool>) -> nat
    decreases s.len(),
{
    if s.len() == 0 {
        0
    } else {
        count_true(s.drop_last()) + if s.last() { 1nat } else { 0nat }
    }
}

pub proof fn lemma_count_true_update(s: Seq<bool>, i: int, b: bool)
    requires
        0 <= i < s.len(),
    ensures
        count_true(s.update(i, b)) == count_true(s) - (if s[i] { 1int } else { 0int }) + (if b { 1int } else { 0int }),
    decreases s.len(),
{
    let u = s.update(i, b);
    if i == s.len() - 1 {
        assert(u.drop_last() =~= s.drop_last());
    } else {
        lemma_count_true_update(s.drop_last(), i, b);
        assert(u.drop_last() =~= s.drop_last().update(i, b));
    }
}

/// The partition's links keep their invariant and its nodes' incoming links are held.
pub open spec fn wf_links_nodes(links: Seq<Option<SimLink>>, nodes: Seq<SimNode>) -> bool {
    links_wf(links) && nodes_wf(nodes, links)
}

/// What [`SimNetworkPartition::move_links`] does to one link slot: the downstream
/// ends get their flow refilled and their released storage freed, the upstream ends
/// of split links are emptied.
pub open spec fn moved_link(old: Option<SimLink>, new: Option<SimLink>, now: int) -> bool {
    match old {
        None => new is None,
        Some(SimLink::Out(ol)) => new matches Some(SimLink::Out(nl)) && {
            &&& nl.id == ol.id
            &&& nl.to_part == ol.to_part
            &&& nl.q_spec().len() == 0
            &&& nl.storage_spec().max_spec() == ol.storage_spec().max_spec()
            &&& nl.storage_spec().used_spec() == 0
        },
        Some(l) => new matches Some(nl) && {
            &&& nl.id_spec() == l.id_spec()
            &&& (nl is Local) == (l is Local)
            &&& (l is In ==> nl is In && nl->In_0.from_part == l->In_0.from_part)
            &&& nl.local_spec().q_spec() == l.local_spec().q_spec()
            &&& nl.local_spec().same_config(&l.local_spec())
            &&& nl.local_spec().flow_spec().accumulated_spec() == crate::flow_cap::refilled(
                l.local_spec().flow_spec().capacity_spec(),
                l.local_spec().flow_spec().accumulated_spec(),
                l.local_spec().flow_spec().last_update_spec(),
                now,
            )
            &&& nl.storage_spec().used_spec() == pce_sum(l.local_spec().q_spec())
            &&& nl.storage_spec().released_spec() == 0
        },
    }
}

} // verus!
