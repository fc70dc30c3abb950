use rust_q_sim::link::SimLink;
use rust_q_sim::network::{Link, Network, Node};
use rust_q_sim::population::{Activity, Agent, PlanElement};
use rust_q_sim::sim_network::SimNetworkPartition;

fn add_node(net: &mut Network, partition: u32) -> u64 {
    let id = net.nodes.len() as u64;
    net.nodes.push(Node { id, partition, in_links: vec![], out_links: vec![] });
    id
}

fn add_link(net: &mut Network, from: u64, to: u64) -> u64 {
    let id = net.links.len() as u64;
    net.links.push(Link { id, from, to, length: 100_000, freespeed: 10_000, capacity: 3600, permlanes: 1_000 });
    net.nodes[from as usize].out_links.push(id);
    net.nodes[to as usize].in_links.push(id);
    id
}

fn three_node_network() -> Network {
    let mut net = Network { nodes: vec![], links: vec![], effective_cell_size: 7_500 };
    let n1 = add_node(&mut net, 0);
    let n2 = add_node(&mut net, 0);
    let n3 = add_node(&mut net, 1);
    add_link(&mut net, n1, n2);
    add_link(&mut net, n2, n3);
    net
}

fn held(net: &SimNetworkPartition) -> usize {
    net.links.iter().filter(|l| l.is_some()).count()
}

#[test]
fn from_network() {
    let network = three_node_network();
    let net1 = SimNetworkPartition::from_network(&network, 0, 1_000_000, 1);
    assert_eq!(2, net1.nodes.len());
    assert_eq!(2, held(&net1));
    assert!(matches!(net1.links[0], Some(SimLink::Local(_))));
    assert!(matches!(net1.links[1], Some(SimLink::Out(_))));

    let net2 = SimNetworkPartition::from_network(&network, 1, 1_000_000, 2);
    assert_eq!(1, net2.nodes.len());
    assert_eq!(1, held(&net2));
    assert!(matches!(net2.links[1], Some(SimLink::In(_))));
}

#[test]
fn neighbors() {
    let mut net = Network { nodes: vec![], links: vec![], effective_cell_size: 7_500 };
    let node = add_node(&mut net, 0);
    let node_1_1 = add_node(&mut net, 1);
    let node_1_2 = add_node(&mut net, 1);
    let node_2_1 = add_node(&mut net, 2);
    let node_3_1 = add_node(&mut net, 3);
    let _not_a_neighbor = add_node(&mut net, 4);
    add_link(&mut net, node_1_1, node);
    add_link(&mut net, node_1_2, node);
    add_link(&mut net, node_2_1, node);
    add_link(&mut net, node, node_1_1);
    add_link(&mut net, node, node_1_2);
    add_link(&mut net, node, node_3_1);

    let sim_net = SimNetworkPartition::from_network(&net, 0, 1_000_000, 0);

    let neighbors = sim_net.neighbors();
    assert_eq!(3, neighbors.len());
    assert!(neighbors.contains(&1));
    assert!(neighbors.contains(&2));
    assert!(neighbors.contains(&3));
    assert!(!neighbors.contains(&4));
}

#[test]
fn link_partitions_follow_the_downstream_node() {
    let network = three_node_network();
    assert_eq!(vec![0, 1], network.link_partitions());
}

fn resting_agent(id: u64, link_id: u64) -> Agent {
    Agent {
        id,
        plan: vec![PlanElement::Activity(Activity { act_type: 0, link_id, start_time: None, end_time: None, max_dur: None })],
        curr_plan_elem: 0,
    }
}

#[test]
fn agents_start_where_their_activity_is() {
    let network = three_node_network();
    let agents = vec![resting_agent(1, 1), resting_agent(2, 0), resting_agent(3, 1), resting_agent(4, 9)];
    let in1: Vec<u64> = network.agents_of_partition(agents, 1).iter().map(|a| a.id).collect();
    assert_eq!(vec![1, 3], in1);
    let agents = vec![resting_agent(1, 1), resting_agent(2, 0)];
    let in0: Vec<u64> = network.agents_of_partition(agents, 0).iter().map(|a| a.id).collect();
    assert_eq!(vec![2], in0);
}
