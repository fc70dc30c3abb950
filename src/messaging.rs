use vstd::prelude::*;
use std::collections::HashMap;
use std::sync::Arc;
use std::sync::mpsc::{Receiver, Sender};
use crate::messages::SyncMessage;

verus! {

broadcast use vstd::std_specs::hash::group_hash_axioms;

#[verifier::external_type_specification]
#[verifier::external_body]
#[verifier::reject_recursive_types(T)]
pub struct ExReceiver<T>(Receiver<T>);

#[verifier::external_type_specification]
#[verifier::external_body]
#[verifier::reject_recursive_types(T)]
pub struct ExSender<T>(Sender<T>);

/// The channel ends of one partition that runs in a thread of its own: where its
/// messages come in, where it sends to its neighbors (every tick) and to other
/// partitions (when it has something for them), and the partition of each link.
pub struct MessageBroker {
    pub id: usize,
    pub receiver: Receiver<SyncMessage>,
    pub neighbor_senders: HashMap<usize, Sender<SyncMessage>>,
    pub remote_senders: HashMap<usize, Sender<SyncMessage>>,
    pub link_id_mapping: Arc<HashMap<usize, usize>>,
}

impl MessageBroker {
    pub fn new(
        id: usize,
        receiver: Receiver<SyncMessage>,
        neighbor_senders: HashMap<usize, Sender<SyncMessage>>,
        remote_senders: HashMap<usize, Sender<SyncMessage>>,
        link_id_mapping: Arc<HashMap<usize, usize>>,
    ) -> (r: MessageBroker)
        ensures
            r.id == id,
            r.link_id_mapping@ == link_id_mapping@,
    {
        MessageBroker { id, receiver, neighbor_senders, remote_senders, link_id_mapping }
    }

    /// The partition of link `link_id`, if the mapping has it.
    pub fn part_id(&self, link_id: &usize) -> (r: Option<usize>)
        ensures
            r is Some <==> self.link_id_mapping@.contains_key(*link_id),
            r matches Some(p) ==> self.link_id_mapping@[*link_id] == p,
    {
        let mapping: &HashMap<usize, usize> = &self.link_id_mapping;
        match mapping.get(link_id) {
            Some(p) => Some(*p),
            None => None,
        }
    }
}

} // verus!
