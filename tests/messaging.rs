use rust_q_sim::messaging::MessageBroker;
use std::collections::HashMap;
use std::sync::mpsc;
use std::sync::Arc;

#[test]
fn id() {
    let (_sender, receiver) = mpsc::channel();
    let id_mapping = Arc::new(HashMap::new());
    let broker = MessageBroker::new(42, receiver, HashMap::new(), HashMap::new(), id_mapping);

    assert_eq!(42, broker.id);
}

#[test]
fn partition_id() {
    let (_sender, receiver) = mpsc::channel();
    let id_mapping = Arc::new(HashMap::from([(1, 84)]));
    let broker = MessageBroker::new(42, receiver, HashMap::new(), HashMap::new(), id_mapping);

    assert_eq!(84, broker.part_id(&1).unwrap());
    assert_eq!(None, broker.part_id(&2));
}
