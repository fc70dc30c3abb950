use rust_q_sim::id::{Id, IdStore};

#[test]
fn test_id_eq() {
    let id = Id::new(1, String::from("external-id"));
    assert_eq!(id, id.clone());

    let equal = Id::new(1, String::from("other-external-value-which-should-be-ignored"));
    assert_eq!(id, equal);

    let unequal = Id::new(2, String::from("external-id"));
    assert_ne!(id, unequal)
}

#[test]
fn create_id() {
    let mut store = IdStore::new();
    let external = String::from("external-id");

    let id = Id::create(&mut store, &external);
    assert_eq!(external, id.external());
    assert_eq!(0, id.internal());
}

#[test]
fn create_id_duplicate() {
    let mut store = IdStore::new();
    let external = String::from("external-id");

    let id = Id::create(&mut store, &external);
    let duplicate = Id::create(&mut store, &external);

    assert_eq!(id, duplicate);
    assert_eq!(1, store.len());
}

#[test]
fn create_id_multiple_types() {
    let mut int_store = IdStore::new();
    let mut float_store = IdStore::new();
    let external = String::from("external-id");

    let int_id = Id::create(&mut int_store, &external);
    assert_eq!(external, int_id.external());
    assert_eq!(0, int_id.internal());

    let float_id = Id::create(&mut float_store, &external);
    assert_eq!(external, float_id.external());
    assert_eq!(0, float_id.internal());
}

#[test]
fn get_id() {
    let mut store = IdStore::new();
    let external_1 = String::from("id-1");
    let external_2 = String::from("id-2");
    let id_1 = Id::create(&mut store, &external_1);
    let id_2 = Id::create(&mut store, &external_2);
    assert_eq!(1, id_2.internal());

    let fetched_1 = Id::get(&store, id_1.internal()).unwrap();
    let fetched_2 = Id::get(&store, id_2.internal()).unwrap();
    assert_eq!(fetched_1.external(), external_1);
    assert_eq!(fetched_2.external(), external_2);
    assert!(Id::get(&store, 2).is_none());
}

#[test]
fn id_store_get_ext() {
    let mut store = IdStore::new();
    let external_1 = String::from("id-1");
    let external_2 = String::from("id-2");
    let id_1 = Id::create(&mut store, &external_1);
    let id_2 = Id::create(&mut store, &external_2);

    let fetched_1 = Id::get_from_ext(&store, id_1.external()).unwrap();
    let fetched_2 = Id::get_from_ext(&store, id_2.external()).unwrap();
    assert_eq!(fetched_1.external(), external_1);
    assert_eq!(fetched_2.external(), external_2);
    assert_eq!(1, fetched_2.internal());
    assert!(Id::get_from_ext(&store, "id-3").is_none());
}
