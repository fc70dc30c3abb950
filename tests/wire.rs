use rust_q_sim::id::{Id, IdStore};
use rust_q_sim::wire::{load_from_wire_format, store_to_wire_format};

#[test]
fn wire_format_round_trip() {
    let mut store = IdStore::new();
    Id::create(&mut store, "link-1");
    Id::create(&mut store, "");
    Id::create(&mut store, "knoten-ä");
    let bytes = store_to_wire_format(&store);
    let read = load_from_wire_format(bytes).unwrap();
    assert_eq!(3, read.len());
    assert_eq!("link-1", Id::get(&read, 0).unwrap().external());
    assert_eq!("", Id::get(&read, 1).unwrap().external());
    assert_eq!("knoten-ä", Id::get(&read, 2).unwrap().external());
    assert_eq!(2, Id::get_from_ext(&read, "knoten-ä").unwrap().internal());
}

#[test]
fn wire_format_layout() {
    let mut store = IdStore::new();
    Id::create(&mut store, "ab");
    let bytes = store_to_wire_format(&store);
    let expected: Vec<u8> = vec![
        1, 0, 0, 0, 0, 0, 0, 0, // one id
        2, 0, 0, 0, 0, 0, 0, 0, // of two characters
        b'a', 0, 0, 0, b'b', 0, 0, 0,
    ];
    assert_eq!(expected, bytes);
}

#[test]
fn wire_format_empty_store() {
    let store = IdStore::new();
    let bytes = store_to_wire_format(&store);
    assert_eq!(vec![0u8; 8], bytes);
    assert_eq!(0, load_from_wire_format(bytes).unwrap().len());
}

#[test]
fn wire_format_rejects_malformed() {
    // too short for the count
    assert!(load_from_wire_format(vec![1, 0, 0]).is_none());
    // announces one id that is not there
    assert!(load_from_wire_format(vec![1, 0, 0, 0, 0, 0, 0, 0]).is_none());
    // a surrogate is no character
    let mut bytes = vec![1, 0, 0, 0, 0, 0, 0, 0, 1, 0, 0, 0, 0, 0, 0, 0];
    bytes.extend([0x00, 0xD8, 0, 0]);
    assert!(load_from_wire_format(bytes).is_none());
    // the same id twice
    let mut twice = vec![2, 0, 0, 0, 0, 0, 0, 0];
    for _ in 0..2 {
        twice.extend([1, 0, 0, 0, 0, 0, 0, 0, b'x', 0, 0, 0]);
    }
    assert!(load_from_wire_format(twice).is_none());
    // trailing bytes
    let mut trailing = store_to_wire_format(&IdStore::new());
    trailing.push(7);
    assert!(load_from_wire_format(trailing).is_none());
}
