use rust_q_sim::events::Event;
use rust_q_sim::events_reader::{CountRow, StatefulEventsReader};

#[test]
fn counts_activity_ends_by_tick_and_partition() {
    // links 0 and 1 lie in partition 0, link 2 in partition 1; type 9 is left out
    let mut reader = StatefulEventsReader::new(vec![0, 0, 1], vec![9]);
    reader.process_event(5, &Event::ActEnd { person: 1, link: 2, act_type: 0 });
    reader.process_event(5, &Event::ActEnd { person: 2, link: 0, act_type: 0 });
    reader.process_event(5, &Event::ActEnd { person: 3, link: 1, act_type: 1 });
    reader.process_event(5, &Event::ActEnd { person: 4, link: 1, act_type: 9 });
    reader.process_event(3, &Event::ActEnd { person: 5, link: 2, act_type: 0 });
    reader.process_event(5, &Event::ActStart { person: 1, link: 2, act_type: 0 });
    reader.process_event(6, &Event::ActEnd { person: 6, link: 7, act_type: 0 });
    assert_eq!(
        vec![
            CountRow { time: 3, partition: 1, count: 1 },
            CountRow { time: 5, partition: 0, count: 2 },
            CountRow { time: 5, partition: 1, count: 1 },
        ],
        reader.rows()
    );
}

#[test]
fn no_events_no_rows() {
    let reader = StatefulEventsReader::new(vec![0], vec![]);
    assert!(reader.rows().is_empty());
}
