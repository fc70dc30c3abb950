use rust_q_sim::population::{Activity, UNDEFINED_TIME};
use rust_q_sim::time_queue::TimeQueue;

#[test]
fn pop_returns_due_items_earliest_first() {
    let mut q: TimeQueue<&str> = TimeQueue::new();
    q.add("late", 20);
    q.add("early", 5);
    q.add("now", 10);
    q.add("also-now", 10);
    assert_eq!(vec!["early", "now", "also-now"], q.pop(10));
    assert_eq!(1, q.len());
    assert!(q.pop(19).is_empty());
    assert_eq!(vec!["late"], q.pop(100));
    assert!(q.is_empty());
}

#[test]
fn pop_on_empty_queue() {
    let mut q: TimeQueue<u32> = TimeQueue::new();
    assert!(q.pop(u32::MAX).is_empty());
}

#[test]
fn activity_end_time_rule() {
    let explicit = Activity { act_type: 0, link_id: 0, start_time: None, end_time: Some(100), max_dur: Some(5) };
    assert_eq!(100, explicit.end_time(50));
    let by_duration = Activity { act_type: 0, link_id: 0, start_time: None, end_time: None, max_dur: Some(5) };
    assert_eq!(55, by_duration.end_time(50));
    assert_eq!(u32::MAX, by_duration.end_time(u32::MAX - 1));
    let open = Activity { act_type: 0, link_id: 0, start_time: None, end_time: None, max_dur: None };
    assert_eq!(UNDEFINED_TIME, open.end_time(50));
    assert_eq!(u32::MAX, UNDEFINED_TIME);
}
