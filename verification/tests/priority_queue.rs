use rtilience_sim_rust::base::event::BasicEvent;
use rtilience_sim_rust::base::priority_queue::{Event, PriorityQueue};

#[test]
fn priority_queue_test_insert_and_pop() {
    let mut queue = PriorityQueue::new();

    queue.insert(BasicEvent::new(10)).unwrap();
    queue.insert(BasicEvent::new(5)).unwrap();
    queue.insert(BasicEvent::new(15)).unwrap();

    assert_eq!(queue.pop_first().map(|e| e.get_time()), Some(5));
    assert_eq!(queue.pop_first().map(|e| e.get_time()), Some(10));
    assert_eq!(queue.pop_first().map(|e| e.get_time()), Some(15));
    assert_eq!(queue.pop_first().map(|e| e.get_time()), None);
}

#[test]
fn priority_queue_test_peek_first() {
    let mut queue = PriorityQueue::new();

    queue.insert(BasicEvent::new(20)).unwrap();
    queue.insert(BasicEvent::new(10)).unwrap();

    assert_eq!(queue.peek_first(), Some(10));
    assert_eq!(queue.len(), 2);

    queue.pop_first();
    assert_eq!(queue.peek_first(), Some(20));
}

#[test]
fn priority_queue_test_empty_queue() {
    let mut queue: PriorityQueue<BasicEvent> = PriorityQueue::new();
    assert!(queue.is_empty());
    assert_eq!(queue.len(), 0);
    assert_eq!(queue.pop_first().map(|e| e.get_time()), None);
}

#[test]
fn priority_queue_test_negative_time_rejected() {
    let mut queue = PriorityQueue::new();
    let event = BasicEvent::new(-1);
    assert_eq!(queue.insert(event), Err("Event time cannot be negative".to_string()));
}

#[test]
fn priority_queue_test_multiple_events_same_time() {
    let mut queue = PriorityQueue::new();

    queue.insert(BasicEvent::new(10)).unwrap();
    queue.insert(BasicEvent::new(10)).unwrap();
    queue.insert(BasicEvent::new(10)).unwrap();
    queue.insert(BasicEvent::new(5)).unwrap();

    assert_eq!(queue.pop_first().map(|e| e.get_time()), Some(5));
    assert_eq!(queue.pop_first().map(|e| e.get_time()), Some(10));
    assert_eq!(queue.pop_first().map(|e| e.get_time()), Some(10));
    assert_eq!(queue.pop_first().map(|e| e.get_time()), Some(10));
    assert!(queue.pop_first().is_none());
}

#[test]
fn priority_queue_test_remove_event() {
    let mut queue = PriorityQueue::new();

    let event1 = BasicEvent::new(10);
    let event1_id = event1.get_id();
    queue.insert(event1).unwrap();
    queue.insert(BasicEvent::new(10)).unwrap();
    queue.insert(BasicEvent::new(20)).unwrap();

    assert_eq!(queue.len(), 3);

    // A search key with the same time and identifier
    let mut search = BasicEvent::new(99);
    search.time = 10;
    search.set_id(event1_id);

    let removed = queue.remove(&search);
    assert!(removed);
    assert_eq!(queue.len(), 2);

    assert_eq!(queue.pop_first().map(|e| e.get_time()), Some(10));
    assert_eq!(queue.pop_first().map(|e| e.get_time()), Some(20));
    assert_eq!(queue.pop_first().map(|e| e.get_time()), None);
}

// Events at one time come out in the order in which they went in.
#[test]
fn priority_queue_equal_times_first_in_first_out() {
    let mut queue = PriorityQueue::new();
    let mut a = BasicEvent::new(4);
    a.set_id(1);
    let mut b = BasicEvent::new(4);
    b.set_id(2);
    let mut c = BasicEvent::new(4);
    c.set_id(3);
    queue.insert(a).unwrap();
    queue.insert(b).unwrap();
    queue.insert(c).unwrap();
    assert_eq!(queue.pop_first().map(|e| e.get_id()), Some(1));
    assert_eq!(queue.pop_first().map(|e| e.get_id()), Some(2));
    assert_eq!(queue.pop_first().map(|e| e.get_id()), Some(3));
}

// Removing an event that is not there changes nothing.
#[test]
fn priority_queue_remove_missing_event() {
    let mut queue = PriorityQueue::new();
    let mut a = BasicEvent::new(4);
    a.set_id(1);
    queue.insert(a).unwrap();
    let mut other_id = BasicEvent::new(4);
    other_id.set_id(2);
    let mut other_time = BasicEvent::new(5);
    other_time.set_id(1);
    assert!(!queue.remove(&other_id));
    assert!(!queue.remove(&other_time));
    assert_eq!(queue.len(), 1);
}

// Removing takes out only the first of two events that match.
#[test]
fn priority_queue_remove_takes_first_match() {
    let mut queue = PriorityQueue::new();
    for t in [6, 6, 8] {
        let mut e = BasicEvent::new(t);
        e.set_id(7);
        queue.insert(e).unwrap();
    }
    let mut key = BasicEvent::new(6);
    key.set_id(7);
    assert!(queue.remove(&key));
    assert_eq!(queue.len(), 2);
    assert_eq!(queue.pop_first().map(|e| e.get_time()), Some(6));
    assert!(queue.remove(&key) == false);
}

// Clearing empties the queue, and it can be filled again.
#[test]
fn priority_queue_clear() {
    let mut queue = PriorityQueue::new();
    queue.insert(BasicEvent::new(1)).unwrap();
    queue.insert(BasicEvent::new(2)).unwrap();
    queue.clear();
    assert!(queue.is_empty());
    assert_eq!(queue.peek_first(), None);
    queue.insert(BasicEvent::new(3)).unwrap();
    assert_eq!(queue.peek_first(), Some(3));
}
