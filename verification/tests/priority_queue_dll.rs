use rtilience_sim_rust::base::event::BasicEvent;
use rtilience_sim_rust::base::priority_queue::Event;
use rtilience_sim_rust::base::priority_queue_dll::PriorityQueueDLL;

#[test]
fn priority_queue_dll_test_insert_and_pop() {
    let mut queue = PriorityQueueDLL::new();

    queue.insert(BasicEvent::new(10)).unwrap();
    queue.insert(BasicEvent::new(5)).unwrap();
    queue.insert(BasicEvent::new(15)).unwrap();

    assert_eq!(queue.pop_first().map(|e| e.get_time()), Some(5));
    assert_eq!(queue.pop_first().map(|e| e.get_time()), Some(10));
    assert_eq!(queue.pop_first().map(|e| e.get_time()), Some(15));
    assert_eq!(queue.pop_first().map(|e| e.get_time()), None);
}

#[test]
fn priority_queue_dll_test_peek_first() {
    let mut queue = PriorityQueueDLL::new();

    queue.insert(BasicEvent::new(20)).unwrap();
    queue.insert(BasicEvent::new(10)).unwrap();

    assert_eq!(queue.peek_first(), Some(10));
    assert_eq!(queue.len(), 2);

    queue.pop_first();
    assert_eq!(queue.peek_first(), Some(20));
}

#[test]
fn priority_queue_dll_test_empty_queue() {
    let mut queue: PriorityQueueDLL<BasicEvent> = PriorityQueueDLL::new();
    assert!(queue.is_empty());
    assert_eq!(queue.len(), 0);
    assert_eq!(queue.pop_first().map(|e| e.get_time()), None);
}

#[test]
fn priority_queue_dll_test_negative_time_rejected() {
    let mut queue = PriorityQueueDLL::new();
    let event = BasicEvent::new(-1);
    let result = queue.insert(event);
    assert!(result.is_err());
}

#[test]
fn priority_queue_dll_test_multiple_events_same_time() {
    let mut queue = PriorityQueueDLL::new();

    queue.insert(BasicEvent::new(10)).unwrap();
    queue.insert(BasicEvent::new(10)).unwrap();
    queue.insert(BasicEvent::new(10)).unwrap();
    queue.insert(BasicEvent::new(5)).unwrap();

    assert_eq!(queue.pop_first().map(|e| e.get_time()), Some(5));
    assert_eq!(queue.pop_first().map(|e| e.get_time()), Some(10));
    assert_eq!(queue.pop_first().map(|e| e.get_time()), Some(10));
    assert_eq!(queue.pop_first().map(|e| e.get_time()), Some(10));
    assert!(queue.pop_first().is_none());
}

#[test]
fn priority_queue_dll_test_remove_event() {
    let mut queue = PriorityQueueDLL::new();

    let handle1 = queue.insert(BasicEvent::new(10)).unwrap();
    let handle2 = queue.insert(BasicEvent::new(20)).unwrap();
    let handle3 = queue.insert(BasicEvent::new(30)).unwrap();
    let _handle4 = queue.insert(BasicEvent::new(25)).unwrap();
    let _handle5 = queue.insert(BasicEvent::new(15)).unwrap();

    assert_eq!(queue.len(), 5);
    queue.remove(handle2);
    assert_eq!(queue.len(), 4);
    queue.remove(handle1);
    assert_eq!(queue.len(), 3);
    queue.remove(handle3);
    assert_eq!(queue.len(), 2);

    assert_eq!(queue.pop_first().map(|e| e.get_time()), Some(15));
    assert_eq!(queue.pop_first().map(|e| e.get_time()), Some(25));
    assert!(queue.pop_first().is_none());
}

#[test]
fn priority_queue_dll_test_remove_head() {
    let mut queue = PriorityQueueDLL::new();

    let handle_first = queue.insert(BasicEvent::new(5)).unwrap();
    let _handle_second = queue.insert(BasicEvent::new(10)).unwrap();

    assert_eq!(queue.peek_first(), Some(5));
    queue.remove(handle_first);
    assert_eq!(queue.peek_first(), Some(10));
}

#[test]
fn priority_queue_dll_test_remove_tail() {
    let mut queue = PriorityQueueDLL::new();

    let _handle_first = queue.insert(BasicEvent::new(5)).unwrap();
    let handle_last = queue.insert(BasicEvent::new(20)).unwrap();

    assert_eq!(queue.len(), 2);
    queue.remove(handle_last);
    assert_eq!(queue.len(), 1);
    assert_eq!(queue.pop_first().map(|e| e.get_time()), Some(5));
}

#[test]
fn priority_queue_dll_test_clear() {
    let mut queue = PriorityQueueDLL::new();

    queue.insert(BasicEvent::new(10)).unwrap();
    queue.insert(BasicEvent::new(20)).unwrap();

    assert_eq!(queue.len(), 2);
    queue.clear();
    assert_eq!(queue.len(), 0);
    assert!(queue.is_empty());
}

#[test]
fn priority_queue_dll_test_insertion_order_preserved() {
    let mut queue = PriorityQueueDLL::new();

    let _h1 = queue.insert(BasicEvent::new(30)).unwrap();
    let _h2 = queue.insert(BasicEvent::new(10)).unwrap();
    let _h3 = queue.insert(BasicEvent::new(20)).unwrap();
    let _h4 = queue.insert(BasicEvent::new(15)).unwrap();

    assert_eq!(queue.pop_first().map(|e| e.get_time()), Some(10));
    assert_eq!(queue.pop_first().map(|e| e.get_time()), Some(15));
    assert_eq!(queue.pop_first().map(|e| e.get_time()), Some(20));
    assert_eq!(queue.pop_first().map(|e| e.get_time()), Some(30));
}

// Handles given out stay distinct while their nodes are queued.
#[test]
fn dll_handles_are_distinct() {
    let mut queue = PriorityQueueDLL::new();
    let a = queue.insert(BasicEvent::new(4)).unwrap();
    let b = queue.insert(BasicEvent::new(4)).unwrap();
    let c = queue.insert(BasicEvent::new(1)).unwrap();
    assert!(a != b && b != c && a != c);
    queue.remove(b);
    assert_eq!(queue.debug_all_times(), vec![1, 4]);
    assert_eq!(queue.insert(BasicEvent::new(-2)), Err("Event time cannot be negative".to_string()));
}
