use rtilience_sim_rust::base::event::BasicEvent;
use rtilience_sim_rust::base::priority_queue::Event;
use rtilience_sim_rust::base::priority_queue_binary_heap::PriorityQueueBinaryHeap;

#[test]
fn priority_queue_binary_heap_test_insert_and_pop() {
    let mut queue = PriorityQueueBinaryHeap::new();

    queue.insert(BasicEvent::new(10)).unwrap();
    queue.insert(BasicEvent::new(5)).unwrap();
    queue.insert(BasicEvent::new(15)).unwrap();

    assert_eq!(queue.pop_first().map(|e| e.get_time()), Some(5));
    assert_eq!(queue.pop_first().map(|e| e.get_time()), Some(10));
    assert_eq!(queue.pop_first().map(|e| e.get_time()), Some(15));
    assert_eq!(queue.pop_first().map(|e| e.get_time()), None);
}

#[test]
fn priority_queue_binary_heap_test_peek_first() {
    let mut queue = PriorityQueueBinaryHeap::new();

    queue.insert(BasicEvent::new(20)).unwrap();
    queue.insert(BasicEvent::new(10)).unwrap();

    assert_eq!(queue.peek_first(), Some(10));
    assert_eq!(queue.len(), 2);

    queue.pop_first();
    assert_eq!(queue.peek_first(), Some(20));
}

#[test]
fn priority_queue_binary_heap_test_empty_queue() {
    let mut queue: PriorityQueueBinaryHeap<BasicEvent> = PriorityQueueBinaryHeap::new();
    assert!(queue.is_empty());
    assert_eq!(queue.len(), 0);
    assert_eq!(queue.pop_first().map(|e| e.get_time()), None);
}

#[test]
fn priority_queue_binary_heap_test_negative_time_rejected() {
    let mut queue = PriorityQueueBinaryHeap::new();
    let event = BasicEvent::new(-1);
    let result = queue.insert(event);
    assert!(result.is_err());
}

#[test]
fn priority_queue_binary_heap_test_multiple_events_same_time() {
    let mut queue = PriorityQueueBinaryHeap::new();

    queue.insert(BasicEvent::new(10)).unwrap();
    queue.insert(BasicEvent::new(10)).unwrap();
    queue.insert(BasicEvent::new(10)).unwrap();
    queue.insert(BasicEvent::new(5)).unwrap();

    assert_eq!(queue.pop_first().map(|e| e.get_time()), Some(5));
    assert_eq!(queue.pop_first().map(|e| e.get_time()), Some(10));
    assert_eq!(queue.pop_first().map(|e| e.get_time()), Some(10));
    assert_eq!(queue.pop_first().map(|e| e.get_time()), Some(10));
    assert!(queue.pop_first().is_none());
}

#[test]
fn priority_queue_binary_heap_test_remove_event() {
    let mut queue = PriorityQueueBinaryHeap::new();

    let handle1 = queue.insert(BasicEvent::new(10)).unwrap();
    let handle2 = queue.insert(BasicEvent::new(20)).unwrap();
    let handle3 = queue.insert(BasicEvent::new(30)).unwrap();
    let _handle4 = queue.insert(BasicEvent::new(25)).unwrap();
    let _handle5 = queue.insert(BasicEvent::new(15)).unwrap();

    assert_eq!(queue.len(), 5);
    queue.remove(handle2);
    assert_eq!(queue.len(), 4);
    queue.remove(handle1);
    assert_eq!(queue.len(), 3);
    queue.remove(handle3);
    assert_eq!(queue.len(), 2);

    assert_eq!(queue.pop_first().map(|e| e.get_time()), Some(15));
    assert_eq!(queue.pop_first().map(|e| e.get_time()), Some(25));
    assert!(queue.pop_first().is_none());
}

#[test]
fn priority_queue_binary_heap_test_remove_head() {
    let mut queue = PriorityQueueBinaryHeap::new();

    let handle_first = queue.insert(BasicEvent::new(5)).unwrap();
    let _handle_second = queue.insert(BasicEvent::new(10)).unwrap();

    assert_eq!(queue.peek_first(), Some(5));
    queue.remove(handle_first);
    assert_eq!(queue.peek_first(), Some(10));
}

#[test]
fn priority_queue_binary_heap_test_remove_tail() {
    let mut queue = PriorityQueueBinaryHeap::new();

    let _handle_first = queue.insert(BasicEvent::new(5)).unwrap();
    let handle_last = queue.insert(BasicEvent::new(20)).unwrap();

    assert_eq!(queue.len(), 2);
    queue.remove(handle_last);
    assert_eq!(queue.len(), 1);
    assert_eq!(queue.pop_first().map(|e| e.get_time()), Some(5));
}

#[test]
fn priority_queue_binary_heap_test_clear() {
    let mut queue = PriorityQueueBinaryHeap::new();

    queue.insert(BasicEvent::new(10)).unwrap();
    queue.insert(BasicEvent::new(20)).unwrap();

    assert_eq!(queue.len(), 2);
    queue.clear();
    assert_eq!(queue.len(), 0);
    assert!(queue.is_empty());
}

#[test]
fn priority_queue_binary_heap_test_insertion_order_preserved() {
    let mut queue = PriorityQueueBinaryHeap::new();

    let _h1 = queue.insert(BasicEvent::new(30)).unwrap();
    let _h2 = queue.insert(BasicEvent::new(10)).unwrap();
    let _h3 = queue.insert(BasicEvent::new(20)).unwrap();
    let _h4 = queue.insert(BasicEvent::new(15)).unwrap();

    assert_eq!(queue.pop_first().map(|e| e.get_time()), Some(10));
    assert_eq!(queue.pop_first().map(|e| e.get_time()), Some(15));
    assert_eq!(queue.pop_first().map(|e| e.get_time()), Some(20));
    assert_eq!(queue.pop_first().map(|e| e.get_time()), Some(30));
}

// A deeper heap: every extraction gives the earliest remaining event, also
// after removals in the middle of the tree.
#[test]
fn heap_many_events_sorted_extraction() {
    let mut queue = PriorityQueueBinaryHeap::with_capacity(16);
    let times = [50, 3, 41, 7, 7, 19, 88, 0, 23, 64, 12, 5, 99, 31];
    let mut handles = Vec::new();
    for t in times {
        handles.push(queue.insert(BasicEvent::new(t)).unwrap());
    }
    // remove the events at 41 and 12, and the one at 0 after a pop
    queue.remove(handles[2]);
    queue.remove(handles[10]);
    assert_eq!(queue.pop_first().map(|e| e.get_time()), Some(0));
    queue.remove(handles[7]);
    let mut out = Vec::new();
    while let Some(e) = queue.pop_first() {
        out.push(e.get_time());
    }
    assert_eq!(out, vec![3, 5, 7, 7, 19, 23, 31, 50, 64, 88, 99]);
}

// The handle is the identifier of the event; an unknown handle removes nothing.
#[test]
fn heap_handle_is_event_id() {
    let mut queue = PriorityQueueBinaryHeap::new();
    let e = BasicEvent::new(8);
    let id = e.get_id();
    assert_eq!(queue.insert(e), Ok(id));
    queue.remove(id.wrapping_add(1));
    assert_eq!(queue.len(), 1);
    queue.remove(id);
    assert!(queue.is_empty());
}

// After a pop, the event moved to the top can still be removed by its handle.
#[test]
fn heap_remove_after_pop() {
    let mut queue = PriorityQueueBinaryHeap::new();
    let _a = queue.insert(BasicEvent::new(5)).unwrap();
    let b = queue.insert(BasicEvent::new(10)).unwrap();
    assert_eq!(queue.pop_first().map(|e| e.get_time()), Some(5));
    queue.remove(b);
    assert!(queue.is_empty());
}

// An identifier already queued is refused: a handle names one event.
#[test]
fn heap_duplicate_id_rejected() {
    let mut queue = PriorityQueueBinaryHeap::new();
    let mut a = BasicEvent::new(3);
    a.set_id(9);
    let mut b = BasicEvent::new(4);
    b.set_id(9);
    assert_eq!(queue.insert(a), Ok(9));
    assert_eq!(queue.insert(b), Err("Event id already queued".to_string()));
    assert_eq!(queue.len(), 1);
    assert_eq!(queue.peek_first(), Some(3));
}
