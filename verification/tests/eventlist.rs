use rtilience_sim_rust::base::event::BasicEvent;
use rtilience_sim_rust::base::eventlist::EventList;
use rtilience_sim_rust::base::periodic_event::PeriodicEvent;

#[test]
fn test_eventlist_creation() {
    let list: EventList<BasicEvent> = EventList::new();
    assert_eq!(list.is_empty(), true);
    assert_eq!(list.len(), 0);
}

#[test]
fn test_eventlist_insert() {
    let mut list = EventList::new();

    let event1 = BasicEvent::new(10);
    let event2 = BasicEvent::new(5);

    assert_eq!(list.insert(event1), Ok(()));
    assert_eq!(list.insert(event2), Ok(()));
    assert_eq!(list.len(), 2);
    assert_eq!(list.peek_first(), Some(5));
}

#[test]
fn test_eventlist_reject_out_of_bounds() {
    let mut list = EventList::new();
    list.set_last_time(100);

    let event = BasicEvent::new(150);

    assert_eq!(list.insert(event), Err("Event time 150 exceeds last_time 100".to_string()));
    assert_eq!(list.is_empty(), true);
}

#[test]
fn test_eventlist_accept_in_bounds() {
    let mut list = EventList::new();
    list.set_last_time(100);

    let event = BasicEvent::new(50);

    let result = list.insert(event);
    assert_eq!(result, Ok(()));
    assert_eq!(list.len(), 1);
}

#[test]
fn test_eventlist_sorted_extraction() {
    let mut list = EventList::new();

    list.insert(BasicEvent::new(30)).unwrap();
    list.insert(BasicEvent::new(10)).unwrap();
    list.insert(BasicEvent::new(20)).unwrap();

    assert_eq!(list.peek_first(), Some(10));
    let e1 = list.queue.pop_first();
    assert_eq!(e1.is_some(), true);

    assert_eq!(list.peek_first(), Some(20));
    let e2 = list.queue.pop_first();
    assert_eq!(e2.is_some(), true);

    assert_eq!(list.peek_first(), Some(30));
    let e3 = list.queue.pop_first();
    assert_eq!(e3.is_some(), true);

    assert_eq!(list.is_empty(), true);
}

#[test]
fn test_eventlist_with_periodic_events() {
    let mut list = EventList::new();
    list.set_last_time(50);

    // A periodic event that runs at 5, 15, 25, 35, 45
    list.insert(PeriodicEvent::new(5, 10)).unwrap();

    assert_eq!(list.len(), 1);
    assert_eq!(list.peek_first(), Some(5));

    let mut count = 0;
    list.run_conditionally(|| {
        count += 1;
        count < 5
    });

    assert_eq!(list.is_empty(), true);
}

// The last time is the max time for events: an event exactly at it is taken.
#[test]
fn eventlist_accepts_event_at_last_time() {
    let mut list = EventList::new();
    list.set_last_time(100);
    assert_eq!(list.insert(BasicEvent::new(100)), Ok(()));
    assert_eq!(list.len(), 1);
    assert_eq!(list.insert(BasicEvent::new(101)), Err("Event time 101 exceeds last_time 100".to_string()));
    assert_eq!(list.len(), 1);
}

// A negative time is refused by the queue under the list.
#[test]
fn eventlist_rejects_negative_time() {
    let mut list = EventList::new();
    assert_eq!(list.insert(BasicEvent::new(-3)), Err("Event time cannot be negative".to_string()));
    assert_eq!(list.len(), 0);
}

// Running until an end time fires every event before it, and what is left
// was queued before the run.
#[test]
fn eventlist_run_until_end_time() {
    let mut list = EventList::new();
    list.insert(PeriodicEvent::new(0, 7)).unwrap();
    list.run(30);
    assert!(list.is_empty());
}

// Clearing empties the list; the last time stays.
#[test]
fn eventlist_clear_keeps_last_time() {
    let mut list = EventList::new();
    list.set_last_time(20);
    list.insert(BasicEvent::new(1)).unwrap();
    list.insert(BasicEvent::new(2)).unwrap();
    list.clear();
    assert!(list.is_empty());
    assert_eq!(list.peek_first(), None);
    assert!(list.insert(BasicEvent::new(25)).is_err());
}

// Running an empty list leaves it empty.
#[test]
fn eventlist_run_on_empty_list() {
    let mut list: EventList<BasicEvent> = EventList::new();
    list.run_conditionally(|| true);
    assert!(list.is_empty());
}
