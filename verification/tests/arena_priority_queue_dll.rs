use rtilience_sim_rust::base::arena_priority_queue_dll::ArenaAcPriorityQueueDLL;
use rtilience_sim_rust::base::event::BasicEvent;
use rtilience_sim_rust::base::priority_queue::Event;
use rtilience_sim_rust::base::random_variable::{Deterministic, Uniform};
use rtilience_sim_rust::base::sporadic_event::SporadicEvent;

#[test]
fn arena_priority_queue_dll_test_insert_and_pop() {
    let mut queue = ArenaAcPriorityQueueDLL::new();

    queue.insert(BasicEvent::new(10)).unwrap();
    queue.insert(BasicEvent::new(5)).unwrap();
    queue.insert(BasicEvent::new(15)).unwrap();

    assert_eq!(queue.pop_first().map(|e| e.get_time()), Some(5));
    assert_eq!(queue.pop_first().map(|e| e.get_time()), Some(10));
    assert_eq!(queue.pop_first().map(|e| e.get_time()), Some(15));
    assert_eq!(queue.pop_first().map(|e| e.get_time()), None);
}

#[test]
fn arena_priority_queue_dll_test_peek_first() {
    let mut queue = ArenaAcPriorityQueueDLL::new();

    queue.insert(BasicEvent::new(20)).unwrap();
    queue.insert(BasicEvent::new(10)).unwrap();

    assert_eq!(queue.peek_first(), Some(10));
    assert_eq!(queue.len(), 2);

    queue.pop_first();
    assert_eq!(queue.peek_first(), Some(20));
}

#[test]
fn arena_priority_queue_dll_test_empty_queue() {
    let mut queue: ArenaAcPriorityQueueDLL<BasicEvent> = ArenaAcPriorityQueueDLL::new();
    assert!(queue.is_empty());
    assert_eq!(queue.len(), 0);
    assert_eq!(queue.pop_first().map(|e| e.get_time()), None);
}

#[test]
fn arena_priority_queue_dll_test_negative_time_rejected() {
    let mut queue = ArenaAcPriorityQueueDLL::new();
    let event = BasicEvent::new(-1);
    let result = queue.insert(event);
    assert!(result.is_err());
}

#[test]
fn arena_priority_queue_dll_test_multiple_events_same_time() {
    let mut queue = ArenaAcPriorityQueueDLL::new();

    queue.insert(BasicEvent::new(10)).unwrap();
    queue.insert(BasicEvent::new(10)).unwrap();
    queue.insert(BasicEvent::new(10)).unwrap();
    queue.insert(BasicEvent::new(5)).unwrap();

    assert_eq!(queue.pop_first().map(|e| e.get_time()), Some(5));
    assert_eq!(queue.pop_first().map(|e| e.get_time()), Some(10));
    assert_eq!(queue.pop_first().map(|e| e.get_time()), Some(10));
    assert_eq!(queue.pop_first().map(|e| e.get_time()), Some(10));
    assert!(queue.pop_first().is_none());
}

#[test]
fn arena_priority_queue_dll_test_remove_event() {
    let mut queue = ArenaAcPriorityQueueDLL::new();

    let handle1 = queue.insert(BasicEvent::new(10)).unwrap();
    let handle2 = queue.insert(BasicEvent::new(20)).unwrap();
    let handle3 = queue.insert(BasicEvent::new(30)).unwrap();
    let _handle4 = queue.insert(BasicEvent::new(25)).unwrap();
    let _handle5 = queue.insert(BasicEvent::new(15)).unwrap();

    assert_eq!(queue.len(), 5);
    queue.remove(handle2);
    assert_eq!(queue.len(), 4);
    queue.remove(handle1);
    assert_eq!(queue.len(), 3);
    queue.remove(handle3);
    assert_eq!(queue.len(), 2);

    assert_eq!(queue.pop_first().map(|e| e.get_time()), Some(15));
    assert_eq!(queue.pop_first().map(|e| e.get_time()), Some(25));
    assert!(queue.pop_first().is_none());
}

#[test]
fn arena_priority_queue_dll_test_remove_head() {
    let mut queue = ArenaAcPriorityQueueDLL::new();

    let handle_first = queue.insert(BasicEvent::new(5)).unwrap();
    let _handle_second = queue.insert(BasicEvent::new(10)).unwrap();

    assert_eq!(queue.peek_first(), Some(5));
    queue.remove(handle_first);
    assert_eq!(queue.peek_first(), Some(10));
}

#[test]
fn arena_priority_queue_dll_test_remove_tail() {
    let mut queue = ArenaAcPriorityQueueDLL::new();

    let _handle_first = queue.insert(BasicEvent::new(5)).unwrap();
    let handle_last = queue.insert(BasicEvent::new(20)).unwrap();

    assert_eq!(queue.len(), 2);
    queue.remove(handle_last);
    assert_eq!(queue.len(), 1);
    assert_eq!(queue.pop_first().map(|e| e.get_time()), Some(5));
}

#[test]
fn arena_priority_queue_dll_test_clear() {
    let mut queue = ArenaAcPriorityQueueDLL::new();

    queue.insert(BasicEvent::new(10)).unwrap();
    queue.insert(BasicEvent::new(20)).unwrap();

    assert_eq!(queue.len(), 2);
    queue.clear();
    assert_eq!(queue.len(), 0);
    assert!(queue.is_empty());
}

#[test]
fn arena_priority_queue_dll_test_insertion_order_preserved() {
    let mut queue = ArenaAcPriorityQueueDLL::new();

    let _h1 = queue.insert(BasicEvent::new(30)).unwrap();
    let _h2 = queue.insert(BasicEvent::new(10)).unwrap();
    let _h3 = queue.insert(BasicEvent::new(20)).unwrap();
    let _h4 = queue.insert(BasicEvent::new(15)).unwrap();

    assert_eq!(queue.pop_first().map(|e| e.get_time()), Some(10));
    assert_eq!(queue.pop_first().map(|e| e.get_time()), Some(15));
    assert_eq!(queue.pop_first().map(|e| e.get_time()), Some(20));
    assert_eq!(queue.pop_first().map(|e| e.get_time()), Some(30));
}

#[test]
fn test_arena_reuse() {
    let mut queue = ArenaAcPriorityQueueDLL::with_capacity(10);

    let h1 = queue.insert(BasicEvent::new(5)).unwrap();
    let h2 = queue.insert(BasicEvent::new(10)).unwrap();
    let h3 = queue.insert(BasicEvent::new(15)).unwrap();

    queue.remove(h2);
    queue.remove(h1);

    let _h4 = queue.insert(BasicEvent::new(7)).unwrap();
    queue.remove(h3);
    let _h5 = queue.insert(BasicEvent::new(12)).unwrap();

    assert_eq!(queue.pop_first().map(|e| e.get_time()), Some(7));
    assert_eq!(queue.pop_first().map(|e| e.get_time()), Some(12));
    assert!(queue.pop_first().is_none());
}

#[test]
fn test_extract_order_sporadic() {
    let mut queue = ArenaAcPriorityQueueDLL::with_capacity(100);

    // Insert 10 events with the same initial time
    for i in 0..10 {
        let event = SporadicEvent::new(0, Uniform::new(1, 1000, i as u64));
        queue.insert(event).unwrap();
    }

    // Pop all events and verify they come out in order
    let mut prev_time = i64::MIN;
    for _ in 0..10 {
        let event = queue.pop_first().expect("should have events");
        let time = event.get_time();
        assert!(time >= prev_time, "Event time {} should be >= previous {}", time, prev_time);
        prev_time = time;
    }
}

#[test]
fn test_multiple_reschedules_order() {
    let mut queue = ArenaAcPriorityQueueDLL::with_capacity(100);

    // Create events that will reschedule predictably, all starting at time 100
    queue.insert(SporadicEvent::new(100, Deterministic::new(10))).unwrap();
    queue.insert(SporadicEvent::new(100, Deterministic::new(5))).unwrap();
    queue.insert(SporadicEvent::new(100, Deterministic::new(15))).unwrap();

    // Pop all 3 events with time=100, reschedule each
    for _ in 0..3 {
        let mut e = queue.pop_first().unwrap();
        assert_eq!(e.get_time(), 100, "Should extract time=100 event");
        e.doit(); // time becomes 100 + delta
        queue.insert(e).unwrap();
    }

    // Now queue should have events with times 105, 110, 115
    // Verify they extract in sorted order
    let e1 = queue.pop_first().unwrap();
    assert_eq!(e1.get_time(), 105, "Should extract time=105 event, got {}", e1.get_time());
    let e2 = queue.pop_first().unwrap();
    assert_eq!(e2.get_time(), 110, "Should extract time=110 event, got {}", e2.get_time());
    let e3 = queue.pop_first().unwrap();
    assert_eq!(e3.get_time(), 115, "Should extract time=115 event, got {}", e3.get_time());
}

#[test]
fn test_benchmark_extract_order() {
    let mut queue = ArenaAcPriorityQueueDLL::with_capacity(1000);

    // Simulate the benchmark's population phase: insert, pop, doit, reinsert
    for i in 0..100 {
        let event = SporadicEvent::new(0, Uniform::new(1, 1000, i as u64));
        queue.insert(event).unwrap();
        let mut event = queue.pop_first().unwrap();
        let (_, _) = event.doit();
        queue.insert(event).unwrap();
    }

    // Now run multiple cycles like the benchmark does
    for cycle in 0..5 {
        let mut times = Vec::new();

        // Pop all events and record times
        while let Some(event) = queue.pop_first() {
            times.push(event.get_time());
        }

        // Verify all times are in sorted order
        for i in 1..times.len() {
            assert!(times[i] >= times[i - 1],
                "Cycle {}: Events not in order! {} > {}",
                cycle, times[i], times[i - 1]);
        }

        // Re-insert all events after doit
        for _ in 0..times.len() {
            let mut event = SporadicEvent::new(0, Uniform::new(1, 1000, 42));
            // Just use consistent times for this test
            event.set_time(times[0]);
            queue.insert(event).unwrap();
        }
    }
}

// The handle of a removed node is the next handle given out: its slot is reused.
#[test]
fn arena_freed_slot_is_reused() {
    let mut queue = ArenaAcPriorityQueueDLL::with_capacity(2);
    let a = queue.insert(BasicEvent::new(1)).unwrap();
    assert_eq!(a, 1);
    let b = queue.insert(BasicEvent::new(2)).unwrap();
    assert_eq!(b, 0);
    let c = queue.insert(BasicEvent::new(3)).unwrap();
    assert_eq!(c, 2);
    queue.remove(b);
    let d = queue.insert(BasicEvent::new(4)).unwrap();
    assert_eq!(d, b);
}

// An event goes before the events already queued at the same time.
#[test]
fn arena_equal_times_newest_first() {
    let mut queue = ArenaAcPriorityQueueDLL::new();
    let first = BasicEvent::new(10);
    let first_id = first.get_id();
    let second = BasicEvent::new(10);
    let second_id = second.get_id();
    queue.insert(first).unwrap();
    queue.insert(second).unwrap();
    assert_eq!(queue.pop_first().map(|e| e.get_id()), Some(second_id));
    assert_eq!(queue.pop_first().map(|e| e.get_id()), Some(first_id));
}

// Removing the node just inserted gives back the queue as it was.
#[test]
fn arena_remove_undoes_insert() {
    let mut queue = ArenaAcPriorityQueueDLL::new();
    queue.insert(BasicEvent::new(3)).unwrap();
    queue.insert(BasicEvent::new(9)).unwrap();
    let h = queue.insert(BasicEvent::new(5)).unwrap();
    queue.remove(h);
    assert_eq!(queue.debug_all_times(), vec![3, 9]);
}

#[test]
fn arena_debug_all_times_in_order() {
    let mut queue = ArenaAcPriorityQueueDLL::with_capacity(0);
    for t in [8, 3, 5, 3, 0] {
        queue.insert(BasicEvent::new(t)).unwrap();
    }
    assert_eq!(queue.debug_all_times(), vec![0, 3, 3, 5, 8]);
    assert_eq!(queue.insert(BasicEvent::new(-4)), Err("Event time cannot be negative".to_string()));
}
