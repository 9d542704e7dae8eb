use rtilience_sim_rust::base::periodic_event::PeriodicEvent;
use rtilience_sim_rust::base::priority_queue::Event;

#[test]
fn test_periodic_event_creation() {
    let event = PeriodicEvent::new(0, 10);
    assert_eq!(event.get_time(), 0);
    assert_eq!(event.period, 10);
}

#[test]
fn test_periodic_event_reschedules() {
    let mut event = PeriodicEvent::new(10, 5);
    let (_, follow_ups) = event.doit();

    assert_eq!(follow_ups.len(), 1);
    assert_eq!(follow_ups[0].get_time(), 15);
}

#[test]
fn test_periodic_event_multiple_periods() {
    let mut times = vec![];
    let mut event = PeriodicEvent::new(0, 10);

    times.push(event.get_time());
    for _ in 0..6 {
        let (_, follow_ups) = event.doit();
        event = follow_ups.into_iter().next().unwrap();
        times.push(event.get_time());
    }

    assert_eq!(times, vec![0, 10, 20, 30, 40, 50, 60]);
}

// The follow-up keeps the period, and the fired event is done.
#[test]
fn periodic_event_follow_up_keeps_period() {
    let mut event = PeriodicEvent::new(3, 4);
    let (should_delete, follow_ups) = event.doit();
    assert!(should_delete);
    assert_eq!(follow_ups[0].period, 4);
    assert_eq!(event.get_time(), 3);
}

// A follow-up beyond the range of the time type is clamped to its bound.
#[test]
fn periodic_event_follow_up_time_saturates() {
    let mut event = PeriodicEvent::new(i64::MAX - 1, 10);
    let (_, follow_ups) = event.doit();
    assert_eq!(follow_ups[0].get_time(), i64::MAX);

    let mut back = PeriodicEvent::new(i64::MIN + 1, -10);
    let (_, follow_ups) = back.doit();
    assert_eq!(follow_ups[0].get_time(), i64::MIN);
}
