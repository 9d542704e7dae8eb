use rtilience_sim_rust::base::random_variable::Deterministic;
use rtilience_sim_rust::base::priority_queue::Event;
use rtilience_sim_rust::base::random_variable::RandomVariable;
use rtilience_sim_rust::base::sporadic_event::SporadicEvent;

/// A random variable that always gives the same delay.
#[derive(Debug, Clone)]
struct FixedRandomVar {
    value: i64,
}

impl FixedRandomVar {
    fn new(value: i64) -> Self {
        FixedRandomVar { value }
    }
}

impl RandomVariable for FixedRandomVar {
    fn sample(&mut self) -> i64 {
        self.value
    }

    fn describe(&self) -> String {
        format!("Fixed({})", self.value)
    }
}

#[test]
fn test_sporadic_event_creation() {
    let event = SporadicEvent::new(0, FixedRandomVar::new(5));
    assert_eq!(event.get_time(), 0);
}

#[test]
fn test_sporadic_event_reschedules() {
    let mut event = SporadicEvent::new(10, FixedRandomVar::new(5));
    let (should_delete, follow_ups) = event.doit();

    assert!(!should_delete);
    assert_eq!(event.get_time(), 15);
    assert!(follow_ups.is_empty());
}

#[test]
fn test_sporadic_event_multiple_occurrences() {
    let mut times = vec![];
    let mut event = SporadicEvent::new(0, FixedRandomVar::new(7));

    times.push(event.get_time());
    for _ in 0..5 {
        let (should_delete, follow_ups) = event.doit();
        assert!(!should_delete);
        assert!(follow_ups.is_empty());
        times.push(event.get_time());
    }

    assert_eq!(times, vec![0, 7, 14, 21, 28, 35]);
}

// A random variable without bounds reports none.
#[test]
fn sporadic_random_var_default_bounds() {
    let rv = FixedRandomVar::new(3);
    assert_eq!(rv.min(), None);
    assert_eq!(rv.max(), None);
    assert_eq!(rv.describe(), "Fixed(3)");
}

// A delay that would take the time past its range is clamped.
#[test]
fn sporadic_event_time_saturates() {
    let mut event = SporadicEvent::new(i64::MAX - 2, FixedRandomVar::new(5));
    let id = event.get_id();
    event.doit();
    assert_eq!(event.get_time(), i64::MAX);
    assert_eq!(event.get_id(), id);
}

// The delay is the sample of the random variable: a deterministic one moves
// the event by its value each time.
#[test]
fn sporadic_event_moves_by_sample() {
    let mut event = SporadicEvent::new(10, Deterministic::new(5));
    let (should_delete, follow_ups) = event.doit();
    assert!(!should_delete);
    assert!(follow_ups.is_empty());
    assert_eq!(event.get_time(), 15);
    event.doit();
    assert_eq!(event.get_time(), 20);
}
