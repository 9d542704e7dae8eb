use vstd::prelude::*;
use crate::base::sim_time::{SimTime, saturating_time_add, saturating_time_add_spec};
use crate::base::priority_queue::Event;
use crate::base::event::fresh_event_id;

verus! {

/// Event that, when it fires, creates a copy of itself one period later.
#[derive(Debug, Clone)]
pub struct PeriodicEvent {
    pub time: SimTime,
    pub period: SimTime,
    id: u64,
}

impl PeriodicEvent {
    /// The delay between two firings.
    pub closed spec fn period(&self) -> SimTime {
        self.period
    }

    /// A periodic event first firing at `time`, with a freshly drawn identifier.
    pub fn new(time: SimTime, period: SimTime) -> (r: Self)
        ensures
            r.time() == time,
            r.period() == period,
    {
        let id = fresh_event_id();
        PeriodicEvent { time, period, id }
    }
}

impl Event for PeriodicEvent {
    closed spec fn time(&self) -> SimTime {
        self.time
    }

    closed spec fn id(&self) -> u64 {
        self.id
    }

    /// Firing drops the event and creates one copy of it one period later.
    closed spec fn fired(&self, after: Self, done: bool, follow_ups: Seq<Self>) -> bool {
        &&& done
        &&& after == *self
        &&& follow_ups.len() == 1
        &&& follow_ups[0].time == saturating_time_add_spec(self.time, self.period)
        &&& follow_ups[0].period == self.period
    }

    fn get_time(&self) -> (t: SimTime) {
        self.time
    }

    fn set_time(&mut self, time: SimTime) {
        self.time = time;
    }

    fn get_id(&self) -> (i: u64) {
        self.id
    }

    fn set_id(&mut self, id: u64) {
        self.id = id;
    }

    /// Fires the event: it is done, and its one follow-up fires one period
    /// later (the time is clamped to the range of `SimTime`).
    fn doit(&mut self) -> (r: (bool, Vec<Self>))
        ensures
            r.0,
            r.1@.len() == 1,
            r.1@[0].time() == saturating_time_add_spec(old(self).time(), old(self).period()),
            r.1@[0].period() == old(self).period(),
            *final(self) == *old(self),
    {
        let next = PeriodicEvent::new(saturating_time_add(self.time, self.period), self.period);
        let mut follow_ups = Vec::new();
        follow_ups.push(next);
        (true, follow_ups)
    }
}

} // verus!
