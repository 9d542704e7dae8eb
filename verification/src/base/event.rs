use vstd::prelude::*;
use crate::base::sim_time::SimTime;
use crate::base::priority_queue::Event;

verus! {

/// Draws an identifier for a newly created event from `rand::random`, which
/// samples `rand`'s thread-local generator. The value rests on chance: nothing
/// is stated of it.
#[verifier::external_body]
pub(crate) fn fresh_event_id() -> u64 {
    rand::random::<u64>()
}

/// Base event type for simulation: it fires once and creates nothing.
#[derive(Debug, Clone)]
pub struct BasicEvent {
    pub time: SimTime,
    id: u64,
}

impl BasicEvent {
    /// A basic event at `time`, with a freshly drawn identifier.
    pub fn new(time: SimTime) -> (r: Self)
        ensures
            r.time() == time,
    {
        let id = fresh_event_id();
        BasicEvent { time, id }
    }
}

impl Event for BasicEvent {
    closed spec fn time(&self) -> SimTime {
        self.time
    }

    closed spec fn id(&self) -> u64 {
        self.id
    }

    /// Firing drops the event, creates nothing and changes nothing.
    closed spec fn fired(&self, after: Self, done: bool, follow_ups: Seq<Self>) -> bool {
        done && follow_ups.len() == 0 && after == *self
    }

    fn get_time(&self) -> (t: SimTime) {
        self.time
    }

    fn set_time(&mut self, time: SimTime) {
        self.time = time;
    }

    fn get_id(&self) -> (i: u64) {
        self.id
    }

    fn set_id(&mut self, id: u64) {
        self.id = id;
    }

    /// Fires the event: it is done, and it creates no follow-up.
    fn doit(&mut self) -> (r: (bool, Vec<Self>))
        ensures
            r.0,
            r.1@ == Seq::<Self>::empty(),
            *final(self) == *old(self),
    {
        (true, Vec::new())
    }
}

} // verus!
