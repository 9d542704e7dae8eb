use vstd::prelude::*;
use crate::base::sim_time::{SimTime, saturating_time_add, saturating_time_add_spec};
use crate::base::priority_queue::Event;
use crate::base::random_variable::RandomVariable;
use crate::base::event::fresh_event_id;

verus! {

/// Event that reschedules itself, moving its time forward by a value sampled
/// from a random variable.
#[derive(Debug, Clone)]
pub struct SporadicEvent<R> {
    pub time: SimTime,
    pub random_var: R,
    id: u64,
}

impl<R: RandomVariable> SporadicEvent<R> {
    /// The random variable from which the delays are sampled.
    pub closed spec fn random_variable(&self) -> R {
        self.random_var
    }

    /// A sporadic event first firing at `time`, with a freshly drawn identifier.
    pub fn new(time: SimTime, random_var: R) -> (r: Self)
        ensures
            r.time() == time,
            r.random_variable() == random_var,
    {
        let id = fresh_event_id();
        SporadicEvent { time, random_var, id }
    }
}

impl<R: RandomVariable> Event for SporadicEvent<R> {
    closed spec fn time(&self) -> SimTime {
        self.time
    }

    closed spec fn id(&self) -> u64 {
        self.id
    }

    /// Firing keeps the event and moves its time forward by one sample of its
    /// random variable (clamped to the range of `SimTime`); it creates nothing.
    closed spec fn fired(&self, after: Self, done: bool, follow_ups: Seq<Self>) -> bool {
        &&& !done
        &&& follow_ups.len() == 0
        &&& after.id == self.id
        &&& exists|d: SimTime|
            #[trigger] self.random_var.sampled(after.random_var, d) && after.time
                == saturating_time_add_spec(self.time, d)
    }

    fn get_time(&self) -> (t: SimTime) {
        self.time
    }

    fn set_time(&mut self, time: SimTime) {
        self.time = time;
    }

    fn get_id(&self) -> (i: u64) {
        self.id
    }

    fn set_id(&mut self, id: u64) {
        self.id = id;
    }

    /// Fires the event: its time moves forward by one sample of its random
    /// variable (clamped to the range of `SimTime`); it is to be kept, and it
    /// creates no follow-up.
    fn doit(&mut self) -> (r: (bool, Vec<Self>))
        ensures
            !r.0,
            r.1@ == Seq::<Self>::empty(),
            final(self).id() == old(self).id(),
            exists|delta: SimTime|
                #[trigger] old(self).random_variable().sampled(final(self).random_variable(), delta)
                    && final(self).time() == saturating_time_add_spec(old(self).time(), delta),
    {
        let delta = self.random_var.sample();
        self.time = saturating_time_add(self.time, delta);
        assert(old(self).random_variable().sampled(self.random_variable(), delta));
        (false, Vec::new())
    }
}

} // verus!
