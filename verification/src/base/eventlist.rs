use vstd::prelude::*;
use crate::base::sim_time::{SimTime, decimal, time_text};
use vstd::string::StringExecFns;
use crate::base::priority_queue::{Event, PriorityQueue, negative_time_text, upper_bound, sorted_by_time};

verus! {

/// The message of the error that rejects an event after the last time.
pub open spec fn exceeds_text(time: SimTime, last_time: SimTime) -> Seq<char> {
    "Event time "@ + decimal(time as int) + " exceeds last_time "@ + decimal(last_time as int)
}

/// The error that rejects an event at `time` when the list stops at `last_time`.
fn exceeds_message(time: SimTime, last_time: SimTime) -> (r: String)
    ensures
        r@ == exceeds_text(time, last_time),
{
    let mut message = String::from_str("Event time ");
    message.append(time_text(time).as_str());
    message.append(" exceeds last_time ");
    message.append(time_text(last_time).as_str());
    message
}

/// The queue `q` once `x` is scheduled in it: `x` goes after every queued
/// event at its time when the queue has room and its time lies in
/// [0, last_time]; otherwise the queue stays as it is.
pub open spec fn scheduled_one<E: Event>(q: Seq<E>, x: E, last_time: SimTime) -> Seq<E> {
    if q.len() < usize::MAX && 0 <= x.time() <= last_time {
        q.insert(upper_bound(q, x.time()) as int, x)
    } else {
        q
    }
}

/// The queue `q` once the events of `xs` are scheduled in it, one after the other.
pub open spec fn scheduled_all<E: Event>(q: Seq<E>, xs: Seq<E>, last_time: SimTime) -> Seq<E>
    decreases xs.len(),
{
    if xs.len() == 0 {
        q
    } else {
        scheduled_one(scheduled_all(q, xs.drop_last(), last_time), xs.last(), last_time)
    }
}

/// The events that a step schedules, in order: the fired event when it is
/// kept, then its follow-ups.
pub open spec fn candidates<E: Event>(fired: E, done: bool, follow_ups: Seq<E>) -> Seq<E> {
    if done {
        follow_ups
    } else {
        seq![fired] + follow_ups
    }
}

/// One step of a run: the first event of `before` is taken out and fired,
/// which turns it into `fired` and gives `done` and `follow_ups`; then the
/// fired event when it is kept, and each follow-up in turn, are scheduled in
/// the rest of the queue, which gives `after`.
pub open spec fn fires_into<E: Event>(before: Seq<E>, after: Seq<E>, last_time: SimTime) -> bool {
    &&& before.len() > 0
    &&& exists|fired: E, done: bool, follow_ups: Seq<E>|
        #[trigger] before[0].fired(fired, done, follow_ups) && after == scheduled_all(
            before.drop_first(),
            candidates(fired, done, follow_ups),
            last_time,
        )
}

/// The events that a list with last time `last_time` takes: those whose time
/// lies in [0, last_time].
pub open spec fn within(last_time: SimTime) -> spec_fn(SimTime) -> bool {
    |t: SimTime| 0 <= t && t <= last_time
}

/// Scheduling events one after the other keeps what was queued, and, while
/// the queue stays below `usize::MAX` events, queues exactly the events whose
/// time lies in [0, last_time].
proof fn lemma_scheduled_all_keeps<E: Event>(q: Seq<E>, xs: Seq<E>, last_time: SimTime)
    ensures
        scheduled_all(q, xs, last_time).len() >= q.len(),
        forall|j: int| 0 <= j < q.len() ==> scheduled_all(q, xs, last_time).contains(#[trigger] q[j]),
        scheduled_all(q, xs, last_time).len() < usize::MAX ==> {
            &&& scheduled_all(q, xs, last_time).len() == q.len() + xs.filter(
                |x: E| within(last_time)(x.time()),
            ).len()
            &&& forall|i: int|
                0 <= i < xs.len() && 0 <= xs[i].time() <= last_time ==> scheduled_all(
                    q,
                    xs,
                    last_time,
                ).contains(#[trigger] xs[i])
        },
    decreases xs.len(),
{
    if xs.len() > 0 {
        let pre = xs.drop_last();
        let x = xs.last();
        lemma_scheduled_all_keeps(q, pre, last_time);
        let s = scheduled_all(q, pre, last_time);
        let t = scheduled_all(q, xs, last_time);
        let keep = |y: E| within(last_time)(y.time());
        reveal(Seq::filter);
        assert(t == scheduled_one(s, x, last_time));
        assert(xs.filter(keep) == if keep(x) {
            pre.filter(keep).push(x)
        } else {
            pre.filter(keep)
        });
        if s.len() < usize::MAX && 0 <= x.time() <= last_time {
            let k = upper_bound(s, x.time()) as int;
            crate::base::priority_queue::lemma_upper_bound_len(s, x.time());
            assert(t == s.insert(k, x));
            assert(t[k] == x);
            assert forall|y: E| #[trigger] s.contains(y) implies t.contains(y) by {
                let w = choose|w: int| 0 <= w < s.len() && s[w] == y;
                if w < k {
                    assert(t[w] == y);
                } else {
                    assert(t[w + 1] == y);
                }
            }
            assert forall|j: int| 0 <= j < q.len() implies t.contains(#[trigger] q[j]) by {
                assert(s.contains(q[j]));
            }
            if t.len() < usize::MAX {
                assert forall|i: int|
                    0 <= i < xs.len() && 0 <= xs[i].time() <= last_time implies t.contains(
                    #[trigger] xs[i]) by {
                    if i < pre.len() {
                        assert(pre[i] == xs[i]);
                        assert(s.contains(pre[i]));
                    }
                }
            }
        } else {
            assert(t == s);
            if t.len() < usize::MAX {
                assert forall|i: int|
                    0 <= i < xs.len() && 0 <= xs[i].time() <= last_time implies t.contains(
                    #[trigger] xs[i]) by {
                    assert(i < pre.len());
                    assert(pre[i] == xs[i]);
                }
            }
        }
    }
}

/// A step of a run fires the first event and schedules what firing it gave:
/// while the list stays below `usize::MAX` events, the list after the step
/// holds the other events of the list before it, the fired event when it is
/// kept and every follow-up, each when its time lies in [0, last_time], and
/// no more events than those.
pub proof fn law_step_schedules_what_firing_gave<E: Event>(
    before: Seq<E>,
    after: Seq<E>,
    last_time: SimTime,
)
    requires
        fires_into(before, after, last_time),
        after.len() < usize::MAX,
    ensures
        exists|fired: E, done: bool, follow_ups: Seq<E>|
            #[trigger] before[0].fired(fired, done, follow_ups) && {
                &&& forall|j: int| 1 <= j < before.len() ==> after.contains(#[trigger] before[j])
                &&& !done && 0 <= fired.time() <= last_time ==> after.contains(fired)
                &&& forall|i: int|
                    0 <= i < follow_ups.len() && 0 <= follow_ups[i].time() <= last_time
                        ==> after.contains(#[trigger] follow_ups[i])
                &&& after.len() == before.len() - 1 + follow_ups.filter(
                    |x: E| within(last_time)(x.time()),
                ).len() + (if !done && 0 <= fired.time() <= last_time {
                    1int
                } else {
                    0int
                })
            },
{
    broadcast use vstd::seq_lib::group_filter_ensures;
    let (fired, done, follow_ups) = choose|fired: E, done: bool, follow_ups: Seq<E>|
        #[trigger] before[0].fired(fired, done, follow_ups) && after == scheduled_all(
            before.drop_first(),
            candidates(fired, done, follow_ups),
            last_time,
        );
    let rest = before.drop_first();
    let xs = candidates(fired, done, follow_ups);
    let keep = |x: E| within(last_time)(x.time());
    lemma_scheduled_all_keeps(rest, xs, last_time);
    assert forall|j: int| 1 <= j < before.len() implies after.contains(#[trigger] before[j]) by {
        assert(rest[j - 1] == before[j]);
    }
    if done {
        assert(xs == follow_ups);
    } else {
        assert(xs == seq![fired] + follow_ups);
        assert(xs[0] == fired);
        assert forall|i: int|
            0 <= i < follow_ups.len() && 0 <= follow_ups[i].time() <= last_time implies after.contains(
            #[trigger] follow_ups[i]) by {
            assert(xs[i + 1] == follow_ups[i]);
        }
        Seq::filter_distributes_over_add(seq![fired], follow_ups, keep);
        assert(seq![fired].drop_last() =~= Seq::<E>::empty());
        reveal_with_fuel(Seq::filter, 2);
        assert(seq![fired].filter(keep).len() == if keep(fired) {
            1int
        } else {
            0int
        });
    }
}

/// `trace` lists the queues of a run, one step apart.
pub open spec fn is_run<E: Event>(trace: Seq<Seq<E>>, last_time: SimTime) -> bool {
    &&& trace.len() >= 1
    &&& forall|i: int|
        #![trigger trace[i]]
        0 <= i < trace.len() - 1 ==> fires_into(trace[i], trace[i + 1], last_time)
}

/// Scheduling one more event extends the events scheduled so far.
proof fn lemma_scheduled_push<E: Event>(q: Seq<E>, xs: Seq<E>, x: E, last_time: SimTime)
    ensures
        scheduled_all(q, xs.push(x), last_time) == scheduled_one(
            scheduled_all(q, xs, last_time),
            x,
            last_time,
        ),
{
    assert(xs.push(x).drop_last() =~= xs);
}

/// Event list that manages simulation events: it embeds a PriorityQueue and
/// adds event execution, and it refuses events after its last time.
pub struct EventList<E> {
    pub queue: PriorityQueue<E>,
    last_time: SimTime,
}

impl<E: Event> EventList<E> {
    /// The queued events, in extraction order.
    pub closed spec fn view(&self) -> Seq<E> {
        self.queue@
    }

    /// The max time for events: events after it are refused.
    pub closed spec fn last_time(&self) -> SimTime {
        self.last_time
    }

    pub closed spec fn wf(&self) -> bool {
        self.queue.wf()
    }

    /// In a well-formed list the events are sorted by time: they are fired in
    /// time order.
    pub proof fn lemma_sorted(&self)
        requires
            self.wf(),
        ensures
            sorted_by_time(self@),
    {
        self.queue.lemma_sorted();
    }

    /// An empty list that accepts any time.
    pub fn new() -> (r: Self)
        ensures
            r.wf(),
            r@ == Seq::<E>::empty(),
            r.last_time() == SimTime::MAX,
    {
        EventList { queue: PriorityQueue::new(), last_time: SimTime::MAX }
    }

    /// Set max time for events in list
    pub fn set_last_time(&mut self, time: SimTime)
        requires
            old(self).wf(),
        ensures
            final(self).wf(),
            final(self)@ == old(self)@,
            final(self).last_time() == time,
    {
        self.last_time = time;
    }

    /// Inserts an event in list; an event after the last time, or at a
    /// negative time, is refused with an error.
    pub fn insert(&mut self, entity: E) -> (r: Result<(), String>)
        requires
            old(self).wf(),
            old(self)@.len() < usize::MAX,
        ensures
            final(self).wf(),
            final(self).last_time() == old(self).last_time(),
            entity.time() > old(self).last_time() ==> {
                &&& r is Err
                &&& r->Err_0@ == exceeds_text(entity.time(), old(self).last_time())
                &&& final(self)@ == old(self)@
            },
            entity.time() <= old(self).last_time() && entity.time() < 0 ==> {
                &&& r is Err
                &&& r->Err_0@ == negative_time_text()
                &&& final(self)@ == old(self)@
            },
            0 <= entity.time() <= old(self).last_time() ==> {
                &&& r is Ok
                &&& final(self)@ == old(self)@.insert(
                    upper_bound(old(self)@, entity.time()) as int,
                    entity,
                )
            },
    {
        let time = entity.get_time();
        if time > self.last_time {
            return Err(exceeds_message(time, self.last_time));
        }
        self.queue.insert(entity)
    }

    /// Inserts an event when the list can hold one more; what comes of it is
    /// not reported. The event is queued exactly when the list had room and
    /// its time lies in [0, last_time]; otherwise the list stays as it was.
    fn schedule(&mut self, entity: E)
        requires
            old(self).wf(),
        ensures
            final(self).wf(),
            final(self).last_time() == old(self).last_time(),
            final(self)@ == scheduled_one(old(self)@, entity, old(self).last_time()),
    {
        if self.queue.len() < usize::MAX {
            let _ = self.insert(entity);
        }
    }

    /// Runs a simulation until the condition says to stop or until the events
    /// are finished: extract the first event, fire it, schedule it again when
    /// it asks to be kept, schedule the events it created, then ask the
    /// condition whether to go on. Events refused by the list are dropped. The
    /// run also stops after `u64::MAX` events, the range of its step counter.
    ///
    /// The run is described by the queues it went through (`is_run`): from
    /// the list as it was to the list as it is left, each step fires the
    /// first event and schedules what firing it gave. The condition is asked
    /// once after each step; it said to go on after every step but maybe the
    /// last, and the run ended on an empty list, on the condition saying to
    /// stop, or after `u64::MAX` steps.
    pub fn run_conditionally<F: FnMut() -> bool>(&mut self, mut condition: F)
        requires
            old(self).wf(),
            call_requires(condition, ()),
        ensures
            final(self).wf(),
            final(self).last_time() == old(self).last_time(),
            old(self)@.len() == 0 ==> final(self)@ == old(self)@,
            exists|trace: Seq<Seq<E>>|
                {
                    &&& #[trigger] is_run(trace, old(self).last_time())
                    &&& trace[0] == old(self)@
                    &&& trace.last() == final(self)@
                    &&& trace.len() >= 3 ==> call_ensures(condition, (), true)
                    &&& final(self)@.len() == 0 || (trace.len() >= 2 && call_ensures(
                        condition,
                        (),
                        false,
                    )) || trace.len() == u64::MAX as int + 1
                },
    {
        let ghost last = self.last_time;
        let ghost cond0 = condition;
        let ghost mut trace: Seq<Seq<E>> = seq![self@];
        let mut steps: u64 = 0;
        loop
            invariant_except_break
                trace.len() >= 2 ==> call_ensures(condition, (), true),
            invariant
                self.wf(),
                self.last_time() == old(self).last_time(),
                last == old(self).last_time(),
                call_requires(condition, ()),
                old(self)@.len() == 0 ==> self@ == old(self)@,
                is_run(trace, last),
                trace[0] == old(self)@,
                trace.last() == self@,
                trace.len() == steps + 1,
                condition == cond0,
            ensures
                condition == cond0,
                self.wf(),
                self.last_time() == old(self).last_time(),
                old(self)@.len() == 0 ==> self@ == old(self)@,
                is_run(trace, last),
                trace[0] == old(self)@,
                trace.last() == self@,
                trace.len() >= 3 ==> call_ensures(condition, (), true),
                self@.len() == 0 || (trace.len() >= 2 && call_ensures(condition, (), false))
                    || trace.len() == u64::MAX as int + 1,
            decreases u64::MAX - steps,
        {
            if steps == u64::MAX {
                break;
            }
            let ghost before = self@;
            // Pop first event from queue, if queue is empty, break
            let mut event = match self.queue.pop_first() {
                Some(e) => e,
                None => break,
            };
            let ghost rest = self@;
            let ghost mut cands: Seq<E> = Seq::empty();
            // Event processing happens: it says whether it is done, and gives
            // the new events to insert
            let (should_delete, follow_ups) = event.doit();
            let ghost fired = event;
            let ghost follow = follow_ups@;
            if !should_delete {
                let ghost pre = self@;
                self.schedule(event);
                proof {
                    lemma_scheduled_push(rest, cands, fired, last);
                    cands = cands.push(fired);
                }
            }
            let ghost base = cands;
            for follow_up in it: follow_ups
                invariant
                    self.wf(),
                    self.last_time() == old(self).last_time(),
                    last == old(self).last_time(),
                    it.seq() == follow,
                    cands == base + it.seq().take(it.index() as int),
                    self@ == scheduled_all(rest, cands, last),
            {
                let ghost x = follow_up;
                self.schedule(follow_up);
                proof {
                    lemma_scheduled_push(rest, cands, x, last);
                    assert(it.seq().take(it.index() + 1) =~= it.seq().take(it.index() as int).push(x));
                    cands = cands.push(x);
                    assert(cands =~= base + it.seq().take(it.index() + 1));
                }
            }
            proof {
                assert(follow.take(follow.len() as int) =~= follow);
                if should_delete {
                    assert(cands =~= candidates(fired, should_delete, follow));
                } else {
                    assert(cands =~= candidates(fired, should_delete, follow));
                }
                assert(before[0].fired(fired, should_delete, follow));
                assert(before.drop_first() == rest);
                assert(fires_into(before, self@, last));
                let t2 = trace.push(self@);
                assert forall|i: int| #![trigger t2[i]] 0 <= i < t2.len() - 1 implies fires_into(
                    t2[i],
                    t2[i + 1],
                    last,
                ) by {
                    if i < trace.len() - 1 {
                        assert(t2[i] == trace[i]);
                        assert(t2[i + 1] == trace[i + 1]);
                        assert(fires_into(trace[i], trace[i + 1], last));
                    }
                }
                trace = t2;
            }
            steps = steps + 1;
            // Check custom condition to continue
            if !condition() {
                break;
            }
        }
        proof {
            assert(is_run(trace, last));
        }
    }

    /// Runs simulation until no more events after `end_time`: the last time
    /// becomes `end_time`, and the run goes on until the list is empty (or
    /// after `u64::MAX` steps).
    pub fn run(&mut self, end_time: SimTime)
        requires
            old(self).wf(),
        ensures
            final(self).wf(),
            final(self).last_time() == end_time,
            old(self)@.len() == 0 ==> final(self)@ == old(self)@,
            exists|trace: Seq<Seq<E>>|
                {
                    &&& #[trigger] is_run(trace, end_time)
                    &&& trace[0] == old(self)@
                    &&& trace.last() == final(self)@
                    &&& final(self)@.len() == 0 || trace.len() == u64::MAX as int + 1
                },
    {
        self.last_time = end_time;
        let always = || -> (r: bool)
            ensures
                r,
            { true };
        self.run_conditionally(always);
    }

    /// Check if queue is empty
    pub fn is_empty(&self) -> (r: bool)
        requires
            self.wf(),
        ensures
            r == (self@.len() == 0),
    {
        self.queue.is_empty()
    }

    /// Peek at next event time
    pub fn peek_first(&self) -> (r: Option<SimTime>)
        requires
            self.wf(),
        ensures
            r == if self@.len() == 0 {
                None
            } else {
                Some(self@[0].time())
            },
    {
        self.queue.peek_first()
    }

    /// Number of events in queue
    pub fn len(&self) -> (r: usize)
        requires
            self.wf(),
        ensures
            r == self@.len(),
    {
        self.queue.len()
    }

    /// Clear all events
    pub fn clear(&mut self)
        requires
            old(self).wf(),
        ensures
            final(self).wf(),
            final(self)@ == Seq::<E>::empty(),
            final(self).last_time() == old(self).last_time(),
    {
        self.queue.clear();
    }
}

} // verus!
