use vstd::prelude::*;
use std::collections::BTreeMap;
use vstd::std_specs::iter::IteratorSpec;
use vstd::std_specs::cmp::OrdSpec;
use crate::base::sim_time::SimTime;

verus! {

/// An event of the simulation: it fires at a time, carries an identifier, and
/// when it fires (`doit`) it may ask to be deleted and may create follow-up events.
///
/// The queues only read an event through `get_time` and `get_id`; what they
/// promise is stated over `time` and `id`, which every implementation ties to
/// those two getters.
pub trait Event: Sized {
    /// The time at which the event fires.
    spec fn time(&self) -> SimTime;

    /// The identifier of the event.
    spec fn id(&self) -> u64;

    fn get_time(&self) -> (t: SimTime)
        ensures
            t == self.time(),
    ;

    fn set_time(&mut self, time: SimTime)
        ensures
            final(self).time() == time,
            final(self).id() == old(self).id(),
    ;

    fn get_id(&self) -> (i: u64)
        ensures
            i == self.id(),
    ;

    fn set_id(&mut self, id: u64)
        ensures
            final(self).id() == id,
            final(self).time() == old(self).time(),
    ;

    /// What firing an event does: `after` is the event once fired, `done` says
    /// whether it is then dropped, and `follow_ups` are the events it created,
    /// in order.
    spec fn fired(&self, after: Self, done: bool, follow_ups: Seq<Self>) -> bool;

    /// Fires the event. The first component says whether the event is done and
    /// should be dropped (`true`) or should be scheduled again at its possibly
    /// updated time (`false`); the second holds the follow-up events it created.
    fn doit(&mut self) -> (r: (bool, Vec<Self>))
        ensures
            old(self).fired(*final(self), r.0, r.1@),
    ;
}

// Priority queue using BTreeMap: the first key is found in O(log n), and a
// key is accessed and removed in O(log n). Since several events may share a
// time, each key holds a vector of events, in insertion order.
pub struct PriorityQueue<E> {
    items: BTreeMap<SimTime, Vec<E>>,
    total_count: usize,
    /// The queued events in extraction order: by time, then by insertion.
    order: Ghost<Seq<E>>,
}

/// The next item of an iterator.
fn next_item<I: Iterator>(it: &mut I) -> (r: Option<I::Item>)
    ensures
        IteratorSpec::obeys_prophetic_iter_laws(&*old(it)) ==> if IteratorSpec::remaining(&*old(it)).len() > 0 {
            r == Some(IteratorSpec::remaining(&*old(it))[0])
        } else {
            r is None
        },
{
    it.next()
}

/// The smallest key of a map of buckets, when the map is not empty.
fn first_key<V>(items: &BTreeMap<SimTime, V>) -> (r: Option<SimTime>)
    ensures
        r is None ==> forall|t: SimTime| !items@.contains_key(t),
        r is Some ==> items@.contains_key(r->0) && forall|t: SimTime|
            #[trigger] items@.contains_key(t) ==> r->0 <= t,
{
    broadcast use vstd::std_specs::btree::group_btree_axioms;
    broadcast use vstd::laws_cmp::group_laws_cmp;
    let mut keys = items.keys();
    let ghost ks = vstd::std_specs::btree::into_iter_keys(keys);
    proof {
        assert(vstd::laws_cmp::obeys_cmp::<SimTime>());
        assert(vstd::laws_cmp::obeys_cmp::<&SimTime>());
        assert(vstd::std_specs::btree::key_obeys_cmp_spec::<SimTime>());
        assert(IteratorSpec::remaining(&keys).unref() == ks);
        assert(ks.to_set() == items@.dom());
        assert(vstd::std_specs::btree::increasing_seq(IteratorSpec::remaining(&keys)));
        vstd::std_specs::btree::axiom_increasing_seq_meaning::<&SimTime>(IteratorSpec::remaining(&keys));
        assert(ks.len() == IteratorSpec::remaining(&keys).len());
        assert forall|i: int, j: int| 0 <= i < j < ks.len() implies ks[i] < ks[j] by {
            assert(OrdSpec::cmp_spec(&IteratorSpec::remaining(&keys)[i], &IteratorSpec::remaining(&keys)[j]) is Less);
            assert(ks[i] == *IteratorSpec::remaining(&keys)[i]);
            assert(ks[j] == *IteratorSpec::remaining(&keys)[j]);
        }
    }
    let first = next_item(&mut keys);
    proof {
        if ks.len() > 0 {
            assert(ks.to_set().contains(ks[0]));
            assert forall|t: SimTime| #[trigger] items@.contains_key(t) implies ks[0] <= t by {
                assert(ks.to_set().contains(t));
                let j = choose|j: int| 0 <= j < ks.len() && ks[j] == t;
            }
        } else {
            assert forall|t: SimTime| !items@.contains_key(t) by {
                if items@.contains_key(t) {
                    assert(ks.to_set().contains(t));
                }
            }
        }
    }
    match first {
        Some(k) => Some(*k),
        None => None,
    }
}

/// The message of the error that rejects an event with a negative time.
pub open spec fn negative_time_text() -> Seq<char> {
    "Event time cannot be negative"@
}

/// The error that rejects an event with a negative time.
pub fn negative_time_message() -> (r: String)
    ensures
        r@ == negative_time_text(),
{
    "Event time cannot be negative".to_string()
}

/// Times of a sequence of events never decrease.
pub open spec fn sorted_by_time<E: Event>(s: Seq<E>) -> bool {
    forall|i: int, j: int| 0 <= i <= j < s.len() ==> #[trigger] s[i].time() <= #[trigger] s[j].time()
}

/// Number of leading events of `s` that fire strictly before `t`: where an
/// event at `t` goes when it must come before every event at the same time.
pub open spec fn lower_bound<E: Event>(s: Seq<E>, t: SimTime) -> nat
    decreases s.len(),
{
    if s.len() == 0 || s[0].time() >= t {
        0
    } else {
        1 + lower_bound(s.drop_first(), t)
    }
}

/// Number of leading events of `s` that fire at or before `t`: where an event
/// at `t` goes when it must come after every event at the same time.
pub open spec fn upper_bound<E: Event>(s: Seq<E>, t: SimTime) -> nat
    decreases s.len(),
{
    if s.len() == 0 || s[0].time() > t {
        0
    } else {
        1 + upper_bound(s.drop_first(), t)
    }
}

/// The times of a sequence of events, in the same order.
pub open spec fn times_of<E: Event>(s: Seq<E>) -> Seq<SimTime> {
    Seq::new(s.len(), |i: int| s[i].time())
}

/// In a sequence whose first `k` events fire before `t` and whose event at `k`
/// (if any) fires at or after `t`, the lower bound of `t` is `k`.
pub proof fn lemma_lower_bound_at<E: Event>(s: Seq<E>, t: SimTime, k: int)
    requires
        0 <= k <= s.len(),
        forall|i: int| 0 <= i < k ==> #[trigger] s[i].time() < t,
        k < s.len() ==> s[k].time() >= t,
    ensures
        lower_bound(s, t) == k,
    decreases k,
{
    if k > 0 {
        assert(s[0].time() < t);
        let r = s.drop_first();
        assert forall|i: int| 0 <= i < k - 1 implies #[trigger] r[i].time() < t by {
            assert(r[i] == s[i + 1]);
        }
        if k - 1 < r.len() {
            assert(r[k - 1] == s[k]);
        }
        lemma_lower_bound_at(r, t, k - 1);
    }
}

/// In a sequence whose first `k` events fire at or before `t` and whose event
/// at `k` (if any) fires after `t`, the upper bound of `t` is `k`.
pub proof fn lemma_upper_bound_at<E: Event>(s: Seq<E>, t: SimTime, k: int)
    requires
        0 <= k <= s.len(),
        forall|i: int| 0 <= i < k ==> #[trigger] s[i].time() <= t,
        k < s.len() ==> s[k].time() > t,
    ensures
        upper_bound(s, t) == k,
    decreases k,
{
    if k > 0 {
        assert(s[0].time() <= t);
        let r = s.drop_first();
        assert forall|i: int| 0 <= i < k - 1 implies #[trigger] r[i].time() <= t by {
            assert(r[i] == s[i + 1]);
        }
        if k - 1 < r.len() {
            assert(r[k - 1] == s[k]);
        }
        lemma_upper_bound_at(r, t, k - 1);
    }
}

/// The lower bound never exceeds the length.
pub proof fn lemma_lower_bound_len<E: Event>(s: Seq<E>, t: SimTime)
    ensures
        lower_bound(s, t) <= s.len(),
    decreases s.len(),
{
    if s.len() > 0 && s[0].time() < t {
        lemma_lower_bound_len(s.drop_first(), t);
    }
}

/// The upper bound never exceeds the length.
pub proof fn lemma_upper_bound_len<E: Event>(s: Seq<E>, t: SimTime)
    ensures
        upper_bound(s, t) <= s.len(),
    decreases s.len(),
{
    if s.len() > 0 && s[0].time() <= t {
        lemma_upper_bound_len(s.drop_first(), t);
    }
}

/// In a sorted sequence, every event before the lower bound of `t` fires before
/// `t`, and every event from it on fires at or after `t`.
pub proof fn lemma_lower_bound_split<E: Event>(s: Seq<E>, t: SimTime)
    requires
        sorted_by_time(s),
    ensures
        lower_bound(s, t) <= s.len(),
        forall|i: int| 0 <= i < lower_bound(s, t) ==> #[trigger] s[i].time() < t,
        forall|i: int| lower_bound(s, t) <= i < s.len() ==> #[trigger] s[i].time() >= t,
    decreases s.len(),
{
    lemma_lower_bound_len(s, t);
    if s.len() > 0 && s[0].time() < t {
        let r = s.drop_first();
        assert(sorted_by_time(r)) by {
            assert forall|i: int, j: int| 0 <= i <= j < r.len() implies #[trigger] r[i].time()
                <= #[trigger] r[j].time() by {
                assert(r[i] == s[i + 1] && r[j] == s[j + 1]);
            }
        }
        lemma_lower_bound_split(r, t);
        assert forall|i: int| 0 <= i < lower_bound(s, t) implies #[trigger] s[i].time() < t by {
            if i > 0 {
                assert(s[i] == r[i - 1]);
            }
        }
        assert forall|i: int| lower_bound(s, t) <= i < s.len() implies #[trigger] s[i].time()
            >= t by {
            assert(s[i] == r[i - 1]);
        }
    } else if s.len() > 0 {
        assert forall|i: int| 0 <= i < s.len() implies #[trigger] s[i].time() >= t by {
            assert(s[0].time() <= s[i].time());
        }
    }
}

/// In a sorted sequence, every event before the upper bound of `t` fires at or
/// before `t`, and every event from it on fires after `t`.
pub proof fn lemma_upper_bound_split<E: Event>(s: Seq<E>, t: SimTime)
    requires
        sorted_by_time(s),
    ensures
        upper_bound(s, t) <= s.len(),
        forall|i: int| 0 <= i < upper_bound(s, t) ==> #[trigger] s[i].time() <= t,
        forall|i: int| upper_bound(s, t) <= i < s.len() ==> #[trigger] s[i].time() > t,
    decreases s.len(),
{
    if s.len() > 0 && s[0].time() <= t {
        let r = s.drop_first();
        assert(sorted_by_time(r)) by {
            assert forall|i: int, j: int| 0 <= i <= j < r.len() implies #[trigger] r[i].time()
                <= #[trigger] r[j].time() by {
                assert(r[i] == s[i + 1] && r[j] == s[j + 1]);
            }
        }
        lemma_upper_bound_split(r, t);
        assert forall|i: int| 0 <= i < upper_bound(s, t) implies #[trigger] s[i].time() <= t by {
            if i > 0 {
                assert(s[i] == r[i - 1]);
            }
        }
        assert forall|i: int| upper_bound(s, t) <= i < s.len() implies #[trigger] s[i].time()
            > t by {
            assert(s[i] == r[i - 1]);
        }
    } else if s.len() > 0 {
        assert forall|i: int| 0 <= i < s.len() implies #[trigger] s[i].time() > t by {
            assert(s[0].time() <= s[i].time());
        }
    }
}

/// Inserting an event at the lower bound of its time keeps a sorted sequence sorted.
pub proof fn lemma_insert_at_lower_bound_sorted<E: Event>(s: Seq<E>, e: E)
    requires
        sorted_by_time(s),
    ensures
        sorted_by_time(s.insert(lower_bound(s, e.time()) as int, e)),
{
    lemma_lower_bound_split(s, e.time());
    let k = lower_bound(s, e.time()) as int;
    let n = s.insert(k, e);
    assert forall|i: int, j: int| 0 <= i <= j < n.len() implies #[trigger] n[i].time()
        <= #[trigger] n[j].time() by {
        if i < k {
            assert(n[i] == s[i]);
        } else if i > k {
            assert(n[i] == s[i - 1]);
        }
        if j < k {
            assert(n[j] == s[j]);
        } else if j > k {
            assert(n[j] == s[j - 1]);
        }
    }
}

/// Removing any event keeps a sorted sequence sorted.
pub proof fn lemma_remove_sorted<E: Event>(s: Seq<E>, k: int)
    requires
        sorted_by_time(s),
        0 <= k < s.len(),
    ensures
        sorted_by_time(s.remove(k)),
{
    let n = s.remove(k);
    assert forall|i: int, j: int| 0 <= i <= j < n.len() implies #[trigger] n[i].time()
        <= #[trigger] n[j].time() by {
        let oi = if i < k { i } else { i + 1 };
        let oj = if j < k { j } else { j + 1 };
        assert(n[i] == s[oi]);
        assert(n[j] == s[oj]);
    }
}

/// Inserting an event at the upper bound of its time keeps a sorted sequence sorted.
pub proof fn lemma_insert_at_upper_bound_sorted<E: Event>(s: Seq<E>, e: E)
    requires
        sorted_by_time(s),
    ensures
        sorted_by_time(s.insert(upper_bound(s, e.time()) as int, e)),
{
    lemma_upper_bound_split(s, e.time());
    let k = upper_bound(s, e.time()) as int;
    let n = s.insert(k, e);
    assert forall|i: int, j: int| 0 <= i <= j < n.len() implies #[trigger] n[i].time()
        <= #[trigger] n[j].time() by {
        if i < k {
            assert(n[i] == s[i]);
        } else if i > k {
            assert(n[i] == s[i - 1]);
        }
        if j < k {
            assert(n[j] == s[j]);
        } else if j > k {
            assert(n[j] == s[j - 1]);
        }
    }
}

/// Where the bounds of any time `u` lie once an event at time `t` has been
/// inserted after every event at `t` of a sorted sequence.
pub proof fn lemma_bounds_after_insert<E: Event>(s: Seq<E>, e: E, u: SimTime)
    requires
        sorted_by_time(s),
    ensures
        ({
            let s2 = s.insert(upper_bound(s, e.time()) as int, e);
            &&& lower_bound(s2, u) == lower_bound(s, u) + if u > e.time() {
                1int
            } else {
                0int
            }
            &&& upper_bound(s2, u) == upper_bound(s, u) + if u >= e.time() {
                1int
            } else {
                0int
            }
        }),
{
    let t = e.time();
    let k = upper_bound(s, t) as int;
    let s2 = s.insert(k, e);
    lemma_upper_bound_split(s, t);
    lemma_lower_bound_split(s, u);
    lemma_upper_bound_split(s, u);
    let lb = lower_bound(s, u) as int;
    let ub = upper_bound(s, u) as int;
    if u > t {
        assert(lb >= k) by {
            if lb < k {
                assert(s[lb].time() <= t);
            }
        }
        assert forall|j: int| 0 <= j < lb + 1 implies #[trigger] s2[j].time() < u by {
            if j < k {
                assert(s2[j] == s[j]);
            } else if j > k {
                assert(s2[j] == s[j - 1]);
            }
        }
        if lb + 1 < s2.len() {
            assert(s2[lb + 1] == s[lb]);
        }
        lemma_lower_bound_at(s2, u, lb + 1);
        assert(ub >= k) by {
            if ub < k {
                assert(s[ub].time() <= t);
            }
        }
        assert forall|j: int| 0 <= j < ub + 1 implies #[trigger] s2[j].time() <= u by {
            if j < k {
                assert(s2[j] == s[j]);
            } else if j > k {
                assert(s2[j] == s[j - 1]);
            }
        }
        if ub + 1 < s2.len() {
            assert(s2[ub + 1] == s[ub]);
        }
        lemma_upper_bound_at(s2, u, ub + 1);
    } else {
        assert(lb <= k) by {
            if lb > k {
                assert(s[k].time() < u);
            }
        }
        assert forall|j: int| 0 <= j < lb implies #[trigger] s2[j].time() < u by {
            assert(s2[j] == s[j]);
        }
        if lb < s2.len() {
            if lb < k {
                assert(s2[lb] == s[lb]);
            }
        }
        lemma_lower_bound_at(s2, u, lb);
        if u == t {
            assert(ub == k);
            assert forall|j: int| 0 <= j < ub + 1 implies #[trigger] s2[j].time() <= u by {
                if j < k {
                    assert(s2[j] == s[j]);
                }
            }
            if ub + 1 < s2.len() {
                assert(s2[ub + 1] == s[ub]);
            }
            lemma_upper_bound_at(s2, u, ub + 1);
        } else {
            assert(ub <= k) by {
                if ub > k {
                    assert(s[k].time() <= u);
                }
            }
            assert forall|j: int| 0 <= j < ub implies #[trigger] s2[j].time() <= u by {
                assert(s2[j] == s[j]);
            }
            if ub < s2.len() {
                if ub < k {
                    assert(s2[ub] == s[ub]);
                }
            }
            lemma_upper_bound_at(s2, u, ub);
        }
    }
}

/// Where the bounds of any time `u` lie once the event at position `i` of a
/// sorted sequence has been removed.
pub proof fn lemma_bounds_after_remove<E: Event>(s: Seq<E>, i: int, u: SimTime)
    requires
        sorted_by_time(s),
        0 <= i < s.len(),
    ensures
        ({
            let s2 = s.remove(i);
            &&& lower_bound(s2, u) == lower_bound(s, u) - if u > s[i].time() {
                1int
            } else {
                0int
            }
            &&& upper_bound(s2, u) == upper_bound(s, u) - if u >= s[i].time() {
                1int
            } else {
                0int
            }
        }),
{
    let t = s[i].time();
    let s2 = s.remove(i);
    lemma_lower_bound_split(s, u);
    lemma_upper_bound_split(s, u);
    let lb = lower_bound(s, u) as int;
    let ub = upper_bound(s, u) as int;
    if u > t {
        assert(i < lb) by {
            if i >= lb {
                assert(s[i].time() >= u);
            }
        }
        assert forall|j: int| 0 <= j < lb - 1 implies #[trigger] s2[j].time() < u by {
            if j >= i {
                assert(s2[j] == s[j + 1]);
            }
        }
        if lb - 1 < s2.len() {
            assert(s2[lb - 1] == s[lb]);
        }
        lemma_lower_bound_at(s2, u, lb - 1);
        assert(i < ub) by {
            if i >= ub {
                assert(s[i].time() > u);
            }
        }
        assert forall|j: int| 0 <= j < ub - 1 implies #[trigger] s2[j].time() <= u by {
            if j >= i {
                assert(s2[j] == s[j + 1]);
            }
        }
        if ub - 1 < s2.len() {
            assert(s2[ub - 1] == s[ub]);
        }
        lemma_upper_bound_at(s2, u, ub - 1);
    } else {
        assert(i >= lb) by {
            if i < lb {
                assert(s[i].time() < u);
            }
        }
        assert forall|j: int| 0 <= j < lb implies #[trigger] s2[j].time() < u by {
            assert(s2[j] == s[j]);
        }
        if lb < s2.len() {
            if lb < i {
                assert(s2[lb] == s[lb]);
            } else {
                assert(s2[lb] == s[lb + 1]);
            }
        }
        lemma_lower_bound_at(s2, u, lb);
        if u == t {
            assert(i < ub) by {
                if i >= ub {
                    assert(s[i].time() > u);
                }
            }
            assert forall|j: int| 0 <= j < ub - 1 implies #[trigger] s2[j].time() <= u by {
                if j >= i {
                    assert(s2[j] == s[j + 1]);
                }
            }
            if ub - 1 < s2.len() {
                assert(s2[ub - 1] == s[ub]);
            }
            lemma_upper_bound_at(s2, u, ub - 1);
        } else {
            assert(i >= ub) by {
                if i < ub {
                    assert(s[i].time() <= u);
                }
            }
            assert forall|j: int| 0 <= j < ub implies #[trigger] s2[j].time() <= u by {
                assert(s2[j] == s[j]);
            }
            if ub < s2.len() {
                if ub < i {
                    assert(s2[ub] == s[ub]);
                } else {
                    assert(s2[ub] == s[ub + 1]);
                }
            }
            lemma_upper_bound_at(s2, u, ub);
        }
    }
}

/// In a sorted sequence the lower bound of a time does not exceed its upper bound.
pub proof fn lemma_bounds_ordered<E: Event>(s: Seq<E>, t: SimTime)
    requires
        sorted_by_time(s),
    ensures
        lower_bound(s, t) <= upper_bound(s, t) <= s.len(),
{
    lemma_lower_bound_split(s, t);
    lemma_upper_bound_split(s, t);
    let lb = lower_bound(s, t) as int;
    let ub = upper_bound(s, t) as int;
    if ub < lb {
        assert(s[ub].time() > t);
        assert(s[ub].time() < t);
    }
}

/// How a slice of a sequence moves when an element is inserted at `k`.
proof fn lemma_insert_subrange<A>(s: Seq<A>, k: int, e: A, a: int, b: int)
    requires
        0 <= a <= b <= s.len(),
        0 <= k <= s.len(),
    ensures
        b <= k ==> s.insert(k, e).subrange(a, b) == s.subrange(a, b),
        a >= k ==> s.insert(k, e).subrange(a + 1, b + 1) == s.subrange(a, b),
        a <= k == b ==> s.insert(k, e).subrange(a, b + 1) == s.subrange(a, b).push(e),
{
    let s2 = s.insert(k, e);
    if b <= k {
        assert(s2.subrange(a, b) =~= s.subrange(a, b));
    }
    if a >= k {
        assert(s2.subrange(a + 1, b + 1) =~= s.subrange(a, b));
    }
    if a <= k && k == b {
        assert(s2.subrange(a, b + 1) =~= s.subrange(a, b).push(e));
    }
}

/// How a slice of a sequence moves when the element at `i` is removed.
proof fn lemma_remove_subrange<A>(s: Seq<A>, i: int, a: int, b: int)
    requires
        0 <= a <= b <= s.len(),
        0 <= i < s.len(),
    ensures
        b <= i ==> s.remove(i).subrange(a, b) == s.subrange(a, b),
        a > i ==> s.remove(i).subrange(a - 1, b - 1) == s.subrange(a, b),
        a <= i < b ==> s.remove(i).subrange(a, b - 1) == s.subrange(a, b).remove(i - a),
{
    let s2 = s.remove(i);
    if b <= i {
        assert(s2.subrange(a, b) =~= s.subrange(a, b));
    }
    if a > i {
        assert(s2.subrange(a - 1, b - 1) =~= s.subrange(a, b));
    }
    if a <= i < b {
        assert(s2.subrange(a, b - 1) =~= s.subrange(a, b).remove(i - a));
    }
}

impl<E: Event> PriorityQueue<E> {
    /// The queued events in extraction order: by time, and among events at the
    /// same time, by insertion.
    pub closed spec fn view(&self) -> Seq<E> {
        self.order@
    }

    /// The vector kept for time `t` holds exactly the queued events at `t`, in
    /// extraction order, and is not empty.
    spec fn bucket_ok(&self, t: SimTime) -> bool {
        &&& self.items@[t]@ == self.order@.subrange(
            lower_bound(self.order@, t) as int,
            upper_bound(self.order@, t) as int,
        )
        &&& self.items@[t]@.len() > 0
    }

    /// Well-formedness: the events are sorted, there is a vector for each time
    /// of a queued event and for no other, and the counter is the number of events.
    pub closed spec fn wf(&self) -> bool {
        &&& sorted_by_time(self.order@)
        &&& forall|t: SimTime| #[trigger] self.items@.contains_key(t) ==> self.bucket_ok(t)
        &&& forall|i: int|
            0 <= i < self.order@.len() ==> self.items@.contains_key(#[trigger] self.order@[i].time())
        &&& self.total_count == self.order@.len()
    }

    /// In a well-formed queue the events are sorted by time: they come out in
    /// time order.
    pub proof fn lemma_sorted(&self)
        requires
            self.wf(),
        ensures
            sorted_by_time(self@),
    {
    }

    /// Removing an event just inserted gives back the queue as it was, when no
    /// queued event had its time and identifier: the event went at the upper
    /// bound of its time, it is the only one there with its time and
    /// identifier, and removing that position undoes the insertion.
    pub proof fn law_remove_undoes_insert(&self, event: E)
        requires
            self.wf(),
            forall|i: int|
                0 <= i < self@.len() ==> !(#[trigger] self@[i].time() == event.time() && self@[i].id()
                    == event.id()),
        ensures
            ({
                let k = upper_bound(self@, event.time()) as int;
                let s2 = self@.insert(k, event);
                &&& 0 <= k <= self@.len()
                &&& forall|i: int|
                    0 <= i < s2.len() ==> ((#[trigger] s2[i].time() == event.time() && s2[i].id()
                        == event.id()) <==> i == k)
                &&& s2.remove(k) == self@
            }),
    {
        let s = self@;
        let k = upper_bound(s, event.time()) as int;
        lemma_upper_bound_len(s, event.time());
        let s2 = s.insert(k, event);
        assert(s2.remove(k) =~= s);
        assert forall|i: int| 0 <= i < s2.len() implies ((#[trigger] s2[i].time() == event.time()
            && s2[i].id() == event.id()) <==> i == k) by {
            if i < k {
                assert(s2[i] == s[i]);
            } else if i > k {
                assert(s2[i] == s[i - 1]);
            }
        }
    }

    /// An empty queue.
    pub fn new() -> (r: Self)
        ensures
            r.wf(),
            r@ == Seq::<E>::empty(),
    {
        PriorityQueue { items: BTreeMap::new(), total_count: 0, order: Ghost(Seq::empty()) }
    }

    /// Insert an event looking at its time for the order (O(log n)): it comes
    /// after every event already queued at the same time. An event with a
    /// negative time is rejected.
    pub fn insert(&mut self, entity: E) -> (r: Result<(), String>)
        requires
            old(self).wf(),
            old(self)@.len() < usize::MAX,
        ensures
            final(self).wf(),
            entity.time() < 0 ==> {
                &&& r is Err
                &&& r->Err_0@ == negative_time_text()
                &&& final(self)@ == old(self)@
            },
            entity.time() >= 0 ==> {
                &&& r is Ok
                &&& final(self)@ == old(self)@.insert(
                    upper_bound(old(self)@, entity.time()) as int,
                    entity,
                )
            },
    {
        // Read time of message, if negative return error
        let time = entity.get_time();
        if time < 0 {
            return Err(negative_time_message());
        }
        // Get the vector of events at that time (an empty one if there is none),
        // add the event at its end and put the vector back.
        let mut messages = match self.items.remove(&time) {
            Some(v) => v,
            None => Vec::new(),
        };
        messages.push(entity);
        self.items.insert(time, messages);
        self.total_count = self.total_count + 1;
        proof {
            let s = old(self).order@;
            let k = upper_bound(s, time) as int;
            let s2 = s.insert(k, entity);
            self.order@ = s2;
            lemma_insert_at_upper_bound_sorted(s, entity);
            lemma_upper_bound_split(s, time);
            lemma_lower_bound_split(s, time);
            let m = old(self).items@;
            assert forall|t: SimTime| #[trigger] self.items@.contains_key(t) implies self.bucket_ok(t) by {
                lemma_bounds_after_insert(s, entity, t);
                lemma_lower_bound_split(s, t);
                lemma_upper_bound_split(s, t);
                lemma_bounds_ordered(s, t);
                let lb = lower_bound(s, t) as int;
                let ub = upper_bound(s, t) as int;
                if t == time {
                    assert(ub == k);
                    if m.contains_key(t) {
                        assert(old(self).bucket_ok(t));
                    } else {
                        assert(lb == k) by {
                            if lb < k {
                                assert(s[lb].time() == t);
                                assert(m.contains_key(s[lb].time()));
                            }
                        }
                        assert(s.subrange(lb, ub) =~= Seq::<E>::empty());
                    }
                    lemma_insert_subrange(s, k, entity, lb, ub);
                } else {
                    assert(old(self).bucket_ok(t));
                    if t < time {
                        assert(ub <= k) by {
                            if ub > k {
                                assert(s[k].time() <= t);
                            }
                        }
                    } else {
                        assert(lb >= k) by {
                            if lb < k {
                                assert(s[lb].time() <= time);
                            }
                        }
                    }
                    lemma_insert_subrange(s, k, entity, lb, ub);
                }
            }
            assert forall|i: int| 0 <= i < s2.len() implies self.items@.contains_key(
                #[trigger] s2[i].time(),
            ) by {
                if i < k {
                    assert(s2[i] == s[i]);
                } else if i > k {
                    assert(s2[i] == s[i - 1]);
                }
            }
        }
        Ok(())
    }

    /// Extract first (minimum time) event (O(log n)); among events at the same
    /// time, the one inserted first.
    pub fn pop_first(&mut self) -> (r: Option<E>)
        requires
            old(self).wf(),
        ensures
            final(self).wf(),
            old(self)@.len() == 0 ==> r is None && final(self)@ == old(self)@,
            old(self)@.len() > 0 ==> r == Some(old(self)@[0]) && final(self)@
                == old(self)@.drop_first(),
    {
        // If queue empty then return None
        let first_key = match first_key(&self.items) {
            Some(k) => k,
            None => {
                proof {
                    if self.order@.len() > 0 {
                        assert(self.items@.contains_key(self.order@[0].time()));
                    }
                }
                return None;
            },
        };
        let ghost s = self.order@;
        let ghost m = self.items@;
        proof {
            assert(self.bucket_ok(first_key));
            lemma_lower_bound_split(s, first_key);
            lemma_upper_bound_split(s, first_key);
            assert(s.len() > 0);
            assert(m.contains_key(s[0].time()));
            assert(s[0].time() == first_key) by {
                if s[0].time() > first_key {
                    assert(lower_bound(s, first_key) == 0);
                }
            }
        }
        // Take the vector of events at that time, remove its first event and
        // put the vector back unless it is now empty (a vector is never empty)
        let mut entities = self.items.remove(&first_key).unwrap();
        let entity = entities.remove(0);
        self.total_count = self.total_count - 1;
        if entities.len() > 0 {
            self.items.insert(first_key, entities);
        }
        proof {
            let s2 = s.remove(0);
            self.order@ = s2;
            assert(s2 =~= s.drop_first());
            lemma_remove_sorted(s, 0);
            assert(lower_bound(s, first_key) == 0);
            assert(entity == s[0]);
            assert forall|t: SimTime| #[trigger] self.items@.contains_key(t) implies self.bucket_ok(t) by {
                lemma_bounds_after_remove(s, 0, t);
                lemma_bounds_ordered(s, t);
                assert(old(self).bucket_ok(t));
                let lb = lower_bound(s, t) as int;
                let ub = upper_bound(s, t) as int;
                lemma_remove_subrange(s, 0, lb, ub);
                if t == first_key {
                    assert(lb == 0);
                    assert(self.items@[t]@ =~= s.subrange(lb, ub).remove(0));
                } else {
                    assert(t > first_key);
                    lemma_lower_bound_split(s, t);
                    assert(lb > 0) by {
                        assert(s[0].time() < t);
                    }
                }
            }
            assert forall|i: int| 0 <= i < s2.len() implies self.items@.contains_key(
                #[trigger] s2[i].time(),
            ) by {
                assert(s2[i] == s[i + 1]);
                assert(m.contains_key(s[i + 1].time()));
                if s[i + 1].time() == first_key {
                    assert(upper_bound(s, first_key) > i + 1);
                    assert(self.items@.contains_key(first_key));
                }
            }
        }
        Some(entity)
    }

    /// Peek at the first time (the time of the next extracted event)
    pub fn peek_first(&self) -> (r: Option<SimTime>)
        requires
            self.wf(),
        ensures
            r == if self@.len() == 0 {
                None
            } else {
                Some(self@[0].time())
            },
    {
        let r = first_key(&self.items);
        proof {
            let s = self.order@;
            if s.len() > 0 {
                assert(self.items@.contains_key(s[0].time()));
                let k = r->0;
                assert(self.bucket_ok(k));
                lemma_lower_bound_split(s, k);
                if s[0].time() > k {
                    assert(lower_bound(s, k) == 0);
                }
            }
        }
        r
    }

    /// Check if queue is empty
    pub fn is_empty(&self) -> (r: bool)
        requires
            self.wf(),
        ensures
            r == (self@.len() == 0),
    {
        let r = first_key(&self.items).is_none();
        proof {
            let s = self.order@;
            if s.len() > 0 {
                assert(self.items@.contains_key(s[0].time()));
            } else if !r {
                let k = some_key(self.items@);
                assert(self.bucket_ok(k));
            }
        }
        r
    }

    /// Number of entities in queue
    pub fn len(&self) -> (r: usize)
        requires
            self.wf(),
        ensures
            r == self@.len(),
    {
        self.total_count
    }

    /// Remove all entities
    pub fn clear(&mut self)
        requires
            old(self).wf(),
        ensures
            final(self).wf(),
            final(self)@ == Seq::<E>::empty(),
    {
        self.items.clear();
        self.total_count = 0;
        proof {
            self.order@ = Seq::empty();
        }
    }

    /// Remove a specific event from the queue: the first queued event with the
    /// time and the identifier of `event`. Returns whether there was one.
    pub fn remove(&mut self, event: &E) -> (r: bool)
        requires
            old(self).wf(),
        ensures
            final(self).wf(),
            r == exists|i: int|
                0 <= i < old(self)@.len() && #[trigger] old(self)@[i].time() == event.time()
                    && old(self)@[i].id() == event.id(),
            r ==> exists|i: int|
                0 <= i < old(self)@.len() && #[trigger] old(self)@[i].time() == event.time()
                    && old(self)@[i].id() == event.id() && (forall|j: int|
                    0 <= j < i ==> !(old(self)@[j].time() == event.time() && #[trigger] old(
                        self,
                    )@[j].id() == event.id())) && final(self)@ == old(self)@.remove(i),
            !r ==> final(self)@ == old(self)@,
    {
        // Get time and id
        let time = event.get_time();
        let event_id = event.get_id();
        let ghost s = self.order@;
        let ghost m = self.items@;
        proof {
            lemma_lower_bound_split(s, time);
            lemma_upper_bound_split(s, time);
        }
        // The vector of events at that time; without one, no event matches
        let mut entities = match self.items.remove(&time) {
            Some(v) => v,
            None => {
                proof {
                    assert forall|i: int| 0 <= i < s.len() implies !(#[trigger] s[i].time() == time
                        && s[i].id() == event_id) by {
                        assert(m.contains_key(s[i].time()));
                    }
                }
                return false;
            },
        };
        let ghost lb = lower_bound(s, time) as int;
        let ghost ub = upper_bound(s, time) as int;
        proof {
            assert(old(self).bucket_ok(time));
            lemma_bounds_ordered(s, time);
        }
        let ghost bucket = entities@;
        let ghost m1 = self.items@;
        proof {
            broadcast use vstd::std_specs::btree::group_btree_axioms;
            assert(m1 == m.remove(time));
        }
        let mut idx: usize = 0;
        #[verifier::loop_isolation(false)]
        while idx < entities.len()
            invariant
                entities@ == bucket,
                self.items@ == m1,
                self.order@ == s,
                self.total_count == s.len(),
                bucket == s.subrange(lb, ub),
                0 <= lb <= ub <= s.len(),
                idx <= entities@.len(),
                forall|j: int| 0 <= j < idx ==> #[trigger] entities@[j].id() != event_id,
            decreases entities@.len() - idx,
        {
            if entities[idx].get_id() == event_id {
                entities.remove(idx);
                self.total_count = self.total_count - 1;
                // Put the vector back unless it is now empty
                if entities.len() > 0 {
                    self.items.insert(time, entities);
                }
                proof {
                    let i = lb + idx;
                    assert(s[i] == bucket[idx as int]);
                    let s2 = s.remove(i);
                    self.order@ = s2;
                    lemma_remove_sorted(s, i);
                    assert(s[i].time() >= time && s[i].time() <= time);
                    assert(old(self)@[i].time() == event.time());
                    assert(old(self)@[i].id() == event.id());
                    assert forall|j: int| 0 <= j < i implies !(s[j].time() == time && #[trigger] s[j].id()
                        == event_id) by {
                        if j >= lb {
                            assert(s[j] == bucket[j - lb]);
                        }
                    }
                    assert forall|t: SimTime| #[trigger] self.items@.contains_key(t) implies self.bucket_ok(
                        t,
                    ) by {
                        lemma_bounds_after_remove(s, i, t);
                        lemma_bounds_ordered(s, t);
                        lemma_lower_bound_split(s, t);
                        lemma_upper_bound_split(s, t);
                        assert(old(self).bucket_ok(t));
                        let a = lower_bound(s, t) as int;
                        let b = upper_bound(s, t) as int;
                        lemma_remove_subrange(s, i, a, b);
                        if t < time {
                            assert(b <= i) by {
                                if b > i {
                                    assert(s[i].time() <= t);
                                }
                            }
                        } else if t > time {
                            assert(a > i) by {
                                if a <= i {
                                    assert(s[i].time() >= t);
                                }
                            }
                        }
                    }
                    assert forall|k: int| 0 <= k < s2.len() implies self.items@.contains_key(
                        #[trigger] s2[k].time(),
                    ) by {
                        let ok = if k < i { k } else { k + 1 };
                        assert(s2[k] == s[ok]);
                        assert(m.contains_key(s[ok].time()));
                        if s[ok].time() == time {
                            assert(lb <= ok < ub);
                            assert(ub - lb > 1);
                        }
                    }
                }
                return true;
            }
            idx = idx + 1;
        }
        // No event of that time has the identifier: put the vector back
        self.items.insert(time, entities);
        proof {
            assert(m.contains_key(time));
            assert forall|t: SimTime| #[trigger] self.items@.contains_key(t) implies self.bucket_ok(t) by {
                if t == time {
                    assert(self.items@[t]@ == bucket);
                } else {
                    assert(m.contains_key(t));
                    assert(self.items@[t] == m[t]);
                }
                assert(old(self).bucket_ok(t));
            }
            assert forall|i: int| 0 <= i < s.len() implies self.items@.contains_key(
                #[trigger] s[i].time(),
            ) by {
                assert(m.contains_key(s[i].time()));
            }
            assert forall|i: int| 0 <= i < s.len() implies !(#[trigger] s[i].time() == time
                && s[i].id() == event_id) by {
                if s[i].time() == time {
                    assert(s[i] == entities@[i - lb]);
                }
            }
        }
        false
    }
}

/// A key of a non-empty map (meaningful when one exists).
spec fn some_key<V>(m: Map<SimTime, V>) -> SimTime {
    choose|t: SimTime| m.contains_key(t)
}

} // verus!
