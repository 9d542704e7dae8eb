use vstd::prelude::*;
use std::collections::HashMap;
use vstd::multiset::Multiset;
use vstd::pervasive::VecAdditionalExecFns;
use crate::base::sim_time::SimTime;
use crate::base::priority_queue::{Event, negative_time_message, negative_time_text};

verus! {

broadcast use vstd::std_specs::hash::group_hash_axioms;

/// The message of the error that rejects an event whose identifier is
/// already queued.
pub open spec fn duplicate_id_text() -> Seq<char> {
    "Event id already queued"@
}

/// The error that rejects an event whose identifier is already queued.
fn duplicate_id_message() -> (r: String)
    ensures
        r@ == duplicate_id_text(),
{
    "Event id already queued".to_string()
}

/// A handle to an event of the heap: its identifier.
pub type NodeHandle = u64;

/// The event of `m` fires no later than any event of `m`, at time `t`.
pub open spec fn is_min_time<E: Event>(m: Multiset<E>, t: SimTime) -> bool {
    &&& exists|e: E| m.count(e) > 0 && e.time() == t
    &&& forall|e: E| m.count(e) > 0 ==> t <= #[trigger] e.time()
}

/// Some event of `m` has identifier `h`.
pub open spec fn contains_id<E: Event>(m: Multiset<E>, h: u64) -> bool {
    exists|e: E| m.count(e) > 0 && #[trigger] e.id() == h
}

/// The event of `m` with identifier `h` (meaningful when `contains_id(m, h)`).
pub open spec fn event_with_id<E: Event>(m: Multiset<E>, h: u64) -> E {
    choose|e: E| m.count(e) > 0 && e.id() == h
}

spec fn parent_of(i: int) -> int {
    (i - 1) / 2
}

/// The event at slot `i` fires no earlier than the event at its parent slot.
spec fn edge_ok<E: Event>(s: Seq<E>, i: int) -> bool {
    s[parent_of(i)].time() <= s[i].time()
}

/// Every event fires no earlier than the event at its parent slot.
spec fn heap_ok<E: Event>(s: Seq<E>) -> bool {
    forall|i: int| 0 < i < s.len() ==> #[trigger] edge_ok(s, i)
}

/// The heap order holds except between slot `idx` and its parent; the parent
/// of `idx` fires no later than the children of `idx`.
spec fn heap_except_up<E: Event>(s: Seq<E>, idx: int) -> bool {
    &&& forall|i: int| 0 < i < s.len() && i != idx ==> #[trigger] edge_ok(s, i)
    &&& idx > 0 ==> forall|c: int|
        0 < c < s.len() && #[trigger] parent_of(c) == idx ==> s[parent_of(idx)].time() <= s[c].time()
}

/// The heap order holds except between slot `idx` and its children; the parent
/// of `idx` fires no later than the children of `idx`.
spec fn heap_except_down<E: Event>(s: Seq<E>, idx: int) -> bool {
    &&& forall|i: int| 0 < i < s.len() && parent_of(i) != idx ==> #[trigger] edge_ok(s, i)
    &&& idx > 0 ==> forall|c: int|
        0 < c < s.len() && #[trigger] parent_of(c) == idx ==> s[parent_of(idx)].time() <= s[c].time()
}

/// `s` with the entries at `i` and `j` exchanged.
spec fn swapped<T>(s: Seq<T>, i: int, j: int) -> Seq<T> {
    s.update(i, s[j]).update(j, s[i])
}

/// Exchanges the entries at `i` and `j` of `v`, in constant time.
fn swap_entries<T>(v: &mut Vec<T>, i: usize, j: usize)
    requires
        i < old(v).len(),
        j < old(v).len(),
    ensures
        final(v)@ == swapped(old(v)@, i as int, j as int),
{
    if i == j {
        assert(swapped(old(v)@, i as int, j as int) =~= old(v)@);
        return;
    }
    let ghost s = v@;
    let last = v.len() - 1;
    let mut tmp = v.pop().unwrap();
    if i == last {
        v.set_and_swap(j, &mut tmp);
        v.push(tmp);
    } else if j == last {
        v.set_and_swap(i, &mut tmp);
        v.push(tmp);
    } else {
        v.set_and_swap(i, &mut tmp);
        v.set_and_swap(j, &mut tmp);
        v.set_and_swap(i, &mut tmp);
        v.push(tmp);
    }
    assert(v@ =~= swapped(s, i as int, j as int));
}

proof fn lemma_swapped_multiset<T>(s: Seq<T>, i: int, j: int)
    requires
        0 <= i < s.len(),
        0 <= j < s.len(),
    ensures
        swapped(s, i, j).to_multiset() == s.to_multiset(),
        swapped(s, i, j).len() == s.len(),
{
    broadcast use vstd::seq_lib::group_to_multiset_ensures;
    vstd::seq_lib::to_multiset_update(s, i, s[j]);
    vstd::seq_lib::to_multiset_update(s.update(i, s[j]), j, s[i]);
    assert(s.update(i, s[j])[j] == if i == j { s[j] } else { s[j] });
    assert(swapped(s, i, j).to_multiset() =~= s.to_multiset());
}

/// In a heap, the event at the root fires no later than any other.
proof fn lemma_root_is_min<E: Event>(s: Seq<E>, i: int)
    requires
        heap_ok(s),
        0 <= i < s.len(),
    ensures
        s[0].time() <= s[i].time(),
    decreases i,
{
    if i > 0 {
        assert(edge_ok(s, i));
        lemma_root_is_min(s, parent_of(i));
    }
}

/// Priority queue implemented as an indexed binary heap.
/// The events are kept in a binary tree where each node fires no later than its
/// two children, so the first event is at the top. The tree is a vector (the
/// node at index idx has as children the nodes at indices 2*idx+1 and 2*idx+2).
/// A hash map maps each event id to the index of its node in the heap, so that
/// removal by handle takes O(log N) instead of O(N).
/// Insertion: O(log N). Extraction (pop_first): O(log N). Removal: O(log N)
/// given a NodeHandle.
pub struct PriorityQueueBinaryHeap<E> {
    heap: Vec<E>,
    id_to_index: HashMap<u64, usize>,
}

impl<E: Event> PriorityQueueBinaryHeap<E> {
    /// The queued events.
    pub closed spec fn view(&self) -> Multiset<E> {
        self.heap@.to_multiset()
    }

    /// The map from identifiers to slots describes the heap exactly.
    spec fn index_ok(s: Seq<E>, m: Map<u64, usize>) -> bool {
        &&& forall|i: int| #![trigger s[i]] 0 <= i < s.len() ==> m.contains_key(s[i].id()) && m[s[i].id()] == i
        &&& forall|h: u64| #[trigger] m.contains_key(h) ==> m[h] < s.len() && s[m[h] as int].id() == h
    }

    /// Two slots hold events with different identifiers.
    proof fn lemma_ids_distinct(s: Seq<E>, m: Map<u64, usize>, a: int, b: int)
        requires
            Self::index_ok(s, m),
            0 <= a < s.len(),
            0 <= b < s.len(),
            a != b,
        ensures
            s[a].id() != s[b].id(),
    {
        assert(m.contains_key(s[a].id()) && m[s[a].id()] == a);
        assert(m.contains_key(s[b].id()) && m[s[b].id()] == b);
    }

    /// Well-formedness: heap order, one slot per identifier, and a size that
    /// keeps the child indices representable.
    pub closed spec fn wf(&self) -> bool {
        &&& heap_ok(self.heap@)
        &&& Self::index_ok(self.heap@, self.id_to_index@)
        &&& self.heap@.len() <= usize::MAX / 4
    }

    /// Removing by the handle that an insertion returned takes out the event
    /// just inserted and gives back the queue as it was: the handle is the
    /// event's identifier, which no other queued event carries.
    pub proof fn law_remove_undoes_insert(&self, event: E)
        requires
            self.wf(),
            !contains_id(self@, event.id()),
        ensures
            contains_id(self@.insert(event), event.id()),
            event_with_id(self@.insert(event), event.id()) == event,
            self@.insert(event).remove(event) == self@,
    {
        let m = self@;
        let m2 = m.insert(event);
        assert(m2.count(event) > 0);
        let e = event_with_id(m2, event.id());
        if e != event {
            assert(m.count(e) > 0);
        }
        assert(m2.remove(event) =~= m);
    }

    /// An empty heap.
    pub fn new() -> (r: Self)
        ensures
            r.wf(),
            r@ == Multiset::<E>::empty(),
    {
        let r = PriorityQueueBinaryHeap { heap: Vec::new(), id_to_index: HashMap::new() };
        proof {
            broadcast use vstd::seq_lib::group_to_multiset_ensures;
            assert(r.heap@.to_multiset().len() == 0);
            assert(r@ =~= Multiset::<E>::empty());
        }
        r
    }

    /// An empty heap with room for `capacity` events.
    pub fn with_capacity(capacity: usize) -> (r: Self)
        ensures
            r.wf(),
            r@ == Multiset::<E>::empty(),
    {
        let r = PriorityQueueBinaryHeap {
            heap: Vec::with_capacity(capacity),
            id_to_index: HashMap::with_capacity(capacity),
        };
        proof {
            broadcast use vstd::seq_lib::group_to_multiset_ensures;
            assert(r.heap@.to_multiset().len() == 0);
            assert(r@ =~= Multiset::<E>::empty());
        }
        r
    }

    fn parent(idx: usize) -> (r: usize)
        ensures
            idx > 0 ==> r == parent_of(idx as int),
            idx == 0 ==> r == 0,
    {
        if idx == 0 {
            0
        } else {
            (idx - 1) / 2
        }
    }

    fn left_child(idx: usize) -> (r: usize)
        requires
            idx <= usize::MAX / 4,
        ensures
            r == 2 * idx + 1,
    {
        2 * idx + 1
    }

    fn right_child(idx: usize) -> (r: usize)
        requires
            idx <= usize::MAX / 4,
        ensures
            r == 2 * idx + 2,
    {
        2 * idx + 2
    }

    fn has_left_child(idx: usize, len: usize) -> (r: bool)
        requires
            idx <= usize::MAX / 4,
        ensures
            r == (2 * idx + 1 < len),
    {
        Self::left_child(idx) < len
    }

    fn has_right_child(idx: usize, len: usize) -> (r: bool)
        requires
            idx <= usize::MAX / 4,
        ensures
            r == (2 * idx + 2 < len),
    {
        Self::right_child(idx) < len
    }

    /// Exchanges the events at slots `i` and `j` and records their new slots.
    fn swap_nodes(&mut self, i: usize, j: usize)
        requires
            i < old(self).heap@.len(),
            j < old(self).heap@.len(),
            Self::index_ok(old(self).heap@, old(self).id_to_index@),
        ensures
            final(self).heap@ == swapped(old(self).heap@, i as int, j as int),
            Self::index_ok(final(self).heap@, final(self).id_to_index@),
            final(self)@ == old(self)@,
    {
        let ghost s = self.heap@;
        let ghost m = self.id_to_index@;
        swap_entries(&mut self.heap, i, j);
        let id_i = self.heap[i].get_id();
        let id_j = self.heap[j].get_id();
        self.id_to_index.insert(id_i, i);
        self.id_to_index.insert(id_j, j);
        proof {
            lemma_swapped_multiset(s, i as int, j as int);
            let s2 = self.heap@;
            let m2 = self.id_to_index@;
            assert forall|k: int| 0 <= k < s2.len() implies #[trigger] m2.contains_key(s2[k].id())
                && m2[s2[k].id()] == k by {
                if k != i && k != j {
                    assert(s2[k] == s[k]);
                    assert(m.contains_key(s[k].id()) && m[s[k].id()] == k);
                    Self::lemma_ids_distinct(s, m, k, i as int);
                    Self::lemma_ids_distinct(s, m, k, j as int);
                } else if i != j && k == i {
                    Self::lemma_ids_distinct(s, m, i as int, j as int);
                }
            }
            assert forall|h: u64| #[trigger] m2.contains_key(h) implies m2[h] < s2.len()
                && s2[m2[h] as int].id() == h by {
                if h != id_i && h != id_j {
                    assert(m.contains_key(h));
                    let w = m[h] as int;
                    assert(s[w].id() == h);
                    assert(w != i && w != j);
                    assert(s2[w] == s[w]);
                }
            }
        }
    }

    /// Moves the event at `idx` up, swapping it with its parent while it fires
    /// strictly earlier, until the heap order holds. When the heap order holds
    /// at `idx` already, nothing changes.
    fn bubble_up(&mut self, start: usize)
        requires
            start < old(self).heap@.len(),
            old(self).heap@.len() <= usize::MAX / 4,
            Self::index_ok(old(self).heap@, old(self).id_to_index@),
            heap_except_up(old(self).heap@, start as int) || start == 0 || edge_ok(
                old(self).heap@,
                start as int,
            ),
        ensures
            final(self)@ == old(self)@,
            final(self).heap@.len() == old(self).heap@.len(),
            Self::index_ok(final(self).heap@, final(self).id_to_index@),
            heap_except_up(old(self).heap@, start as int) ==> heap_ok(final(self).heap@),
            start == 0 || edge_ok(old(self).heap@, start as int) ==> final(self).heap@ == old(self).heap@,
    {
        let ghost s0 = self.heap@;
        let ghost repaired = heap_except_up(s0, start as int);
        let ghost stays = start == 0 || edge_ok(s0, start as int);
        let mut idx = start;
        // While the event fires strictly earlier than its parent, the heap
        // order is broken: swap them and continue from the parent.
        loop
            invariant
                idx < self.heap@.len(),
                self.heap@.len() == s0.len(),
                self.heap@.len() <= usize::MAX / 4,
                self@ == old(self)@,
                Self::index_ok(self.heap@, self.id_to_index@),
                repaired ==> heap_except_up(self.heap@, idx as int),
                stays == (start == 0 || edge_ok(s0, start as int)),
                stays ==> self.heap@ == s0 && idx == start,
                repaired || stays,
            ensures
                self@ == old(self)@,
                self.heap@.len() == s0.len(),
                Self::index_ok(self.heap@, self.id_to_index@),
                repaired ==> heap_ok(self.heap@),
                stays ==> self.heap@ == s0,
            decreases idx,
        {
            if idx == 0 {
                break;
            }
            let parent_idx = Self::parent(idx);
            if self.heap[idx].get_time() >= self.heap[parent_idx].get_time() {
                break;
            }
            let ghost s = self.heap@;
            proof {
                assert(!edge_ok(s, idx as int));
                assert(repaired);
            }
            self.swap_nodes(idx, parent_idx);
            proof {
                let s2 = self.heap@;
                let p = parent_idx as int;
                let x = idx as int;
                assert(s2[p] == s[x] && s2[x] == s[p]);
                assert forall|i: int| 0 < i < s2.len() && i != p implies #[trigger] edge_ok(s2, i) by {
                    if i == x {
                    } else if parent_of(i) == p {
                        assert(edge_ok(s, i));
                    } else if parent_of(i) == x {
                    } else {
                        assert(edge_ok(s, i));
                        assert(s2[i] == s[i]);
                        assert(s2[parent_of(i)] == s[parent_of(i)]);
                    }
                }
                if p > 0 {
                    assert(edge_ok(s, p));
                    assert forall|c: int| 0 < c < s2.len() && #[trigger] parent_of(c) == p implies s2[parent_of(
                        p,
                    )].time() <= s2[c].time() by {
                        if c != x {
                            assert(edge_ok(s, c));
                        }
                    }
                }
            }
            idx = parent_idx;
        }
    }

    /// Moves the event at `idx` down, swapping it with its earliest child while
    /// that child fires strictly earlier, until the heap order holds.
    fn bubble_down(&mut self, idx: usize)
        requires
            idx < old(self).heap@.len(),
            old(self).heap@.len() <= usize::MAX / 4,
            Self::index_ok(old(self).heap@, old(self).id_to_index@),
            heap_except_down(old(self).heap@, idx as int),
        ensures
            final(self)@ == old(self)@,
            final(self).heap@.len() == old(self).heap@.len(),
            Self::index_ok(final(self).heap@, final(self).id_to_index@),
            heap_ok(final(self).heap@),
    {
        let len = self.heap.len();
        let mut idx = idx;
        loop
            invariant
                idx < self.heap@.len(),
                len == self.heap@.len(),
                len <= usize::MAX / 4,
                self@ == old(self)@,
                Self::index_ok(self.heap@, self.id_to_index@),
                heap_except_down(self.heap@, idx as int),
            ensures
                self@ == old(self)@,
                len == self.heap@.len(),
                Self::index_ok(self.heap@, self.id_to_index@),
                heap_ok(self.heap@),
            decreases len - idx,
        {
            let mut smallest = idx;
            // The earliest of the node and its children.
            if Self::has_left_child(idx, len) {
                let left_idx = Self::left_child(idx);
                if self.heap[left_idx].get_time() < self.heap[smallest].get_time() {
                    smallest = left_idx;
                }
            }
            if Self::has_right_child(idx, len) {
                let right_idx = Self::right_child(idx);
                if self.heap[right_idx].get_time() < self.heap[smallest].get_time() {
                    smallest = right_idx;
                }
            }
            let ghost s = self.heap@;
            proof {
                let x = idx as int;
                assert forall|c: int| 0 < c < s.len() && parent_of(c) == x implies s[smallest as int].time()
                    <= #[trigger] s[c].time() by {
                    assert(c == 2 * x + 1 || c == 2 * x + 2);
                }
            }
            if smallest != idx {
                self.swap_nodes(idx, smallest);
                proof {
                    let s2 = self.heap@;
                    let x = idx as int;
                    let m = smallest as int;
                    assert(parent_of(m) == x);
                    assert(s2[x] == s[m] && s2[m] == s[x]);
                    assert forall|i: int| 0 < i < s2.len() && parent_of(i) != m implies #[trigger] edge_ok(
                        s2,
                        i,
                    ) by {
                        if i == x {
                            assert(s[parent_of(x)].time() <= s[m].time());
                        } else if i == m {
                        } else if parent_of(i) == x {
                        } else {
                            assert(edge_ok(s, i));
                            assert(s2[i] == s[i]);
                            assert(s2[parent_of(i)] == s[parent_of(i)]);
                        }
                    }
                    assert forall|c: int| 0 < c < s2.len() && #[trigger] parent_of(c) == m implies s2[parent_of(
                        m,
                    )].time() <= s2[c].time() by {
                        assert(edge_ok(s, c));
                        assert(s2[c] == s[c]);
                    }
                }
                idx = smallest;
            } else {
                proof {
                    assert forall|i: int| 0 < i < s.len() implies #[trigger] edge_ok(s, i) by {
                        if parent_of(i) == idx as int {
                        }
                    }
                }
                break;
            }
        }
    }

    /// Insert an event and return a handle for later removal: its identifier.
    /// An event with a negative time is rejected, and so is an event whose
    /// identifier a queued event already carries, since the handle names one
    /// event only.
    pub fn insert(&mut self, event: E) -> (r: Result<NodeHandle, String>)
        requires
            old(self).wf(),
            old(self)@.len() < usize::MAX / 4,
        ensures
            final(self).wf(),
            event.time() < 0 ==> {
                &&& r is Err
                &&& r->Err_0@ == negative_time_text()
                &&& final(self)@ == old(self)@
            },
            event.time() >= 0 && contains_id(old(self)@, event.id()) ==> {
                &&& r is Err
                &&& r->Err_0@ == duplicate_id_text()
                &&& final(self)@ == old(self)@
            },
            event.time() >= 0 && !contains_id(old(self)@, event.id()) ==> {
                &&& r == Ok::<NodeHandle, String>(event.id())
                &&& final(self)@ == old(self)@.insert(event)
            },
    {
        // We check that time is not negative otherwise error
        let time = event.get_time();
        if time < 0 {
            return Err(negative_time_message());
        }
        proof {
            broadcast use vstd::seq_lib::group_to_multiset_ensures;
        }
        // A handle must name one event: refuse an identifier already queued
        if self.id_to_index.contains_key(&event.get_id()) {
            proof {
                let s = self.heap@;
                let w = self.id_to_index@[event.id()] as int;
                assert(s.to_multiset().count(s[w]) > 0);
                assert(contains_id(s.to_multiset(), event.id()));
            }
            return Err(duplicate_id_message());
        }
        proof {
            let s = self.heap@;
            if contains_id(s.to_multiset(), event.id()) {
                let e = choose|e: E| s.to_multiset().count(e) > 0 && e.id() == event.id();
                let w = choose|w: int| 0 <= w < s.len() && s[w] == e;
                assert(self.id_to_index@.contains_key(s[w].id()));
            }
        }
        // Place the event as last child of the heap (and record its slot), then
        // make it go up until the heap order holds.
        let event_id = event.get_id();
        let idx = self.heap.len();
        let ghost s = self.heap@;
        let ghost m = self.id_to_index@;
        self.heap.push(event);
        self.id_to_index.insert(event_id, idx);
        proof {
            let s2 = self.heap@;
            let m2 = self.id_to_index@;
            assert forall|k: int| 0 <= k < s2.len() implies #[trigger] m2.contains_key(s2[k].id())
                && m2[s2[k].id()] == k by {
                if k < s.len() {
                    assert(s2[k] == s[k]);
                    assert(m.contains_key(s[k].id()));
                    assert(s[k].id() != event_id) by {
                        if s[k].id() == event_id {
                            assert(s.to_multiset().count(s[k]) > 0);
                        }
                    }
                }
            }
            assert forall|h: u64| #[trigger] m2.contains_key(h) implies m2[h] < s2.len()
                && s2[m2[h] as int].id() == h by {
                if h != event_id {
                    assert(m.contains_key(h));
                }
            }
            assert forall|i: int| 0 < i < s2.len() && i != idx implies #[trigger] edge_ok(s2, i) by {
                assert(edge_ok(s, i));
            }
        }
        self.bubble_up(idx);
        Ok(event_id)
    }

    /// Extract the first (minimum time) event. O(log n)
    pub fn pop_first(&mut self) -> (r: Option<E>)
        requires
            old(self).wf(),
        ensures
            final(self).wf(),
            old(self)@.len() == 0 ==> r is None && final(self)@ == old(self)@,
            old(self)@.len() > 0 ==> {
                &&& r is Some
                &&& old(self)@.count(r->0) > 0
                &&& is_min_time(old(self)@, r->0.time())
                &&& final(self)@ == old(self)@.remove(r->0)
            },
    {
        proof {
            broadcast use vstd::seq_lib::group_to_multiset_ensures;
        }
        // If tree is empty return None
        if self.heap.len() == 0 {
            return None;
        }
        let ghost s = self.heap@;
        proof {
            assert forall|e: E| s.to_multiset().count(e) > 0 implies s[0].time() <= #[trigger] e.time() by {
                let w = choose|w: int| 0 <= w < s.len() && s[w] == e;
                lemma_root_is_min(s, w);
            }
            assert(s.to_multiset().count(s[0]) > 0);
        }
        let event = if self.heap.len() == 1 {
            // If heap has just one element remove it and return it
            self.heap.pop().unwrap()
        } else {
            // Otherwise swap it with the last node, pop it, record the new slot of
            // the previous last node (now at the top) and push it down until the
            // heap order holds
            let last_idx = self.heap.len() - 1;
            swap_entries(&mut self.heap, 0, last_idx);
            let event = self.heap.pop().unwrap();
            let top_id = self.heap[0].get_id();
            self.id_to_index.insert(top_id, 0);
            proof {
                let s2 = self.heap@;
                assert(s2 =~= s.update(0, s[last_idx as int]).drop_last());
                assert forall|i: int| 0 < i < s2.len() && parent_of(i) != 0 implies #[trigger] edge_ok(
                    s2,
                    i,
                ) by {
                    assert(edge_ok(s, i));
                }
            }
            event
        };
        // Remove mapping of for removed event and return event
        self.id_to_index.remove(&event.get_id());
        proof {
            let s2 = self.heap@;
            let m2 = self.id_to_index@;
            let n = s.len();
            assert(event == s[0]);
            if n == 1 {
                assert(s2 =~= Seq::<E>::empty());
            }
            assert forall|k: int| 0 <= k < s2.len() implies #[trigger] m2.contains_key(s2[k].id())
                && m2[s2[k].id()] == k by {
                let ok = if k == 0 { n - 1 } else { k };
                assert(s2[k] == s[ok]);
                Self::lemma_ids_distinct(s, old(self).id_to_index@, ok, 0);
                if k > 0 && n > 1 {
                    Self::lemma_ids_distinct(s, old(self).id_to_index@, ok, n - 1);
                }
            }
            assert forall|h: u64| #[trigger] m2.contains_key(h) implies m2[h] < s2.len()
                && s2[m2[h] as int].id() == h by {
                let w = m2[h] as int;
                if w == 0 && n > 1 {
                    assert(s2[0] == s[n - 1]);
                } else {
                    assert(s[w].id() == h);
                    assert(w != n - 1 || n == 1);
                }
            }
            assert(s2.to_multiset() =~= s.to_multiset().remove(s[0])) by {
                if n > 1 {
                    lemma_swapped_multiset(s, 0, n - 1);
                    let sw = swapped(s, 0, n - 1);
                    assert(sw.drop_last() =~= s2);
                    assert(sw.last() == s[0]);
                    vstd::seq_lib::to_multiset_remove(sw, n - 1);
                    assert(sw.remove(n - 1) =~= s2);
                } else {
                    vstd::seq_lib::to_multiset_remove(s, 0);
                    assert(s.remove(0) =~= s2);
                }
            }
        }
        if self.heap.len() > 0 {
            self.bubble_down(0);
        }
        Some(event)
    }

    /// Peek at the time of the first event
    pub fn peek_first(&self) -> (r: Option<SimTime>)
        requires
            self.wf(),
        ensures
            self@.len() == 0 ==> r is None,
            self@.len() > 0 ==> r is Some && is_min_time(self@, r->0),
    {
        proof {
            broadcast use vstd::seq_lib::group_to_multiset_ensures;
            let s = self.heap@;
            if s.len() > 0 {
                assert forall|e: E| s.to_multiset().count(e) > 0 implies s[0].time() <= #[trigger] e.time() by {
                    let w = choose|w: int| 0 <= w < s.len() && s[w] == e;
                    lemma_root_is_min(s, w);
                }
                assert(s.to_multiset().count(s[0]) > 0);
            }
        }
        if self.heap.len() == 0 {
            None
        } else {
            Some(self.heap[0].get_time())
        }
    }

    /// Check if queue is empty
    pub fn is_empty(&self) -> (r: bool)
        requires
            self.wf(),
        ensures
            r == (self@.len() == 0),
    {
        proof {
            broadcast use vstd::seq_lib::group_to_multiset_ensures;
        }
        self.heap.len() == 0
    }

    /// Number of events in queue
    pub fn len(&self) -> (r: usize)
        requires
            self.wf(),
        ensures
            r == self@.len(),
    {
        proof {
            broadcast use vstd::seq_lib::group_to_multiset_ensures;
        }
        self.heap.len()
    }

    /// Clear all events
    pub fn clear(&mut self)
        requires
            old(self).wf(),
        ensures
            final(self).wf(),
            final(self)@ == Multiset::<E>::empty(),
    {
        self.heap.clear();
        self.id_to_index.clear();
        proof {
            broadcast use vstd::seq_lib::group_to_multiset_ensures;
            assert(self.heap@.to_multiset().len() == 0);
            assert(self@ =~= Multiset::<E>::empty());
        }
    }

    /// Remove the event with identifier `handle`. O(log n). Nothing happens
    /// when no queued event has that identifier.
    pub fn remove(&mut self, handle: NodeHandle)
        requires
            old(self).wf(),
        ensures
            final(self).wf(),
            contains_id(old(self)@, handle) ==> final(self)@ == old(self)@.remove(
                event_with_id(old(self)@, handle),
            ),
            !contains_id(old(self)@, handle) ==> final(self)@ == old(self)@,
    {
        proof {
            broadcast use vstd::seq_lib::group_to_multiset_ensures;
        }
        let ghost s = self.heap@;
        let ghost m = self.id_to_index@;
        proof {
            if contains_id(s.to_multiset(), handle) {
                let e = choose|e: E| s.to_multiset().count(e) > 0 && e.id() == handle;
                let w = choose|w: int| 0 <= w < s.len() && s[w] == e;
                assert(m.contains_key(s[w].id()));
            }
        }
        // If the handle is not in the map the event is not in the heap
        let idx = match self.id_to_index.get(&handle) {
            Some(i) => *i,
            None => {
                proof {
                    assert(!contains_id(s.to_multiset(), handle));
                }
                return;
            },
        };
        // If idx is not valid return (this cannot happen in a well-formed heap)
        if idx >= self.heap.len() {
            return;
        }
        proof {
            let e = s[idx as int];
            assert(e.id() == handle);
            assert(s.to_multiset().count(e) > 0);
            assert(contains_id(s.to_multiset(), handle));
            let c = event_with_id(s.to_multiset(), handle);
            let w = choose|w: int| 0 <= w < s.len() && s[w] == c;
            assert(m.contains_key(s[w].id()));
            assert(c == e);
        }
        // Remove the index from the map
        self.id_to_index.remove(&handle);
        let last_idx = self.heap.len() - 1;
        if idx == last_idx {
            // If it's the last element, just remove it
            self.heap.pop();
            proof {
                let s2 = self.heap@;
                let m2 = self.id_to_index@;
                assert(s2 =~= s.drop_last());
                assert forall|k: int| 0 <= k < s2.len() implies #[trigger] m2.contains_key(s2[k].id())
                    && m2[s2[k].id()] == k by {
                    assert(s[k].id() != handle);
                }
                assert forall|i: int| 0 < i < s2.len() implies #[trigger] edge_ok(s2, i) by {
                    assert(edge_ok(s, i));
                }
                vstd::seq_lib::to_multiset_remove(s, last_idx as int);
                assert(s.remove(last_idx as int) =~= s2);
            }
            return;
        }
        // Otherwise move the last element into the freed slot (recording its new
        // slot) and drop the last slot
        swap_entries(&mut self.heap, idx, last_idx);
        let swapped_id = self.heap[idx].get_id();
        self.id_to_index.insert(swapped_id, idx);
        self.heap.pop();
        let ghost s1 = self.heap@;
        proof {
            let m2 = self.id_to_index@;
            let n = s.len();
            let x = idx as int;
            assert(s1 =~= s.update(x, s[n - 1]).drop_last());
            assert forall|k: int| 0 <= k < s1.len() implies #[trigger] m2.contains_key(s1[k].id())
                && m2[s1[k].id()] == k by {
                let ok = if k == x { n - 1 } else { k };
                assert(s1[k] == s[ok]);
                assert(s[ok].id() != handle);
            }
            assert forall|h: u64| #[trigger] m2.contains_key(h) implies m2[h] < s1.len()
                && s1[m2[h] as int].id() == h by {
                let w = m2[h] as int;
                if h != swapped_id {
                    assert(m.contains_key(h));
                    assert(s[w].id() == h);
                    assert(w != x && w != n - 1);
                }
            }
            assert(s1.to_multiset() =~= s.to_multiset().remove(s[x])) by {
                lemma_swapped_multiset(s, x, n - 1);
                let sw = swapped(s, x, n - 1);
                vstd::seq_lib::to_multiset_remove(sw, n - 1);
                assert(sw.remove(n - 1) =~= s1);
            }
            // The moved event either rises (it fires before its new parent) or sinks.
            if x > 0 && s1[x].time() < s1[parent_of(x)].time() {
                assert forall|i: int| 0 < i < s1.len() && i != x implies #[trigger] edge_ok(s1, i) by {
                    assert(edge_ok(s, i));
                    if parent_of(i) == x {
                        assert(edge_ok(s, x));
                    }
                }
                assert forall|c: int| 0 < c < s1.len() && #[trigger] parent_of(c) == x implies s1[parent_of(
                    x,
                )].time() <= s1[c].time() by {
                    assert(edge_ok(s, c));
                    assert(edge_ok(s, x));
                }
            }
        }
        // The previous last element, now at idx, may break the heap order with
        // its parent or with its children: try to move it up, then down; only
        // the right direction swaps anything.
        self.bubble_up(idx);
        proof {
            let s2 = self.heap@;
            let x = idx as int;
            if s2 == s1 {
                assert forall|i: int| 0 < i < s2.len() && parent_of(i) != x implies #[trigger] edge_ok(
                    s2,
                    i,
                ) by {
                    if i != x {
                        assert(edge_ok(s, i));
                    }
                }
                if x > 0 {
                    assert forall|c: int| 0 < c < s2.len() && #[trigger] parent_of(c) == x implies s2[parent_of(
                        x,
                    )].time() <= s2[c].time() by {
                        assert(edge_ok(s, c));
                        assert(edge_ok(s, x));
                    }
                }
            } else {
                assert(heap_ok(s2));
                assert forall|i: int| 0 < i < s2.len() && parent_of(i) != x implies #[trigger] edge_ok(
                    s2,
                    i,
                ) by {}
                if x > 0 {
                    assert forall|c: int| 0 < c < s2.len() && #[trigger] parent_of(c) == x implies s2[parent_of(
                        x,
                    )].time() <= s2[c].time() by {
                        assert(edge_ok(s2, c));
                        assert(edge_ok(s2, x));
                    }
                }
            }
        }
        self.bubble_down(idx);
    }
}

} // verus!
