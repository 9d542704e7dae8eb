use vstd::prelude::*;
use crate::base::sim_time::SimTime;
use crate::base::priority_queue::{
    Event, negative_time_message, negative_time_text, sorted_by_time, lower_bound, times_of, lemma_lower_bound_at, lemma_lower_bound_split,
    lemma_insert_at_lower_bound_sorted, lemma_remove_sorted, lemma_lower_bound_len,
};
use crate::base::priority_queue_dll::Node;

verus! {

/// Index of a slot of the arena.
pub type NodeIdx = usize;

/// The index that stands for "no node".
pub const INVALID_IDX: NodeIdx = usize::MAX;

/// A handle to a node that can be used to remove it from the queue later.
pub type NodeHandle = NodeIdx;

/// Priority queue implemented as a doubly linked list using an arena allocator.
/// Maintains order by event time: smallest time at the head; an event goes
/// before every event already queued at the same time.
/// The nodes live in a vector; `head` and `tail` are the indices of the first
/// and last node, and `free_list` keeps the indices of the slots that hold no
/// node, to be used first when a node is created.
/// Insertion: O(n) worst case. Extraction (pop_first): O(1). Removal: O(1)
/// given a NodeHandle.
pub struct ArenaAcPriorityQueueDLL<E> {
    arena: Vec<Node<E>>,
    head: NodeIdx,
    tail: NodeIdx,
    total_count: usize,
    free_list: Vec<NodeIdx>,
    /// The slots of the list, from head to tail.
    order: Ghost<Seq<NodeIdx>>,
}

/// Putting `h` at position `k` of a sequence and then removing position `k`
/// gives the sequence back; when the sequence does not hold `h`, the result of
/// the insertion holds it at `k` and nowhere else.
pub proof fn lemma_insert_fresh_then_remove<A>(s: Seq<A>, k: int, h: A)
    requires
        0 <= k <= s.len(),
    ensures
        s.insert(k, h).remove(k) == s,
        s.insert(k, h).contains(h),
        !s.contains(h) ==> s.insert(k, h).index_of(h) == k,
{
    let t = s.insert(k, h);
    assert(t.remove(k) =~= s);
    assert(t[k] == h);
    if !s.contains(h) {
        let w = t.index_of(h);
        assert(0 <= w < t.len() && t[w] == h);
        if w < k {
            assert(s[w] == h);
        } else if w > k {
            assert(s[w - 1] == h);
        }
    }
}

impl<E: Event> ArenaAcPriorityQueueDLL<E> {
    /// The queued events, from head to tail.
    pub closed spec fn view(&self) -> Seq<E> {
        Seq::new(self.order@.len(), |k: int| self.arena@[self.order@[k] as int].event->0)
    }

    /// The handles of the queued events, in the same order as `view`.
    pub closed spec fn handles(&self) -> Seq<NodeHandle> {
        self.order@
    }

    /// The free slots, the last of which is used by the next insertion.
    pub closed spec fn spare_slots(&self) -> Seq<NodeIdx> {
        self.free_list@
    }

    /// The number of slots of the arena, occupied or not.
    pub closed spec fn slot_count(&self) -> nat {
        self.arena@.len()
    }

    spec fn prev_of(&self, k: int) -> NodeIdx {
        if k == 0 {
            INVALID_IDX
        } else {
            self.order@[k - 1]
        }
    }

    spec fn next_of(&self, k: int) -> NodeIdx {
        if k + 1 == self.order@.len() {
            INVALID_IDX
        } else {
            self.order@[k + 1]
        }
    }

    /// The node at position `k` of the list is in the arena, holds an event,
    /// and is linked to its neighbours in the list.
    spec fn node_ok(&self, k: int) -> bool {
        let i = self.order@[k];
        &&& i < self.arena@.len()
        &&& self.arena@[i as int].event is Some
        &&& self.arena@[i as int].prev == self.prev_of(k)
        &&& self.arena@[i as int].next == self.next_of(k)
    }

    spec fn free_ok(&self, f: int) -> bool {
        &&& self.free_list@[f] < self.arena@.len()
        &&& !self.order@.contains(self.free_list@[f])
    }

    /// Well-formedness: the links describe the list `order`, the counter is its
    /// length, every slot is either on the list or on the free list, and the
    /// events are sorted by time.
    pub closed spec fn wf(&self) -> bool {
        &&& self.arena@.len() <= usize::MAX
        &&& self.order@.no_duplicates()
        &&& forall|k: int| 0 <= k < self.order@.len() ==> #[trigger] self.node_ok(k)
        &&& self.head == if self.order@.len() == 0 {
            INVALID_IDX
        } else {
            self.order@[0]
        }
        &&& self.tail == if self.order@.len() == 0 {
            INVALID_IDX
        } else {
            self.order@.last()
        }
        &&& self.total_count == self.order@.len()
        &&& self.free_list@.no_duplicates()
        &&& forall|f: int| 0 <= f < self.free_list@.len() ==> #[trigger] self.free_ok(f)
        &&& self.arena@.len() == self.order@.len() + self.free_list@.len()
        &&& sorted_by_time(self.view())
    }

    /// In a well-formed queue the handles are distinct, one per queued event,
    /// and the events are sorted by time.
    pub proof fn lemma_wf_facts(&self)
        requires
            self.wf(),
        ensures
            self.handles().no_duplicates(),
            self.handles().len() == self@.len(),
            sorted_by_time(self@),
    {
    }

    /// Removing the node that an insertion has just created gives back the
    /// queue as it was: the handle that `insert` returns is held by no queued
    /// event, it stands where the event went, and removing that position from
    /// the events and from the handles undoes the insertion.
    pub proof fn law_remove_undoes_insert(&self, event: E)
        requires
            self.wf(),
        ensures
            ({
                let k = lower_bound(self@, event.time()) as int;
                let h = self.next_handle();
                let hs = self.handles().insert(k, h);
                &&& !self.handles().contains(h)
                &&& hs.contains(h)
                &&& hs.index_of(h) == k
                &&& hs.remove(k) == self.handles()
                &&& self@.insert(k, event).remove(k) == self@
            }),
    {
        let k = lower_bound(self@, event.time()) as int;
        let h = self.next_handle();
        lemma_lower_bound_len(self@, event.time());
        if self.order@.contains(h) {
            let w = choose|w: int| 0 <= w < self.order@.len() && self.order@[w] == h;
            assert(self.node_ok(w));
            if self.free_list@.len() > 0 {
                assert(self.free_ok(self.free_list@.len() - 1));
            }
        }
        lemma_insert_fresh_then_remove(self.order@, k, h);
        lemma_insert_fresh_then_remove(self@, k, event);
    }

    /// Create a new arena-based priority queue with an initial capacity: all
    /// its slots are free, and the first insertion uses the last of them.
    pub fn with_capacity(capacity: usize) -> (r: Self)
        ensures
            r.wf(),
            r@ == Seq::<E>::empty(),
            r.handles() == Seq::<NodeHandle>::empty(),
            r.slot_count() == capacity,
            r.spare_slots() == Seq::new(capacity as nat, |i: int| i as NodeIdx),
    {
        let mut arena: Vec<Node<E>> = Vec::with_capacity(capacity);
        let mut free_list: Vec<NodeIdx> = Vec::with_capacity(capacity);
        let mut i: usize = 0;
        while i < capacity
            invariant
                i <= capacity,
                arena@.len() == i,
                free_list@ == Seq::new(i as nat, |j: int| j as NodeIdx),
            decreases capacity - i,
        {
            arena.push(Node { event: None, prev: INVALID_IDX, next: INVALID_IDX });
            free_list.push(i);
            i = i + 1;
        }
        let r = ArenaAcPriorityQueueDLL {
            arena,
            head: INVALID_IDX,
            tail: INVALID_IDX,
            total_count: 0,
            free_list,
            order: Ghost(Seq::empty()),
        };
        assert(r@ =~= Seq::<E>::empty());
        assert forall|f: int| 0 <= f < r.free_list@.len() implies #[trigger] r.free_ok(f) by {
            assert(r.free_list@[f] == f);
        }
        r
    }

    /// Create a new arena-based priority queue with a default capacity of 1024.
    pub fn new() -> (r: Self)
        ensures
            r.wf(),
            r@ == Seq::<E>::empty(),
            r.handles() == Seq::<NodeHandle>::empty(),
            r.slot_count() == 1024,
            r.spare_slots() == Seq::new(1024, |i: int| i as NodeIdx),
    {
        Self::with_capacity(1024)
    }

    /// Helper function that gets reference to a Node given the index
    fn get_node(&self, idx: NodeIdx) -> (r: &Node<E>)
        requires
            idx < self.arena@.len(),
        ensures
            *r == self.arena@[idx as int],
    {
        &self.arena[idx]
    }

    /// Helper function that gets mutable reference to a Node given the index
    fn get_node_mut(&mut self, idx: NodeIdx) -> (r: &mut Node<E>)
        requires
            idx < old(self).arena@.len(),
        ensures
            *r == old(self).arena@[idx as int],
            final(self).arena@ == old(self).arena@.update(idx as int, *final(r)),
            final(self).head == old(self).head,
            final(self).tail == old(self).tail,
            final(self).total_count == old(self).total_count,
            final(self).free_list == old(self).free_list,
            final(self).order == old(self).order,
    {
        &mut self.arena[idx]
    }

    /// The handle that the next insertion returns: the last free slot, or a new
    /// slot at the end of the arena when none is free.
    pub open spec fn next_handle(&self) -> NodeHandle {
        if self.spare_slots().len() > 0 {
            self.spare_slots().last()
        } else {
            self.slot_count() as NodeHandle
        }
    }

    /// The queue is well formed except that slot `n`, which holds `e` and no
    /// links, is on neither the list nor the free list.
    spec fn ready_to_link(&self, n: NodeIdx, e: E) -> bool {
        &&& self.arena@.len() <= usize::MAX
        &&& self.order@.no_duplicates()
        &&& forall|k: int| 0 <= k < self.order@.len() ==> #[trigger] self.node_ok(k)
        &&& self.head == if self.order@.len() == 0 {
            INVALID_IDX
        } else {
            self.order@[0]
        }
        &&& self.tail == if self.order@.len() == 0 {
            INVALID_IDX
        } else {
            self.order@.last()
        }
        &&& self.total_count == self.order@.len()
        &&& self.total_count < usize::MAX
        &&& self.free_list@.no_duplicates()
        &&& forall|f: int| 0 <= f < self.free_list@.len() ==> #[trigger] self.free_ok(f)
        &&& !self.free_list@.contains(n)
        &&& self.arena@.len() == self.order@.len() + self.free_list@.len() + 1
        &&& sorted_by_time(self.view())
        &&& n < self.arena@.len()
        &&& !self.order@.contains(n)
        &&& self.arena@[n as int] == (Node { event: Some(e), prev: INVALID_IDX, next: INVALID_IDX })
    }

    /// Helper function that puts a new Node holding `event` in a free slot of
    /// the arena (or in a new slot when none is free) and returns its index.
    /// The node is not linked yet.
    fn allocate(&mut self, event: E) -> (idx: NodeIdx)
        requires
            old(self).wf(),
            old(self).order@.len() < usize::MAX,
        ensures
            idx == old(self).next_handle(),
            final(self).ready_to_link(idx, event),
            final(self)@ == old(self)@,
            final(self).order == old(self).order,
            final(self).free_list@ == if old(self).free_list@.len() > 0 {
                old(self).free_list@.drop_last()
            } else {
                old(self).free_list@
            },
            final(self).arena@.len() == if old(self).free_list@.len() > 0 {
                old(self).arena@.len()
            } else {
                old(self).arena@.len() + 1
            },
    {
        let ghost pre = *self;
        proof {
            if self.free_list@.len() > 0 {
                assert(self.free_ok(self.free_list@.len() - 1));
            }
            assert forall|w: int| 0 <= w < pre.order@.len() implies #[trigger] pre.order@[w]
                < pre.arena@.len() by {
                assert(pre.node_ok(w));
            }
        }
        let idx = match self.free_list.pop() {
            Some(idx) => {
                self.arena[idx] = Node::new(event);
                idx
            },
            None => {
                let idx = self.arena.len();
                self.arena.push(Node::new(event));
                idx
            },
        };
        proof {
            assert forall|i: int|
                0 <= i < pre.arena@.len() && i != idx implies #[trigger] self.arena@[i]
                == pre.arena@[i] by {}
            assert forall|k: int| 0 <= k < self.order@.len() implies #[trigger] self.node_ok(k) by {
                assert(pre.node_ok(k));
            }
            assert forall|f: int| 0 <= f < self.free_list@.len() implies #[trigger] self.free_ok(f) by {
                assert(pre.free_ok(f));
                assert(self.free_list@[f] == pre.free_list@[f]);
            }
            if pre.free_list@.len() > 0 {
                assert(pre.free_list@.last() == pre.free_list@[pre.free_list@.len() - 1]);
                assert(!self.free_list@.contains(idx)) by {
                    if self.free_list@.contains(idx) {
                        let w = choose|w: int| 0 <= w < self.free_list@.len() && self.free_list@[w] == idx;
                        assert(pre.free_list@[w] == pre.free_list@[pre.free_list@.len() - 1]);
                    }
                }
            } else {
                assert(!self.free_list@.contains(idx));
            }
            assert(self@ =~= pre@) by {
                assert forall|j: int| 0 <= j < self.order@.len() implies #[trigger] self@[j] == pre@[j] by {
                    assert(pre.node_ok(j));
                }
            }
        }
        idx
    }

    /// Links the unlinked node `n` right before the node at position `k` of the list.
    fn link_before(&mut self, n: NodeIdx, current: NodeIdx, Ghost(k): Ghost<int>, Ghost(e): Ghost<E>)
        requires
            old(self).ready_to_link(n, e),
            0 <= k < old(self).order@.len(),
            current == old(self).order@[k],
            k == lower_bound(old(self)@, e.time()),
        ensures
            final(self).wf(),
            final(self)@ == old(self)@.insert(k, e),
            final(self).order@ == old(self).order@.insert(k, n),
            final(self).free_list == old(self).free_list,
            final(self).arena@.len() == old(self).arena@.len(),
    {
        let ghost pre = *self;
        let ghost o = pre.order@;
        proof {
            assert(pre.node_ok(k));
            if k > 0 {
                assert(pre.node_ok(k - 1));
            }
        }
        let prev_idx = self.get_node(current).prev;
        self.get_node_mut(current).prev = n;
        self.get_node_mut(n).next = current;
        if prev_idx != INVALID_IDX {
            self.get_node_mut(n).prev = prev_idx;
            self.get_node_mut(prev_idx).next = n;
        } else {
            self.head = n;
            self.get_node_mut(n).prev = INVALID_IDX;
        }
        self.total_count = self.total_count + 1;
        proof {
            let o2 = o.insert(k, n);
            self.order@ = o2;
            assert forall|i: int|
                0 <= i < pre.arena@.len() && i != n && i != current && i != prev_idx
                implies #[trigger] self.arena@[i] == pre.arena@[i] by {}
            assert forall|j: int| 0 <= j < o2.len() implies #[trigger] self.node_ok(j) by {
                if j < k {
                    assert(o2[j] == o[j]);
                    assert(pre.node_ok(j));
                    if j + 1 < k {
                        assert(o2[j + 1] == o[j + 1]);
                    }
                    if j > 0 {
                        assert(o2[j - 1] == o[j - 1]);
                    }
                    if o[j] == current {
                        assert(j == k);
                    }
                } else if j == k {
                    assert(o2[j] == n);
                    if k > 0 {
                        assert(o2[k - 1] == o[k - 1]);
                    }
                    assert(o2[k + 1] == o[k]);
                } else {
                    assert(o2[j] == o[j - 1]);
                    assert(pre.node_ok(j - 1));
                    if j - 1 > k {
                        assert(o2[j - 1] == o[j - 2]);
                        if o[j - 1] == prev_idx {
                            assert(o[j - 1] == o[k - 1]);
                        }
                    }
                    if j + 1 < o2.len() {
                        assert(o2[j + 1] == o[j]);
                    }
                }
            }
            assert(o2.no_duplicates()) by {
                assert forall|a: int, b: int|
                    0 <= a < o2.len() && 0 <= b < o2.len() && a != b implies o2[a] != o2[b] by {
                    let oa = if a < k { a } else { a - 1 };
                    let ob = if b < k { b } else { b - 1 };
                    if a != k {
                        assert(o2[a] == o[oa]);
                        assert(o.contains(o[oa]));
                    }
                    if b != k {
                        assert(o2[b] == o[ob]);
                        assert(o.contains(o[ob]));
                    }
                }
            }
            assert forall|f: int| 0 <= f < self.free_list@.len() implies #[trigger] self.free_ok(f) by {
                assert(pre.free_ok(f));
                if o2.contains(self.free_list@[f]) {
                    let w = choose|w: int| 0 <= w < o2.len() && o2[w] == self.free_list@[f];
                    if w != k {
                        let ow = if w < k { w } else { w - 1 };
                        assert(o2[w] == o[ow]);
                        assert(o.contains(o[ow]));
                    } else {
                        assert(self.free_list@.contains(n));
                    }
                }
            }
            assert(self@ =~= pre@.insert(k, e)) by {
                assert forall|j: int| 0 <= j < o2.len() implies #[trigger] self@[j] == pre@.insert(k, e)[j] by {
                    if j < k {
                        assert(o2[j] == o[j]);
                        assert(pre.node_ok(j));
                    } else if j > k {
                        assert(o2[j] == o[j - 1]);
                        assert(pre.node_ok(j - 1));
                    }
                }
            }
            lemma_insert_at_lower_bound_sorted(pre@, e);
            assert(self.node_ok(0));
            assert(self.node_ok(o2.len() - 1));
        }
    }

    /// Links the unlinked node `n` at the end of the list.
    fn link_last(&mut self, n: NodeIdx, Ghost(e): Ghost<E>)
        requires
            old(self).ready_to_link(n, e),
            lower_bound(old(self)@, e.time()) == old(self)@.len(),
        ensures
            final(self).wf(),
            final(self)@ == old(self)@.push(e),
            final(self).order@ == old(self).order@.push(n),
            final(self).free_list == old(self).free_list,
            final(self).arena@.len() == old(self).arena@.len(),
    {
        let ghost pre = *self;
        let ghost o = pre.order@;
        proof {
            if o.len() > 0 {
                assert(pre.node_ok(o.len() - 1));
            }
        }
        if self.tail != INVALID_IDX {
            let tail = self.tail;
            self.get_node_mut(tail).next = n;
            self.get_node_mut(n).prev = tail;
        } else {
            self.head = n;
        }
        self.tail = n;
        self.total_count = self.total_count + 1;
        proof {
            let o2 = o.push(n);
            self.order@ = o2;
            assert forall|j: int| 0 <= j < o2.len() implies #[trigger] self.node_ok(j) by {
                if j < o.len() {
                    assert(o2[j] == o[j]);
                    assert(pre.node_ok(j));
                    if j > 0 {
                        assert(o2[j - 1] == o[j - 1]);
                    }
                    if j + 1 < o.len() {
                        assert(o2[j + 1] == o[j + 1]);
                    }
                }
            }
            assert(o2.no_duplicates()) by {
                assert forall|a: int, b: int|
                    0 <= a < o2.len() && 0 <= b < o2.len() && a != b implies o2[a] != o2[b] by {
                    if a < o.len() {
                        assert(o.contains(o[a]));
                    }
                    if b < o.len() {
                        assert(o.contains(o[b]));
                    }
                }
            }
            assert forall|f: int| 0 <= f < self.free_list@.len() implies #[trigger] self.free_ok(f) by {
                assert(pre.free_ok(f));
                if o2.contains(self.free_list@[f]) {
                    let w = choose|w: int| 0 <= w < o2.len() && o2[w] == self.free_list@[f];
                    if w < o.len() {
                        assert(o.contains(o[w]));
                    } else {
                        assert(self.free_list@.contains(n));
                    }
                }
            }
            assert(self@ =~= pre@.push(e)) by {
                assert forall|j: int| 0 <= j < o.len() implies #[trigger] self@[j] == pre@[j] by {
                    assert(pre.node_ok(j));
                }
            }
            assert(pre@.push(e) == pre@.insert(pre@.len() as int, e));
            lemma_insert_at_lower_bound_sorted(pre@, e);
            assert(self.node_ok(0));
            assert(self.node_ok(o2.len() - 1));
        }
    }

    /// Helper function that empties a slot and puts it on the free list.
    fn deallocate(&mut self, idx: NodeIdx)
        requires
            idx < old(self).arena@.len(),
        ensures
            final(self).arena@ == old(self).arena@.update(
                idx as int,
                Node { event: None, ..old(self).arena@[idx as int] },
            ),
            final(self).free_list@ == old(self).free_list@.push(idx),
            final(self).head == old(self).head,
            final(self).tail == old(self).tail,
            final(self).total_count == old(self).total_count,
            final(self).order == old(self).order,
    {
        self.arena[idx].event = None;
        self.free_list.push(idx);
    }

    /// The slot of the first queued event that fires at or after `time`, or
    /// `INVALID_IDX` when every queued event fires before `time`.
    fn find_insert_position(&self, time: SimTime) -> (r: NodeIdx)
        requires
            self.wf(),
        ensures
            r == if lower_bound(self@, time) < self@.len() {
                self.order@[lower_bound(self@, time) as int]
            } else {
                INVALID_IDX
            },
    {
        let ghost n = self.order@.len() as int;
        let ghost mut k: int = 0;
        let mut current = self.head;
        proof {
            if n > 0 {
                assert(self.node_ok(0));
            }
        }
        while current != INVALID_IDX
            invariant
                self.wf(),
                n == self.order@.len(),
                0 <= k <= n,
                current == if k < n {
                    self.order@[k]
                } else {
                    INVALID_IDX
                },
                k < n ==> self.node_ok(k),
                forall|i: int| 0 <= i < k ==> #[trigger] self@[i].time() < time,
            ensures
                0 <= k <= n,
                current == if k < n {
                    self.order@[k]
                } else {
                    INVALID_IDX
                },
                forall|i: int| 0 <= i < k ==> #[trigger] self@[i].time() < time,
                k < n ==> self@[k].time() >= time,
            decreases n - k,
        {
            let node = self.get_node(current);
            let curr_time = node.event.as_ref().unwrap().get_time();
            if curr_time >= time {
                break;
            }
            current = node.next;
            proof {
                k = k + 1;
                if k < n {
                    assert(self.node_ok(k));
                }
            }
        }
        proof {
            lemma_lower_bound_at(self@, time, k);
        }
        current
    }

    /// Insert an event ordered by time and return a NodeHandle (used to remove
    /// the node). The event goes before every event already queued at the same
    /// time; an event with a negative time is rejected.
    pub fn insert(&mut self, event: E) -> (r: Result<NodeHandle, String>)
        requires
            old(self).wf(),
            old(self)@.len() < usize::MAX,
        ensures
            final(self).wf(),
            event.time() < 0 ==> {
                &&& r is Err
                &&& r->Err_0@ == negative_time_text()
                &&& final(self)@ == old(self)@
                &&& final(self).handles() == old(self).handles()
                &&& final(self).spare_slots() == old(self).spare_slots()
                &&& final(self).slot_count() == old(self).slot_count()
            },
            event.time() >= 0 ==> {
                let k = lower_bound(old(self)@, event.time()) as int;
                &&& r == Ok::<NodeHandle, String>(old(self).next_handle())
                &&& final(self)@ == old(self)@.insert(k, event)
                &&& final(self).handles() == old(self).handles().insert(k, old(self).next_handle())
                &&& final(self).spare_slots() == if old(self).spare_slots().len() > 0 {
                    old(self).spare_slots().drop_last()
                } else {
                    old(self).spare_slots()
                }
                &&& final(self).slot_count() == if old(self).spare_slots().len() > 0 {
                    old(self).slot_count()
                } else {
                    old(self).slot_count() + 1
                }
            },
    {
        // Checks that time is not negative
        let time = event.get_time();
        if time < 0 {
            return Err(negative_time_message());
        }
        // Find the first node whose time is >= the new time: the new node goes
        // right before it, or at the end when there is none.
        let current = self.find_insert_position(time);
        let ghost k = lower_bound(self@, time) as int;
        proof {
            lemma_lower_bound_len(self@, time);
            if k < self.order@.len() {
                assert(self.node_ok(k));
            }
        }
        // Creates new node with the event, then links it in.
        let new_idx = self.allocate(event);
        if current != INVALID_IDX {
            self.link_before(new_idx, current, Ghost(k), Ghost(event));
        } else {
            self.link_last(new_idx, Ghost(event));
            proof {
                assert(old(self)@.push(event) =~= old(self)@.insert(k, event));
                assert(old(self).order@.push(new_idx) =~= old(self).order@.insert(k, new_idx));
            }
        }
        Ok(new_idx)
    }

    /// Extract the first (minimum time) event; its slot becomes the last free slot.
    pub fn pop_first(&mut self) -> (r: Option<E>)
        requires
            old(self).wf(),
        ensures
            final(self).wf(),
            final(self).slot_count() == old(self).slot_count(),
            old(self)@.len() == 0 ==> {
                &&& r is None
                &&& final(self)@ == old(self)@
                &&& final(self).handles() == old(self).handles()
                &&& final(self).spare_slots() == old(self).spare_slots()
            },
            old(self)@.len() > 0 ==> {
                &&& r == Some(old(self)@[0])
                &&& final(self)@ == old(self)@.drop_first()
                &&& final(self).handles() == old(self).handles().drop_first()
                &&& final(self).spare_slots() == old(self).spare_slots().push(old(self).handles()[0])
            },
    {
        let ghost pre = *self;
        let ghost o = pre.order@;
        proof {
            if o.len() > 0 {
                assert(pre.node_ok(0));
                assert(pre.node_ok(o.len() - 1));
            }
            if o.len() > 1 {
                assert(pre.node_ok(1));
            }
        }
        // If empty list return None
        if self.head == INVALID_IDX {
            return None;
        }
        // The head leaves the list: its successor, if any, becomes the head.
        let extracted_idx = self.head;
        let new_head_idx = self.get_node(extracted_idx).next;
        if new_head_idx != INVALID_IDX {
            self.head = new_head_idx;
            self.get_node_mut(new_head_idx).prev = INVALID_IDX;
        } else {
            self.tail = INVALID_IDX;
            self.head = INVALID_IDX;
        }
        self.total_count = self.total_count - 1;
        let event = self.get_node_mut(extracted_idx).event.take();
        self.deallocate(extracted_idx);
        proof {
            let o2 = o.drop_first();
            self.order@ = o2;
            assert forall|i: int|
                0 <= i < pre.arena@.len() && i != extracted_idx && i != new_head_idx
                implies #[trigger] self.arena@[i] == pre.arena@[i] by {}
            assert forall|j: int| 0 <= j < o2.len() implies #[trigger] self.node_ok(j) by {
                assert(o2[j] == o[j + 1]);
                assert(pre.node_ok(j + 1));
                if j > 0 {
                    assert(o2[j - 1] == o[j]);
                }
                if j + 1 < o2.len() {
                    assert(o2[j + 1] == o[j + 2]);
                }
                assert(o.contains(o[j + 1]));
            }
            assert forall|f: int| 0 <= f < self.free_list@.len() implies #[trigger] self.free_ok(f) by {
                if f < pre.free_list@.len() {
                    assert(pre.free_ok(f));
                    assert(self.free_list@[f] == pre.free_list@[f]);
                    if o2.contains(self.free_list@[f]) {
                        let w = choose|w: int| 0 <= w < o2.len() && o2[w] == self.free_list@[f];
                        assert(o[w + 1] == o2[w]);
                        assert(o.contains(o[w + 1]));
                    }
                } else {
                    if o2.contains(extracted_idx) {
                        let w = choose|w: int| 0 <= w < o2.len() && o2[w] == extracted_idx;
                        assert(o[w + 1] == o2[w]);
                    }
                }
            }
            assert(self.free_list@.no_duplicates()) by {
                assert(!pre.free_list@.contains(extracted_idx)) by {
                    if pre.free_list@.contains(extracted_idx) {
                        let w = choose|w: int| 0 <= w < pre.free_list@.len() && pre.free_list@[w] == extracted_idx;
                        assert(pre.free_ok(w));
                        assert(o.contains(o[0]));
                    }
                }
            }
            assert(self@ =~= pre@.drop_first()) by {
                assert forall|j: int| 0 <= j < o2.len() implies #[trigger] self@[j] == pre@[j + 1] by {
                    assert(pre.node_ok(j + 1));
                    assert(o[j + 1] != o[0]);
                }
            }
            lemma_remove_sorted(pre@, 0);
            assert(pre@.remove(0) =~= pre@.drop_first());
            if o2.len() > 0 {
                assert(self.node_ok(0));
                assert(self.node_ok(o2.len() - 1));
            }
        }
        event
    }

    /// Remove a specific event given its NodeHandle. O(1). Its slot becomes
    /// the last free slot.
    #[verifier::rlimit(60)]
    #[verifier::spinoff_prover]
    pub fn remove(&mut self, node_idx: NodeHandle)
        requires
            old(self).wf(),
            old(self).handles().contains(node_idx),
        ensures
            final(self).wf(),
            ({
                let k = old(self).handles().index_of(node_idx);
                &&& final(self)@ == old(self)@.remove(k)
                &&& final(self).handles() == old(self).handles().remove(k)
            }),
            final(self).spare_slots() == old(self).spare_slots().push(node_idx),
            final(self).slot_count() == old(self).slot_count(),
    {
        let ghost pre = *self;
        let ghost o = pre.order@;
        let ghost k = o.index_of(node_idx);
        proof {
            assert(pre.node_ok(k));
            if k > 0 {
                assert(pre.node_ok(k - 1));
            }
            if k + 1 < o.len() {
                assert(pre.node_ok(k + 1));
            }
            assert(pre.node_ok(o.len() - 1));
            assert(pre.node_ok(0));
        }
        let prev_idx = self.get_node(node_idx).prev;
        let next_idx = self.get_node(node_idx).next;
        // The successor, if any, now follows the predecessor; otherwise the
        // predecessor becomes the tail.
        if next_idx != INVALID_IDX {
            self.get_node_mut(next_idx).prev = prev_idx;
        } else {
            self.tail = prev_idx;
        }
        // The predecessor, if any, now precedes the successor; otherwise the
        // successor becomes the head.
        if prev_idx != INVALID_IDX {
            self.get_node_mut(prev_idx).next = next_idx;
        } else {
            self.head = next_idx;
        }
        self.total_count = self.total_count - 1;
        self.deallocate(node_idx);
        proof {
            let o2 = o.remove(k);
            self.order@ = o2;
            assert forall|i: int|
                0 <= i < pre.arena@.len() && i != node_idx && i != prev_idx && i != next_idx
                implies #[trigger] self.arena@[i] == pre.arena@[i] by {}
            assert forall|j: int| 0 <= j < o2.len() implies #[trigger] self.node_ok(j) by {
                let oj = if j < k { j } else { j + 1 };
                assert(o2[j] == o[oj]);
                assert(pre.node_ok(oj));
                assert(o[oj] != node_idx);
                if j > 0 {
                    let op = if j - 1 < k { j - 1 } else { j };
                    assert(o2[j - 1] == o[op]);
                }
                if j + 1 < o2.len() {
                    let on = if j + 1 < k { j + 1 } else { j + 2 };
                    assert(o2[j + 1] == o[on]);
                }
                if k > 0 && o[oj] == o[k - 1] {
                    assert(oj == k - 1);
                }
                if k + 1 < o.len() && o[oj] == o[k + 1] {
                    assert(oj == k + 1);
                }
            }
            assert(o2.no_duplicates()) by {
                assert forall|a: int, b: int|
                    0 <= a < o2.len() && 0 <= b < o2.len() && a != b implies o2[a] != o2[b] by {
                    let oa = if a < k { a } else { a + 1 };
                    let ob = if b < k { b } else { b + 1 };
                    assert(o2[a] == o[oa] && o2[b] == o[ob]);
                }
            }
            assert forall|f: int| 0 <= f < self.free_list@.len() implies #[trigger] self.free_ok(f) by {
                if f < pre.free_list@.len() {
                    assert(pre.free_ok(f));
                    assert(self.free_list@[f] == pre.free_list@[f]);
                    if o2.contains(self.free_list@[f]) {
                        let w = choose|w: int| 0 <= w < o2.len() && o2[w] == self.free_list@[f];
                        let ow = if w < k { w } else { w + 1 };
                        assert(o[ow] == o2[w]);
                        assert(o.contains(o[ow]));
                    }
                } else {
                    if o2.contains(node_idx) {
                        let w = choose|w: int| 0 <= w < o2.len() && o2[w] == node_idx;
                        let ow = if w < k { w } else { w + 1 };
                        assert(o[ow] == o2[w]);
                    }
                }
            }
            assert(self.free_list@.no_duplicates()) by {
                assert(!pre.free_list@.contains(node_idx)) by {
                    if pre.free_list@.contains(node_idx) {
                        let w = choose|w: int| 0 <= w < pre.free_list@.len() && pre.free_list@[w] == node_idx;
                        assert(pre.free_ok(w));
                    }
                }
            }
            assert(self@ =~= pre@.remove(k)) by {
                assert forall|j: int| 0 <= j < o2.len() implies #[trigger] self@[j] == pre@.remove(k)[j] by {
                    let oj = if j < k { j } else { j + 1 };
                    assert(pre.node_ok(oj));
                    assert(o[oj] != node_idx);
                }
            }
            lemma_remove_sorted(pre@, k);
            if o2.len() > 0 {
                assert(self.node_ok(0));
                assert(self.node_ok(o2.len() - 1));
            }
        }
    }

    /// Clear all events: every slot becomes free again.
    pub fn clear(&mut self)
        requires
            old(self).wf(),
        ensures
            final(self).wf(),
            final(self)@ == Seq::<E>::empty(),
            final(self).handles() == Seq::<NodeHandle>::empty(),
            final(self).slot_count() == old(self).slot_count(),
            final(self).spare_slots() == Seq::new(old(self).slot_count(), |i: int| i as NodeIdx),
    {
        self.head = INVALID_IDX;
        self.tail = INVALID_IDX;
        self.total_count = 0;
        self.free_list.clear();
        proof {
            self.order@ = Seq::empty();
        }
        let n = self.arena.len();
        let mut i: usize = 0;
        while i < n
            invariant
                n == self.arena@.len(),
                n == old(self).arena@.len(),
                i <= n,
                self.free_list@ == Seq::new(i as nat, |j: int| j as NodeIdx),
                self.head == INVALID_IDX,
                self.tail == INVALID_IDX,
                self.total_count == 0,
                self.order@ == Seq::<NodeIdx>::empty(),
            decreases n - i,
        {
            self.arena[i].event = None;
            self.free_list.push(i);
            i = i + 1;
        }
        proof {
            assert(self@ =~= Seq::<E>::empty());
            assert forall|f: int| 0 <= f < self.free_list@.len() implies #[trigger] self.free_ok(f) by {
                assert(self.free_list@[f] == f);
            }
        }
    }

    /// Peek at the time of the first event.
    pub fn peek_first(&self) -> (r: Option<SimTime>)
        requires
            self.wf(),
        ensures
            r == if self@.len() == 0 {
                None
            } else {
                Some(self@[0].time())
            },
    {
        proof {
            if self.order@.len() > 0 {
                assert(self.node_ok(0));
            }
        }
        if self.head == INVALID_IDX {
            None
        } else {
            Some(self.get_node(self.head).event.as_ref().unwrap().get_time())
        }
    }

    /// Check if queue is empty
    pub fn is_empty(&self) -> (r: bool)
        requires
            self.wf(),
        ensures
            r == (self@.len() == 0),
    {
        proof {
            if self.order@.len() > 0 {
                assert(self.node_ok(0));
            }
        }
        self.head == INVALID_IDX
    }

    /// Number of events in queue
    pub fn len(&self) -> (r: usize)
        requires
            self.wf(),
        ensures
            r == self@.len(),
    {
        self.total_count
    }

    /// The times of all queued events, from head to tail, read by walking the links.
    pub fn debug_all_times(&self) -> (r: Vec<SimTime>)
        requires
            self.wf(),
        ensures
            r@ == times_of(self@),
    {
        let mut times: Vec<SimTime> = Vec::new();
        let mut current = self.head;
        let ghost mut k: int = 0;
        let ghost n = self.order@.len() as int;
        proof {
            if n > 0 {
                assert(self.node_ok(0));
            }
        }
        while current != INVALID_IDX
            invariant
                self.wf(),
                n == self.order@.len(),
                0 <= k <= n,
                current == if k < n {
                    self.order@[k]
                } else {
                    INVALID_IDX
                },
                k < n ==> self.node_ok(k),
                times@ == times_of(self@).take(k),
            decreases n - k,
        {
            proof {
                assert(current < self.arena@.len());
            }
            let node = self.get_node(current);
            times.push(node.event.as_ref().unwrap().get_time());
            current = node.next;
            proof {
                assert(times_of(self@).take(k + 1) =~= times_of(self@).take(k).push(self@[k].time()));
                k = k + 1;
                if k < n {
                    assert(self.node_ok(k));
                    assert(self.order@[k] < self.arena@.len());
                }
            }
        }
        assert(times@ =~= times_of(self@));
        times
    }
}

} // verus!
