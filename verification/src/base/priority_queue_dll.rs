use vstd::prelude::*;
use crate::base::sim_time::SimTime;
use crate::base::priority_queue::{
    Event, lower_bound, negative_time_text, times_of, sorted_by_time, lemma_lower_bound_len,
};
use crate::base::arena_priority_queue_dll::{ArenaAcPriorityQueueDLL, lemma_insert_fresh_then_remove};

verus! {

/// A node of a doubly linked list whose links are slot indices: `prev` and
/// `next` name the neighbouring slots, `usize::MAX` standing for "none". A slot
/// whose `event` is `None` holds no node.
#[derive(Debug)]
pub struct Node<E> {
    pub(crate) event: Option<E>,
    pub(crate) prev: usize,
    pub(crate) next: usize,
}

impl<E> Node<E> {
    /// A node holding `event`, linked to nothing.
    pub(crate) fn new(event: E) -> (r: Self)
        ensures
            r.event == Some(event),
            r.prev == usize::MAX,
            r.next == usize::MAX,
    {
        Node { event: Some(event), prev: usize::MAX, next: usize::MAX }
    }
}

/// A handle to a node that can be used to remove it from the queue later.
pub type NodeHandle = usize;

/// Priority queue implemented as a doubly linked list.
/// Maintains order by event time: smallest time at the head; an event goes
/// before every event already queued at the same time.
/// The nodes are kept in slots of a growable arena and linked by slot index,
/// so a node handle is its slot.
/// Insertion: O(n) worst case. Extraction (pop_first): O(1). Removal: O(1)
/// given a NodeHandle.
pub struct PriorityQueueDLL<E> {
    list: ArenaAcPriorityQueueDLL<E>,
}

impl<E: Event> PriorityQueueDLL<E> {
    /// The queued events, from head to tail.
    pub closed spec fn view(&self) -> Seq<E> {
        self.list@
    }

    /// The handles of the queued events, in the same order as `view`.
    pub closed spec fn handles(&self) -> Seq<NodeHandle> {
        self.list.handles()
    }

    pub closed spec fn wf(&self) -> bool {
        self.list.wf()
    }

    /// In a well-formed queue the events are sorted by time, so that they come
    /// out in time order, and there is one distinct handle per queued event.
    pub proof fn lemma_wf_facts(&self)
        requires
            self.wf(),
        ensures
            sorted_by_time(self@),
            self.handles().no_duplicates(),
            self.handles().len() == self@.len(),
    {
        self.list.lemma_wf_facts();
    }

    /// Removing the node that an insertion has just created gives back the
    /// queue as it was: the fresh handle that `insert` returns stands where the
    /// event went, and removing that position from the events and from the
    /// handles undoes the insertion.
    pub proof fn law_remove_undoes_insert(&self, event: E, h: NodeHandle)
        requires
            self.wf(),
            !self.handles().contains(h),
        ensures
            ({
                let k = lower_bound(self@, event.time()) as int;
                let hs = self.handles().insert(k, h);
                &&& hs.contains(h)
                &&& hs.index_of(h) == k
                &&& hs.remove(k) == self.handles()
                &&& self@.insert(k, event).remove(k) == self@
            }),
    {
        let k = lower_bound(self@, event.time()) as int;
        lemma_lower_bound_len(self@, event.time());
        self.list.lemma_wf_facts();
        lemma_insert_fresh_then_remove(self.handles(), k, h);
        lemma_insert_fresh_then_remove(self@, k, event);
    }

    /// An empty queue.
    pub fn new() -> (r: Self)
        ensures
            r.wf(),
            r@ == Seq::<E>::empty(),
            r.handles() == Seq::<NodeHandle>::empty(),
    {
        PriorityQueueDLL { list: ArenaAcPriorityQueueDLL::with_capacity(0) }
    }

    /// Insert an event in sorted order by time and return a handle to its node,
    /// which can be used to remove it. The event goes before every event
    /// already queued at the same time; an event with a negative time is rejected.
    pub fn insert(&mut self, event: E) -> (r: Result<NodeHandle, String>)
        requires
            old(self).wf(),
            old(self)@.len() < usize::MAX,
        ensures
            final(self).wf(),
            event.time() < 0 ==> {
                &&& r is Err
                &&& r->Err_0@ == negative_time_text()
                &&& final(self)@ == old(self)@
                &&& final(self).handles() == old(self).handles()
            },
            event.time() >= 0 ==> {
                let k = lower_bound(old(self)@, event.time()) as int;
                &&& r is Ok
                &&& !old(self).handles().contains(r->Ok_0)
                &&& final(self)@ == old(self)@.insert(k, event)
                &&& final(self).handles() == old(self).handles().insert(k, r->Ok_0)
            },
    {
        let r = self.list.insert(event);
        proof {
            if event.time() >= 0 {
                let h = r->Ok_0;
                let k = lower_bound(old(self)@, event.time()) as int;
                lemma_lower_bound_len(old(self)@, event.time());
                old(self).list.lemma_wf_facts();
                self.list.lemma_wf_facts();
                assert(self.handles()[k] == h);
                if old(self).handles().contains(h) {
                    let w = choose|w: int| 0 <= w < old(self).handles().len() && old(self).handles()[w] == h;
                    let nw = if w < k { w } else { w + 1 };
                    assert(self.handles()[nw] == h);
                }
            }
        }
        r
    }

    /// Extract the first (minimum time) event. O(1)
    pub fn pop_first(&mut self) -> (r: Option<E>)
        requires
            old(self).wf(),
        ensures
            final(self).wf(),
            old(self)@.len() == 0 ==> r is None && final(self)@ == old(self)@ && final(self).handles() == old(self).handles(),
            old(self)@.len() > 0 ==> {
                &&& r == Some(old(self)@[0])
                &&& final(self)@ == old(self)@.drop_first()
                &&& final(self).handles() == old(self).handles().drop_first()
            },
    {
        self.list.pop_first()
    }

    /// Peek at the time of the first event.
    pub fn peek_first(&self) -> (r: Option<SimTime>)
        requires
            self.wf(),
        ensures
            r == if self@.len() == 0 {
                None
            } else {
                Some(self@[0].time())
            },
    {
        self.list.peek_first()
    }

    /// Check if queue is empty
    pub fn is_empty(&self) -> (r: bool)
        requires
            self.wf(),
        ensures
            r == (self@.len() == 0),
    {
        self.list.is_empty()
    }

    /// Number of events in queue
    pub fn len(&self) -> (r: usize)
        requires
            self.wf(),
        ensures
            r == self@.len(),
    {
        self.list.len()
    }

    /// Clear all events
    pub fn clear(&mut self)
        requires
            old(self).wf(),
        ensures
            final(self).wf(),
            final(self)@ == Seq::<E>::empty(),
            final(self).handles() == Seq::<NodeHandle>::empty(),
    {
        self.list.clear()
    }

    /// Remove a specific event given its NodeHandle. O(1)
    pub fn remove(&mut self, node_handle: NodeHandle)
        requires
            old(self).wf(),
            old(self).handles().contains(node_handle),
        ensures
            final(self).wf(),
            ({
                let k = old(self).handles().index_of(node_handle);
                &&& final(self)@ == old(self)@.remove(k)
                &&& final(self).handles() == old(self).handles().remove(k)
            }),
    {
        self.list.remove(node_handle)
    }

    /// The times of all queued events, from head to tail.
    pub fn debug_all_times(&self) -> (r: Vec<SimTime>)
        requires
            self.wf(),
        ensures
            r@ == times_of(self@),
    {
        self.list.debug_all_times()
    }
}

} // verus!
