# rtilience_sim_rust

The core of a discrete-event simulator, verified with Verus: events ordered by
simulated time, four priority queues for them, and an event list that runs a
simulation by firing the earliest event again and again.

- `src/base/priority_queue.rs`: the `Event` trait and a queue of per-time
  buckets in a `BTreeMap` (first in, first out among equal times).
- `src/base/arena_priority_queue_dll.rs`: a doubly linked list whose nodes live
  in a vector, with a free list of slots; `priority_queue_dll.rs` is the
  growable list with removal by handle built on it.
- `src/base/priority_queue_binary_heap.rs`: a binary heap with a map from event
  identifiers to slots, for removal by handle.
- `src/base/eventlist.rs`: the event list and its simulation loop.
- `src/base/event.rs`, `periodic_event.rs`, `sporadic_event.rs`: events.
- `src/base/random_variable.rs`: random variables over integer times.
- `app/lib.rs`: the random variables that sample floating-point
  distributions, percentiles, and reading values from files.

Each queue states its contents as a mathematical sequence (or multiset, for the
heap) and proves that every operation keeps it sorted by time, what each
operation returns, and that removing an event just inserted gives the queue
back.
