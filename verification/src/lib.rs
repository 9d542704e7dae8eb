//! Discrete-event simulation core: events ordered by simulated time, several
//! priority-queue implementations for them, and an event list that drives a
//! simulation by repeatedly firing the earliest event.

pub mod base;
