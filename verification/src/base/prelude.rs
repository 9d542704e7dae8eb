//! The items a simulation usually needs, for a single `use`.

pub use crate::base::sim_time::SimTime;
pub use crate::base::priority_queue::{Event, PriorityQueue};
pub use crate::base::event::BasicEvent;
pub use crate::base::periodic_event::PeriodicEvent;
pub use crate::base::sporadic_event::SporadicEvent;
pub use crate::base::eventlist::EventList;
pub use crate::base::random_variable::{RandomVariable, Deterministic, Uniform, DetVar};
pub use crate::base::arena_priority_queue_dll::ArenaAcPriorityQueueDLL;
pub use crate::base::priority_queue_dll::PriorityQueueDLL;
pub use crate::base::priority_queue_binary_heap::PriorityQueueBinaryHeap;
