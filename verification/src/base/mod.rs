pub mod sim_time;
pub mod priority_queue;
pub mod event;
pub mod periodic_event;
pub mod arena_priority_queue_dll;
pub mod priority_queue_dll;
pub mod priority_queue_binary_heap;
pub mod eventlist;
pub mod value_lines;
pub mod random_variable;
pub mod sporadic_event;
pub mod prelude;
