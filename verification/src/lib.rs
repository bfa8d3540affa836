//! Recurring-task planner: calendar expressions, their next occurrences, and the
//! scheduling decisions taken when a task falls due.

pub mod calendar;
pub mod days;
pub mod grammar;
pub mod memory_store;
pub mod model;
pub mod occurrence;
pub mod planning;
pub mod render;
pub mod round_trip;
pub mod scheduler;
pub mod store;
pub mod text;
pub mod zone;
