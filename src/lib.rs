//! A discrete-event scheduler for simulated hardware components.
//!
//! Components suspend until the simulated clock reaches a target tick or a
//! named event fires. The scheduler owns the clock and the pending jobs and
//! decides, step by step, which suspended components resume.

pub mod job;
pub mod order;
pub mod scheduler;
pub mod bridge;
pub mod registry;
