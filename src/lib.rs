//! Partitioning of periodic real-time tasks onto processors, and a
//! preemptive earliest-deadline-first simulation of each processor's jobs.

pub mod job;
pub mod task;

pub use job::{Job, JobList, JobStatus};
pub use task::{Task, TaskList};
