//! A cron-style job scheduler: a time-ordered event queue, recurring jobs,
//! and the decisions of the scheduling loop and of the child reaper.

pub mod command;
pub mod event;
pub mod instant;
pub mod job;
pub mod queue;
pub mod reaper;
pub mod recurrence;
pub mod scheduler;
pub mod timeline;

pub use event::Event;
pub use instant::Instant;
pub use job::{Job, JobError};
pub use queue::EventQueue;
pub use reaper::{reap, Cause, ChildStatus, Collected, ReaperStep};
pub use scheduler::{Action, Cron, JobDescriptor, Outcome, Report, Step};
