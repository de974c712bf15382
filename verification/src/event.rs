//! Events: the jobs that share one due instant.

use std::cmp::Ordering;
use vstd::prelude::*;
use vstd::std_specs::cmp::{PartialEqSpecImpl, PartialOrdSpecImpl};

use crate::instant::Instant;
use crate::job::Job;

verus! {

/// The jobs that are due at one instant, in the order in which they were added.
#[derive(Clone, Debug)]
pub struct Event {
    time: Instant,
    jobs: Vec<Job>,
}

/// What an event is, as plain values.
pub struct EventView {
    /// The instant at which the event is due.
    pub time: Instant,
    /// Its jobs, oldest first.
    pub jobs: Seq<Job>,
}

impl EventView {
    /// The event holds a job, and each of its jobs is due at the event's instant.
    pub open spec fn wf(self) -> bool {
        &&& self.jobs.len() > 0
        &&& forall|i: int| 0 <= i < self.jobs.len() ==> (#[trigger] self.jobs[i]).next_fire() == self.time
    }

    /// The event that holds `job` alone, at the instant at which it is due.
    pub open spec fn single(job: Job) -> EventView {
        EventView { time: job.next_fire(), jobs: seq![job] }
    }

    /// This event with `job` added behind its other jobs.
    pub open spec fn plus(self, job: Job) -> EventView {
        EventView { time: self.time, jobs: self.jobs.push(job) }
    }
}

impl View for Event {
    type V = EventView;

    closed spec fn view(&self) -> EventView {
        EventView { time: self.time, jobs: self.jobs@ }
    }
}

/// Events are equal when they are due at the same instant, whatever jobs
/// they hold.
impl PartialEq for Event {
    fn eq(&self, other: &Event) -> (r: bool) {
        self.time == other.time
    }
}

impl PartialEqSpecImpl for Event {
    open spec fn obeys_eq_spec() -> bool {
        true
    }

    open spec fn eq_spec(&self, other: &Event) -> bool {
        self@.time == other@.time
    }
}

impl Eq for Event {

}

/// Events are ordered by the instant at which they are due.
impl PartialOrd for Event {
    fn partial_cmp(&self, other: &Event) -> (r: Option<Ordering>) {
        if self.time.is_before(&other.time) {
            Some(Ordering::Less)
        } else if other.time.is_before(&self.time) {
            Some(Ordering::Greater)
        } else {
            Some(Ordering::Equal)
        }
    }
}

impl PartialOrdSpecImpl for Event {
    open spec fn obeys_partial_cmp_spec() -> bool {
        true
    }

    open spec fn partial_cmp_spec(&self, other: &Event) -> Option<Ordering> {
        if self@.time.before(other@.time) {
            Some(Ordering::Less)
        } else if other@.time.before(self@.time) {
            Some(Ordering::Greater)
        } else {
            Some(Ordering::Equal)
        }
    }
}

impl Event {
    /// See [`EventView::wf`].
    pub open spec fn wf(&self) -> bool {
        self@.wf()
    }

    /// An event at `t` that holds no job yet.
    pub fn new(t: Instant) -> (e: Event)
        ensures
            e@ == (EventView { time: t, jobs: Seq::empty() }),
    {
        Event { time: t, jobs: Vec::new() }
    }

    /// Adds `j` behind the jobs that the event holds.
    pub fn push_job(&mut self, j: Job)
        ensures
            final(self)@ == old(self)@.plus(j),
    {
        self.jobs.push(j)
    }

    /// The jobs of the event, oldest first.
    pub fn get_jobs(&self) -> (r: &Vec<Job>)
        ensures
            r@ == self@.jobs,
    {
        &self.jobs
    }

    /// The instant at which the event is due.
    pub fn get_time(&self) -> (r: Instant)
        ensures
            r == self@.time,
    {
        self.time
    }

    /// Takes the event apart into its jobs, oldest first.
    pub fn into_jobs(self) -> (r: Vec<Job>)
        ensures
            r@ == self@.jobs,
    {
        self.jobs
    }
}

} // verus!
