//! Jobs: a command, the rule by which it recurs, and the instants at which
//! it last was and next is due.

use vstd::prelude::*;

use crate::command::{split_command, split_on_space, texts};
use crate::instant::Instant;
use crate::recurrence::{
    cron_accepts, error_text, next_occurrence, occurrence_after, parse_schedule,
};

verus! {

/// Why a job could not be built.
#[derive(Clone, Debug, PartialEq, Eq)]
pub enum JobError {
    /// The recurrence expression is malformed; the text says how.
    InvalidExpression(String),
    /// The recurrence yields no occurrence after the present.
    ScheduleExhausted,
}

/// A named command that recurs by a cron-style rule.
#[derive(Clone, Debug, PartialEq, Eq)]
pub struct Job {
    name: String,
    prev: Instant,
    cmd: String,
    params: Vec<String>,
    schedule: cron::Schedule,
    expression: String,
    next: Instant,
}

/// What a job is, as plain values.
pub struct JobView {
    pub name: Seq<char>,
    pub cmd: Seq<char>,
    pub params: Seq<Seq<char>>,
    pub expression: Seq<char>,
    pub schedule: cron::Schedule,
    pub prev: Instant,
    pub next: Instant,
}

impl View for Job {
    type V = JobView;

    closed spec fn view(&self) -> JobView {
        JobView {
            name: self.name@,
            cmd: self.cmd@,
            params: texts(self.params@),
            expression: self.expression@,
            schedule: self.schedule,
            prev: self.prev,
            next: self.next,
        }
    }
}

impl Job {
    /// The instant at which this job is next due.
    pub open spec fn next_fire(&self) -> Instant {
        self@.next
    }

    /// The instant at which this job was last due, or when it was built.
    pub open spec fn previous_fire(&self) -> Instant {
        self@.prev
    }

    /// The job that `assemble` builds from a descriptor, its compiled rule,
    /// the present `now` and the rule's answer `found` for what follows `now`.
    pub open spec fn assembled(
        name: Seq<char>,
        cmd: Seq<char>,
        expression: Seq<char>,
        schedule: cron::Schedule,
        now: Instant,
        found: Option<Instant>,
    ) -> Option<JobView> {
        match occurrence_after(now, found) {
            Some(first) => Some(
                JobView {
                    name,
                    cmd,
                    params: split_on_space(cmd),
                    expression,
                    schedule,
                    prev: now,
                    next: first,
                },
            ),
            None => None,
        }
    }

    /// This job as it is requeued for the instant `t`: what was its next
    /// instant becomes its previous one, and nothing else changes.
    pub closed spec fn rescheduled(self, t: Instant) -> Job {
        Job { prev: self.next, next: t, ..self }
    }

    /// What `rescheduled` yields, as plain values.
    pub broadcast proof fn lemma_rescheduled(self, t: Instant)
        ensures
            #[trigger] self.rescheduled(t)@ == (JobView { prev: self@.next, next: t, ..self@ }),
    {
    }

    /// The job that follows `self` when the rule answers `found` for what
    /// follows `reference`; `None` when the recurrence is exhausted.
    pub open spec fn advanced(self, reference: Instant, found: Option<Instant>) -> Option<Job> {
        match occurrence_after(reference, found) {
            Some(t) => Some(self.rescheduled(t)),
            None => None,
        }
    }

    /// A job that is advanced is never requeued for an instant at or before
    /// the reference; its previous instant is then what its next one was.
    pub proof fn lemma_advanced_after_reference(
        self,
        reference: Instant,
        found: Option<Instant>,
    )
        ensures
            self.advanced(reference, found) matches Some(job) ==> {
                &&& reference.before(job.next_fire())
                &&& job.previous_fire() == self.next_fire()
            },
    {
        broadcast use Job::lemma_rescheduled;

    }

    /// A job that is advanced from a reference that is not before its own
    /// next instant is requeued for a strictly later instant.
    pub proof fn lemma_advanced_increases(self, reference: Instant, found: Option<Instant>)
        requires
            !reference.before(self.next_fire()),
        ensures
            self.advanced(reference, found) matches Some(job) ==> self.next_fire().before(
                job.next_fire(),
            ),
    {
        broadcast use Job::lemma_rescheduled;

    }

    /// Advancing a job again and again, each time from a reference that is
    /// not before its next instant, yields strictly increasing next instants:
    /// `jobs[k + 1]` is `jobs[k]` advanced from `references[k]` on the answer
    /// `answers[k]`.
    pub proof fn lemma_advance_chain(
        jobs: Seq<Job>,
        references: Seq<Instant>,
        answers: Seq<Option<Instant>>,
        a: int,
        b: int,
    )
        requires
            references.len() == jobs.len() - 1,
            answers.len() == jobs.len() - 1,
            forall|k: int|
                0 <= k < jobs.len() - 1 ==> {
                    &&& !references[k].before(jobs[k].next_fire())
                    &&& #[trigger] jobs[k].advanced(references[k], answers[k]) == Some(jobs[k + 1])
                },
            0 <= a < b < jobs.len(),
        ensures
            jobs[a].next_fire().before(jobs[b].next_fire()),
        decreases b - a,
    {
        jobs[b - 1].lemma_advanced_increases(references[b - 1], answers[b - 1]);
        assert(jobs[b - 1].advanced(references[b - 1], answers[b - 1]) == Some(jobs[b]));
        if a < b - 1 {
            Job::lemma_advance_chain(jobs, references, answers, a, b - 1);
        }
    }

    /// Builds a job from its descriptor at the present `now`: splits the
    /// command line, compiles the expression and finds the first occurrence
    /// after `now`. The job's previous instant is `now`.
    ///
    /// A malformed expression is refused as `InvalidExpression`, and nothing
    /// else is. A rule with no occurrence after `now` is refused as
    /// `ScheduleExhausted`.
    pub fn new(name: String, cmd: String, expr: &str, now: Instant) -> (r: Result<Job, JobError>)
        ensures
            r matches Err(JobError::InvalidExpression(_)) <==> !cron_accepts(expr@),
            r matches Ok(job) ==> {
                &&& job@.name == name@
                &&& job@.cmd == cmd@
                &&& job@.params == split_on_space(cmd@)
                &&& job@.expression == expr@
                &&& job@.prev == now
                &&& now.before(job@.next)
            },
    {
        let schedule = match parse_schedule(expr) {
            Ok(schedule) => schedule,
            Err(error) => {
                return Err(JobError::InvalidExpression(error_text(&error)));
            },
        };
        let first = next_occurrence(&schedule, now);
        Job::assemble(name, cmd, expr.to_owned(), schedule, now, first)
    }

    /// Builds a job from a compiled rule, the present `now`, and the rule's
    /// answer `found` for what follows `now`.
    pub fn assemble(
        name: String,
        cmd: String,
        expression: String,
        schedule: cron::Schedule,
        now: Instant,
        found: Option<Instant>,
    ) -> (r: Result<Job, JobError>)
        ensures
            match Job::assembled(name@, cmd@, expression@, schedule, now, found) {
                Some(view) => r matches Ok(job) && job@ == view,
                None => r == Err::<Job, JobError>(JobError::ScheduleExhausted),
            },
    {
        match found {
            Some(first) => {
                if now.is_before(&first) {
                    let params = split_command(cmd.as_str());
                    Ok(Job { name, prev: now, cmd, params, schedule, expression, next: first })
                } else {
                    Err(JobError::ScheduleExhausted)
                }
            },
            None => Err(JobError::ScheduleExhausted),
        }
    }

    /// The job as it is requeued after firing: its previous instant is the
    /// old next one, its next instant the first occurrence strictly after
    /// `reference`. `None` means the recurrence is exhausted and the job is
    /// to be dropped.
    pub fn advance(self, reference: Instant) -> (r: Option<Job>)
        ensures
            r matches Some(job) ==> {
                &&& job == self.rescheduled(job.next_fire())
                &&& job@ == (JobView { prev: self@.next, next: job@.next, ..self@ })
                &&& reference.before(job.next_fire())
            },
    {
        let found = next_occurrence(&self.schedule, reference);
        self.advance_to(reference, found)
    }

    /// `advance`, given the rule's answer `found` for what follows
    /// `reference`: the job is requeued for `found` if that lies strictly
    /// after `reference`, and dropped otherwise.
    pub fn advance_to(self, reference: Instant, found: Option<Instant>) -> (r: Option<Job>)
        ensures
            r == self.advanced(reference, found),
            r matches Some(job) ==> {
                &&& found == Some(job.next_fire())
                &&& reference.before(job.next_fire())
                &&& job@ == (JobView { prev: self@.next, next: job@.next, ..self@ })
            },
    {
        match found {
            Some(t) => {
                if reference.is_before(&t) {
                    let mut job = self;
                    job.prev = job.next;
                    job.next = t;
                    Some(job)
                } else {
                    None
                }
            },
            None => None,
        }
    }

    /// The name of this job.
    pub fn get_name(&self) -> (r: &str)
        ensures
            r@ == self@.name,
    {
        self.name.as_str()
    }

    /// The command line this job was built from.
    pub fn get_cmd(&self) -> (r: &str)
        ensures
            r@ == self@.cmd,
    {
        self.cmd.as_str()
    }

    /// The recurrence expression this job was built from.
    pub fn get_expression(&self) -> (r: &str)
        ensures
            r@ == self@.expression,
    {
        self.expression.as_str()
    }

    /// The instant at which this job is next due.
    pub fn get_next(&self) -> (r: Instant)
        ensures
            r == self.next_fire(),
    {
        self.next
    }

    /// The instant at which this job was last due.
    pub fn get_prev(&self) -> (r: Instant)
        ensures
            r == self.previous_fire(),
    {
        self.prev
    }

    /// The program and its arguments; the program comes first.
    pub fn get_params(&self) -> (r: &Vec<String>)
        ensures
            texts(r@) == self@.params,
    {
        &self.params
    }

    /// The compiled recurrence rule.
    pub fn get_schedule(&self) -> (r: &cron::Schedule)
        ensures
            *r == self@.schedule,
    {
        &self.schedule
    }

    /// Records `prev` as the instant at which this job was last due.
    pub fn set_prev(&mut self, prev: Instant)
        ensures
            final(self)@ == (JobView { prev, ..old(self)@ }),
    {
        self.prev = prev;
    }

    /// Makes `next` the instant at which this job is next due.
    pub fn set_next(&mut self, next: Instant)
        ensures
            final(self)@ == (JobView { next, ..old(self)@ }),
    {
        self.next = next;
    }
}

} // verus!
