//! The scheduler: the decisions of the loop that waits for the next event,
//! fires its jobs one by one and requeues them. The driver performs what the
//! scheduler asks for (sleeping, creating processes) and reports back.

use vstd::prelude::*;

use crate::command::split_on_space;
use crate::event::EventView;
use crate::instant::{Instant, NANOS_PER_SEC};
use crate::job::{Job, JobError};
use crate::queue::EventQueue;
use crate::recurrence::{cron_accepts, next_occurrence};
use crate::timeline::{
    jobs_at, lemma_drop_first_queued, lemma_with_job_keeps_queued, lemma_with_job_queues,
    lemma_with_job_well_formed, queued, well_formed, with_job, with_jobs,
};

verus! {

/// Seconds to wait before the loop is tried again after a clock anomaly.
pub const FALLBACK_SECS: u64 = 60;

/// Seconds added to the present before a fired job's next occurrence is
/// looked up, so that an occurrence that is due "now" is not chosen again.
pub const GUARD_SECS: u32 = 1;

/// What a job is built from: its name, its command line and its
/// recurrence expression.
#[derive(Clone, Debug, PartialEq, Eq)]
pub struct JobDescriptor {
    pub name: String,
    pub command_line: String,
    pub expression: String,
}

/// `job` is what `Job::new` builds from `descriptor` at the present `now`.
pub open spec fn built_from(job: Job, descriptor: JobDescriptor, now: Instant) -> bool {
    &&& job@.name == descriptor.name@
    &&& job@.cmd == descriptor.command_line@
    &&& job@.params == split_on_space(descriptor.command_line@)
    &&& job@.expression == descriptor.expression@
    &&& job@.prev == now
    &&& now.before(job@.next)
}

/// `outcomes` tells, descriptor by descriptor, which were refused, and
/// `jobs` holds, in the order of the descriptors, one job built at `now` from
/// each that was not.
pub open spec fn admits(
    descriptors: Seq<JobDescriptor>,
    outcomes: Seq<Option<JobError>>,
    jobs: Seq<Job>,
    now: Instant,
) -> bool
    decreases descriptors.len(),
{
    if descriptors.len() == 0 {
        outcomes.len() == 0 && jobs.len() == 0
    } else {
        &&& outcomes.len() == descriptors.len()
        &&& match outcomes.last() {
            None => {
                &&& jobs.len() > 0
                &&& built_from(jobs.last(), descriptors.last(), now)
                &&& admits(descriptors.drop_last(), outcomes.drop_last(), jobs.drop_last(), now)
            },
            Some(_) => admits(descriptors.drop_last(), outcomes.drop_last(), jobs, now),
        }
    }
}

/// What the driver reports when it asks for the next action.
#[derive(Clone, Debug, PartialEq, Eq)]
pub enum Report {
    /// Nothing happened to a job: the loop starts, or a wait has ended.
    Tick,
    /// The process of this job was created.
    Spawned(Job),
    /// The process of this job could not be created.
    SpawnFailed(Job),
}

/// What became of the job that the driver reported.
#[derive(Clone, Debug, PartialEq, Eq)]
pub enum Outcome {
    /// No job was reported.
    Nothing,
    /// The job was requeued for the given instant.
    Requeued(Instant),
    /// The job's recurrence is exhausted: the job was dropped.
    Exhausted,
    /// The job's process could not be created: this firing was given up,
    /// and the job was not requeued.
    Abandoned,
}

/// What the driver is to do next.
#[derive(Clone, Debug, PartialEq, Eq)]
pub enum Action {
    /// No event is left: the scheduling loop ends.
    Shutdown,
    /// The earliest event is already overdue, which a sound clock does not
    /// allow. The event stays queued; wait for `secs` seconds and report a tick.
    Retry { secs: u64 },
    /// The earliest event was taken from the queue. Sleep for `nanos`
    /// nanoseconds, which is when it is due, then report a tick.
    Sleep { nanos: u64 },
    /// Create the process of this job and report how that went.
    Spawn(Job),
}

/// The answer to a report: what became of the reported job, and what to do next.
#[derive(Clone, Debug, PartialEq, Eq)]
pub struct Step {
    pub outcome: Outcome,
    pub action: Action,
}

/// The scheduler of recurring jobs.
///
/// Between two steps it is idle (no event waits and none is in hand),
/// waiting (for the earliest event to become due) or firing (the jobs of the
/// event in hand are handed out one by one); a fired job is requeued within
/// the step that takes the report of its process.
#[derive(Clone, Debug)]
pub struct Cron {
    job_list: EventQueue,
    wakeup_after: u64,
    pending: Vec<Job>,
}

/// What a scheduler holds, as plain values.
pub struct CronView {
    /// The events that wait, in the order in which they fire.
    pub queue: Seq<EventView>,
    /// The jobs of the event in hand that have not been fired yet, oldest first.
    pub pending: Seq<Job>,
    /// The nanoseconds of the last sleep that the scheduler asked for.
    pub wakeup_after: u64,
}

impl View for Cron {
    type V = CronView;

    closed spec fn view(&self) -> CronView {
        CronView {
            queue: self.job_list@,
            pending: self.pending@,
            wakeup_after: self.wakeup_after,
        }
    }
}

/// The instant after which a job fired at `now` is due again at the
/// earliest, if that instant can be represented.
pub open spec fn guarded(now: Instant) -> Option<int> {
    if now@ + GUARD_SECS * NANOS_PER_SEC <= i64::MAX {
        Some(now@ + GUARD_SECS * NANOS_PER_SEC)
    } else {
        None
    }
}

/// The job that replaces `job`, fired at `now`, in the queue, when the
/// recurrence rule answers `found` for what follows the guarded present.
pub open spec fn requeued(job: Job, now: Instant, found: Option<Instant>) -> Option<Job> {
    match guarded(now) {
        Some(reference) => match found {
            Some(t) if reference < t@ => Some(job.rescheduled(t)),
            _ => None,
        },
        None => None,
    }
}

/// First half of a step: the reported job is requeued, dropped or given up.
pub open spec fn absorbed(st: CronView, report: Report, now: Instant, found: Option<Instant>) -> (
    CronView,
    Outcome,
) {
    match report {
        Report::Tick => (st, Outcome::Nothing),
        Report::SpawnFailed(_) => (st, Outcome::Abandoned),
        Report::Spawned(job) => match requeued(job, now, found) {
            Some(next) => (
                CronView { queue: with_job(st.queue, next), ..st },
                Outcome::Requeued(next.next_fire()),
            ),
            None => (st, Outcome::Exhausted),
        },
    }
}

/// Second half of a step: the next action. The jobs of the event in hand are
/// fired first, oldest first. Only when none is left is the next event
/// looked at: none ends the loop, an overdue one stays queued and is tried
/// again later, and any other is taken in hand and slept for, for all the
/// time from `now` until it is due.
pub open spec fn decided(st: CronView, now: Instant) -> (CronView, Action) {
    if st.pending.len() > 0 {
        (CronView { pending: st.pending.drop_first(), ..st }, Action::Spawn(st.pending.first()))
    } else if st.queue.len() == 0 {
        (st, Action::Shutdown)
    } else if st.queue.first().time.before(now) {
        (st, Action::Retry { secs: FALLBACK_SECS })
    } else {
        let nanos = (st.queue.first().time@ - now@) as u64;
        (
            CronView {
                queue: st.queue.drop_first(),
                pending: st.queue.first().jobs,
                wakeup_after: nanos,
            },
            Action::Sleep { nanos },
        )
    }
}

/// One step of the scheduler, as a function of its state, the driver's
/// report, the present and the recurrence rule's answer.
pub open spec fn stepped(st: CronView, report: Report, now: Instant, found: Option<Instant>) -> (
    CronView,
    Step,
) {
    let (mid, outcome) = absorbed(st, report, now, found);
    let (end, action) = decided(mid, now);
    (end, Step { outcome, action })
}

impl Default for Cron {
    fn default() -> (c: Cron)
        ensures
            c.wf(),
            c@ == (CronView { queue: Seq::empty(), pending: Seq::empty(), wakeup_after: 0 }),
    {
        Cron::new()
    }
}

/// A fired job whose recurrence is exhausted is dropped: the queue does not
/// grow by it.
pub proof fn lemma_exhausted_job_is_dropped(st: CronView, job: Job, now: Instant)
    ensures
        absorbed(st, Report::Spawned(job), now, None) == (st, Outcome::Exhausted),
{
}

/// A clock anomaly loses no job: the overdue event stays in the queue.
pub proof fn lemma_anomaly_keeps_event(st: CronView, now: Instant)
    requires
        st.pending.len() == 0,
        st.queue.len() > 0,
        st.queue.first().time.before(now),
    ensures
        decided(st, now) == (st, Action::Retry { secs: FALLBACK_SECS }),
{
}

/// The sleep that is asked for before an event is fired is all the time from
/// the present until the event is due, to the nanosecond.
pub proof fn lemma_sleep_is_whole_gap(st: CronView, now: Instant)
    requires
        st.pending.len() == 0,
        st.queue.len() > 0,
        !st.queue.first().time.before(now),
    ensures
        decided(st, now).1 matches Action::Sleep { nanos } && nanos == st.queue.first().time@
            - now@,
        decided(st, now).0.pending == st.queue.first().jobs,
        decided(st, now).0.queue == st.queue.drop_first(),
        decided(st, now).0.wakeup_after == st.queue.first().time@ - now@,
{
    st.queue.first().time.lemma_view_bounds();
    now.lemma_view_bounds();
}

/// While jobs of the event in hand wait to be fired, the queue is not
/// touched: the oldest of them is fired next.
pub proof fn lemma_pending_fire_first(st: CronView, now: Instant)
    requires
        st.pending.len() > 0,
    ensures
        decided(st, now).0.queue == st.queue,
        decided(st, now).1 == Action::Spawn(st.pending.first()),
{
}

/// What the driver hands to one step: its report, the present, and the
/// recurrence rule's answer for what follows the guarded present.
pub struct Input {
    pub report: Report,
    pub now: Instant,
    pub found: Option<Instant>,
}

/// The scheduler holds `job`: in hand, or in an event of its queue.
pub open spec fn holds(st: CronView, job: Job) -> bool {
    st.pending.contains(job) || queued(st.queue, job)
}

/// The state of the scheduler after the steps of `inputs`, one after the other.
pub open spec fn state_after(st: CronView, inputs: Seq<Input>) -> CronView
    decreases inputs.len(),
{
    if inputs.len() == 0 {
        st
    } else {
        let last = inputs.last();
        stepped(state_after(st, inputs.drop_last()), last.report, last.now, last.found).0
    }
}

/// The answer of the last of the steps of `inputs`.
pub open spec fn last_step(st: CronView, inputs: Seq<Input>) -> Step
    recommends
        inputs.len() > 0,
{
    let last = inputs.last();
    stepped(state_after(st, inputs.drop_last()), last.report, last.now, last.found).1
}

/// A step keeps the queue well formed.
pub proof fn lemma_step_keeps_well_formed(st: CronView, input: Input)
    requires
        well_formed(st.queue),
    ensures
        well_formed(stepped(st, input.report, input.now, input.found).0.queue),
{
    let mid = absorbed(st, input.report, input.now, input.found).0;
    if let Report::Spawned(job) = input.report {
        if let Some(next) = requeued(job, input.now, input.found) {
            lemma_with_job_well_formed(st.queue, next);
        }
    }
    assert(well_formed(mid.queue));
    let end = decided(mid, input.now).0;
    if end.queue != mid.queue {
        let q = mid.queue;
        let r = q.drop_first();
        assert forall|i: int| 0 <= i < r.len() implies (#[trigger] r[i]).wf() by {
            assert(r[i] == q[i + 1]);
        }
        assert forall|i: int, j: int| 0 <= i < j < r.len() implies (#[trigger] r[i]).time.before(
            (#[trigger] r[j]).time,
        ) by {
            assert(r[i] == q[i + 1]);
            assert(r[j] == q[j + 1]);
        }
    }
}

/// No step loses a job: a job that the scheduler holds is still held after
/// the step, unless the step hands it out to be spawned.
pub proof fn lemma_step_keeps_jobs(st: CronView, input: Input, job: Job)
    requires
        well_formed(st.queue),
        holds(st, job),
    ensures
        holds(stepped(st, input.report, input.now, input.found).0, job) || stepped(
            st,
            input.report,
            input.now,
            input.found,
        ).1.action == Action::Spawn(job),
{
    let mid = absorbed(st, input.report, input.now, input.found).0;
    assert(holds(mid, job)) by {
        if mid.queue != st.queue {
            if let Report::Spawned(fired) = input.report {
                if let Some(next) = requeued(fired, input.now, input.found) {
                    if queued(st.queue, job) {
                        lemma_with_job_keeps_queued(st.queue, next, job);
                    }
                }
            }
        }
    }
    let (end, action) = decided(mid, input.now);
    if mid.pending.len() > 0 {
        if mid.pending.contains(job) {
            let i = choose|i: int| 0 <= i < mid.pending.len() && mid.pending[i] == job;
            if i > 0 {
                assert(mid.pending.drop_first()[i - 1] == job);
            }
        }
    } else if end.queue != mid.queue {
        assert(queued(mid.queue, job));
        lemma_drop_first_queued(mid.queue, job);
    }
}

/// The queue stays well formed over any run of steps.
pub proof fn lemma_run_keeps_well_formed(st: CronView, inputs: Seq<Input>)
    requires
        well_formed(st.queue),
    ensures
        well_formed(state_after(st, inputs).queue),
    decreases inputs.len(),
{
    if inputs.len() > 0 {
        lemma_run_keeps_well_formed(st, inputs.drop_last());
        lemma_step_keeps_well_formed(state_after(st, inputs.drop_last()), inputs.last());
    }
}

/// No run of steps loses a job: a job that the scheduler holds is still held
/// after the run, unless one of its steps handed the job out to be spawned.
pub proof fn lemma_run_keeps_jobs(st: CronView, inputs: Seq<Input>, job: Job)
    requires
        well_formed(st.queue),
        holds(st, job),
    ensures
        holds(state_after(st, inputs), job) || exists|n: int|
            0 < n <= inputs.len() && (#[trigger] last_step(st, inputs.take(n))).action
                == Action::Spawn(job),
    decreases inputs.len(),
{
    if inputs.len() > 0 {
        let front = inputs.drop_last();
        lemma_run_keeps_jobs(st, front, job);
        if holds(state_after(st, front), job) {
            lemma_run_keeps_well_formed(st, front);
            lemma_step_keeps_jobs(state_after(st, front), inputs.last(), job);
            if !holds(state_after(st, inputs), job) {
                assert(inputs.take(inputs.len() as int) == inputs);
                assert(last_step(st, inputs.take(inputs.len() as int)).action == Action::Spawn(
                    job,
                ));
            }
        } else {
            let n = choose|n: int|
                0 < n <= front.len() && (#[trigger] last_step(st, front.take(n))).action
                    == Action::Spawn(job);
            assert(front.take(n) == inputs.take(n));
            assert(last_step(st, inputs.take(n)).action == Action::Spawn(job));
        }
    }
}

/// A spawned job with a further occurrence is requeued for it: the job is
/// then the last of the jobs that are due at that occurrence, which lies
/// after the guarded present, and its previous instant is the one at which
/// it was fired.
pub proof fn lemma_spawned_job_is_requeued(
    st: CronView,
    job: Job,
    now: Instant,
    found: Option<Instant>,
)
    requires
        well_formed(st.queue),
        requeued(job, now, found) is Some,
    ensures
        ({
            let next = requeued(job, now, found).unwrap();
            let after = absorbed(st, Report::Spawned(job), now, found);
            &&& found == Some(next.next_fire())
            &&& now@ + GUARD_SECS * NANOS_PER_SEC < next.next_fire()@
            &&& next.previous_fire() == job.next_fire()
            &&& after.1 == Outcome::Requeued(next.next_fire())
            &&& after.0.queue == with_job(st.queue, next)
            &&& queued(after.0.queue, next)
            &&& jobs_at(after.0.queue, next.next_fire()).last() == next
        }),
{
    broadcast use Job::lemma_rescheduled;

    let next = requeued(job, now, found).unwrap();
    lemma_with_job_queues(st.queue, next);
}

/// The jobs in hand are handed out in their order, one with each step,
/// whatever the driver reports meanwhile.
pub proof fn lemma_pending_fire_in_order(st: CronView, inputs: Seq<Input>, i: int)
    requires
        0 <= i < st.pending.len(),
        inputs.len() == i + 1,
    ensures
        last_step(st, inputs).action == Action::Spawn(st.pending[i]),
        state_after(st, inputs).pending == st.pending.skip(i + 1),
        state_after(st, inputs.drop_last()).pending == st.pending.skip(i),
    decreases i,
{
    let before = state_after(st, inputs.drop_last());
    if i == 0 {
        assert(inputs.drop_last().len() == 0);
        assert(st.pending.skip(0) == st.pending);
    } else {
        lemma_pending_fire_in_order(st, inputs.drop_last(), i - 1);
    }
    assert(before.pending == st.pending.skip(i));
    assert(before.pending.first() == st.pending[i]);
    assert(st.pending.skip(i).drop_first() == st.pending.skip(i + 1));
}

/// The steps of `inputs` may be taken as a first step and the rest.
pub proof fn lemma_state_after_first(st: CronView, inputs: Seq<Input>)
    requires
        inputs.len() > 0,
    ensures
        state_after(st, inputs) == state_after(
            stepped(st, inputs[0].report, inputs[0].now, inputs[0].found).0,
            inputs.drop_first(),
        ),
    decreases inputs.len(),
{
    let first = stepped(st, inputs[0].report, inputs[0].now, inputs[0].found).0;
    let front = inputs.drop_last();
    let rest = inputs.drop_first();
    if inputs.len() == 1 {
        assert(state_after(st, front) == st);
        assert(state_after(first, rest) == first);
        assert(inputs.last() == inputs[0]);
    } else {
        lemma_state_after_first(st, front);
        assert(front[0] == inputs[0]);
        assert(front.drop_first() == rest.drop_last());
        assert(rest.last() == inputs.last());
        assert(state_after(st, front) == state_after(first, rest.drop_last()));
        assert(state_after(first, rest) == stepped(
            state_after(first, rest.drop_last()),
            rest.last().report,
            rest.last().now,
            rest.last().found,
        ).0);
    }
}

/// One round of the loop. When nothing is in hand and the earliest event is
/// not overdue, a tick takes it in hand and asks for a sleep until it is
/// due; each step after that hands out one of its jobs, in the order in
/// which they were enqueued, before any other event is taken from the queue.
pub proof fn lemma_event_fires(st: CronView, inputs: Seq<Input>, i: int)
    requires
        st.pending.len() == 0,
        st.queue.len() > 0,
        inputs.len() == i + 2,
        inputs[0].report == Report::Tick,
        !st.queue.first().time.before(inputs[0].now),
        0 <= i < st.queue.first().jobs.len(),
    ensures
        last_step(st, inputs.take(1)).action matches Action::Sleep { nanos } && nanos
            == st.queue.first().time@ - inputs[0].now@,
        last_step(st, inputs).action == Action::Spawn(st.queue.first().jobs[i]),
        state_after(st, inputs).pending == st.queue.first().jobs.skip(i + 1),
{
    let now = inputs[0].now;
    let one = inputs.take(1);
    assert(one.drop_last().len() == 0);
    assert(one.last() == inputs[0]);
    lemma_sleep_is_whole_gap(st, now);
    let st1 = stepped(st, inputs[0].report, now, inputs[0].found).0;
    assert(st1.pending == st.queue.first().jobs);
    let rest = inputs.drop_first();
    lemma_pending_fire_in_order(st1, rest, i);
    lemma_state_after_first(st, inputs);
    lemma_state_after_first(st, inputs.drop_last());
    assert(inputs.drop_last().drop_first() == rest.drop_last());
    assert(rest.last() == inputs.last());
}

/// Every descriptor that was not refused has its job among the jobs that
/// were built.
pub proof fn lemma_admitted_job(
    descriptors: Seq<JobDescriptor>,
    outcomes: Seq<Option<JobError>>,
    jobs: Seq<Job>,
    now: Instant,
    i: int,
) -> (k: int)
    requires
        admits(descriptors, outcomes, jobs, now),
        0 <= i < descriptors.len(),
        outcomes[i] is None,
    ensures
        0 <= k < jobs.len(),
        built_from(jobs[k], descriptors[i], now),
    decreases descriptors.len(),
{
    if i == descriptors.len() - 1 {
        jobs.len() - 1
    } else if outcomes.last() is None {
        lemma_admitted_job(
            descriptors.drop_last(),
            outcomes.drop_last(),
            jobs.drop_last(),
            now,
            i,
        )
    } else {
        lemma_admitted_job(descriptors.drop_last(), outcomes.drop_last(), jobs, now, i)
    }
}

impl Cron {
    /// The scheduler's invariant: its queue is well formed.
    pub open spec fn wf(&self) -> bool {
        well_formed(self@.queue)
    }

    /// A scheduler without jobs.
    pub fn new() -> (c: Cron)
        ensures
            c.wf(),
            c@ == (CronView { queue: Seq::empty(), pending: Seq::empty(), wakeup_after: 0 }),
    {
        Cron { job_list: EventQueue::new(), wakeup_after: 0, pending: Vec::new() }
    }

    /// The queue of waiting events.
    pub fn job_list(&self) -> (q: &EventQueue)
        ensures
            q@ == self@.queue,
    {
        &self.job_list
    }

    /// The nanoseconds of the last sleep that the scheduler asked for.
    pub fn wakeup_after(&self) -> (nanos: u64)
        ensures
            nanos == self@.wakeup_after,
    {
        self.wakeup_after
    }

    /// The number of jobs of the event in hand that have not been fired yet.
    pub fn pending_len(&self) -> (n: usize)
        ensures
            n == self@.pending.len(),
    {
        self.pending.len()
    }

    /// Registers `job`: it is enqueued at the instant at which it is next due.
    pub fn add_job(&mut self, job: Job)
        requires
            old(self).wf(),
        ensures
            final(self).wf(),
            final(self)@ == (CronView { queue: with_job(old(self)@.queue, job), ..old(self)@ }),
    {
        self.job_list.enqueue(job);
    }

    /// Populates the queue from job descriptors, in their order, at the
    /// present `now`. A descriptor from which no job can be built is skipped:
    /// its place in the result holds the reason, and the others hold `None`.
    ///
    /// A descriptor is refused as `InvalidExpression` exactly if its expression
    /// is malformed.
    pub fn init(&mut self, descriptors: &Vec<JobDescriptor>, now: Instant) -> (outcomes: Vec<
        Option<JobError>,
    >)
        requires
            old(self).wf(),
        ensures
            final(self).wf(),
            outcomes@.len() == descriptors@.len(),
            forall|i: int|
                0 <= i < descriptors@.len() ==> (#[trigger] outcomes@[i] matches Some(
                    JobError::InvalidExpression(_),
                ) <==> !cron_accepts(descriptors@[i].expression@)),
            exists|jobs: Seq<Job>|
                {
                    &&& #[trigger] admits(descriptors@, outcomes@, jobs, now)
                    &&& final(self)@ == (CronView {
                        queue: with_jobs(old(self)@.queue, jobs),
                        ..old(self)@
                    })
                },
    {
        let mut outcomes: Vec<Option<JobError>> = Vec::new();
        let ghost mut jobs: Seq<Job> = Seq::empty();
        let mut i: usize = 0;
        proof {
            assert(descriptors@.take(0) == Seq::<JobDescriptor>::empty());
        }
        while i < descriptors.len()
            invariant
                i <= descriptors@.len(),
                self.wf(),
                outcomes@.len() == i,
                forall|k: int|
                    0 <= k < i ==> (#[trigger] outcomes@[k] matches Some(
                        JobError::InvalidExpression(_),
                    ) <==> !cron_accepts(descriptors@[k].expression@)),
                admits(descriptors@.take(i as int), outcomes@, jobs, now),
                self@ == (CronView { queue: with_jobs(old(self)@.queue, jobs), ..old(self)@ }),
            decreases descriptors@.len() - i,
        {
            let d = &descriptors[i];
            let built = Job::new(
                d.name.clone(),
                d.command_line.clone(),
                d.expression.as_str(),
                now,
            );
            proof {
                assert(descriptors@.take(i + 1).drop_last() == descriptors@.take(i as int));
                assert(descriptors@.take(i + 1).last() == descriptors@[i as int]);
            }
            match built {
                Ok(job) => {
                    proof {
                        assert(outcomes@.push(None).drop_last() == outcomes@);
                        assert(jobs.push(job).drop_last() == jobs);
                        jobs = jobs.push(job);
                    }
                    self.job_list.enqueue(job);
                    outcomes.push(None);
                },
                Err(error) => {
                    proof {
                        assert(outcomes@.push(Some(error)).drop_last() == outcomes@);
                    }
                    outcomes.push(Some(error));
                },
            }
            i = i + 1;
        }
        proof {
            assert(descriptors@.take(i as int) == descriptors@);
        }
        outcomes
    }

    /// One step of the loop: takes the driver's report, and says what became
    /// of the reported job and what the driver is to do next.
    ///
    /// A job whose process was created is requeued for its first occurrence
    /// after `now` plus the guard, or dropped if there is none.
    pub fn step(&mut self, report: Report, now: Instant) -> (r: Step)
        requires
            old(self).wf(),
        ensures
            final(self).wf(),
            exists|found: Option<Instant>|
                (final(self)@, r) == #[trigger] stepped(old(self)@, report, now, found),
            !(report is Spawned) ==> (final(self)@, r) == stepped(old(self)@, report, now, None),
    {
        let found = match &report {
            Report::Spawned(job) => match now.plus_secs(GUARD_SECS) {
                Some(reference) => next_occurrence(job.get_schedule(), reference),
                None => None,
            },
            _ => None,
        };
        self.step_with(report, now, found)
    }

    /// `step`, given the recurrence rule's answer `found` for what follows
    /// the guarded present; `found` is read only when a job is reported as
    /// spawned.
    pub fn step_with(&mut self, report: Report, now: Instant, found: Option<Instant>) -> (r: Step)
        requires
            old(self).wf(),
        ensures
            final(self).wf(),
            (final(self)@, r) == stepped(old(self)@, report, now, found),
    {
        let outcome = self.absorb(report, now, found);
        let action = self.decide(now);
        Step { outcome, action }
    }

    /// Requeues, drops or gives up the reported job.
    fn absorb(&mut self, report: Report, now: Instant, found: Option<Instant>) -> (r: Outcome)
        requires
            old(self).wf(),
        ensures
            final(self).wf(),
            (final(self)@, r) == absorbed(old(self)@, report, now, found),
    {
        match report {
            Report::Tick => Outcome::Nothing,
            Report::SpawnFailed(_) => Outcome::Abandoned,
            Report::Spawned(job) => {
                let next = match now.plus_secs(GUARD_SECS) {
                    Some(reference) => job.advance_to(reference, found),
                    None => None,
                };
                match next {
                    Some(next) => {
                        let due = next.get_next();
                        self.job_list.enqueue(next);
                        Outcome::Requeued(due)
                    },
                    None => Outcome::Exhausted,
                }
            },
        }
    }

    /// Chooses the next action.
    fn decide(&mut self, now: Instant) -> (r: Action)
        requires
            old(self).wf(),
        ensures
            final(self).wf(),
            (final(self)@, r) == decided(old(self)@, now),
    {
        if self.pending.len() > 0 {
            let job = self.pending.remove(0);
            assert(self.pending@ == old(self).pending@.drop_first());
            return Action::Spawn(job);
        }
        let wait = match self.job_list.peek() {
            None => {
                return Action::Shutdown;
            },
            Some(event) => event.get_time().nanos_since(&now),
        };
        match wait {
            None => Action::Retry { secs: FALLBACK_SECS },
            Some(nanos) => {
                match self.job_list.dequeue() {
                    Some(event) => {
                        self.pending = event.into_jobs();
                        self.wakeup_after = nanos;
                        Action::Sleep { nanos }
                    },
                    None => Action::Shutdown,
                }
            },
        }
    }
}

} // verus!
