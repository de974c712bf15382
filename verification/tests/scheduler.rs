use std::str::FromStr;

use xcrond::scheduler::{FALLBACK_SECS, GUARD_SECS};
use xcrond::{Action, Cron, Instant, Job, JobDescriptor, JobError, Outcome, Report, Step};

const T: i64 = 1_700_000_040;

fn t(secs: i64) -> Instant {
    Instant::from_secs(secs).expect("in range")
}

fn nanos(n: i64) -> Instant {
    Instant::from_nanos(n)
}

fn minutely(name: &str, due: i64) -> Job {
    let expression = "0 * * * * *";
    Job::assemble(
        name.to_string(),
        format!("/usr/bin/touch /tmp/{}", name),
        expression.to_string(),
        cron::Schedule::from_str(expression).expect("a valid expression"),
        t(0),
        Some(t(due)),
    )
    .expect("an occurrence after the present")
}

fn descriptor(name: &str, command_line: &str, expression: &str) -> JobDescriptor {
    JobDescriptor {
        name: name.to_string(),
        command_line: command_line.to_string(),
        expression: expression.to_string(),
    }
}

fn spawned_job(step: &Step) -> Job {
    match &step.action {
        Action::Spawn(job) => job.clone(),
        other => panic!("expected a job to spawn, got {:?}", other),
    }
}

#[test]
fn scheduler_constants() {
    assert_eq!(FALLBACK_SECS, 60);
    assert_eq!(GUARD_SECS, 1);
}

#[test]
fn empty_scheduler_shuts_down() {
    let mut cron = Cron::new();
    assert_eq!(cron.job_list().len(), 0);
    assert_eq!(cron.pending_len(), 0);
    assert_eq!(cron.wakeup_after(), 0);
    let step = cron.step(Report::Tick, t(T));
    assert_eq!(step, Step { outcome: Outcome::Nothing, action: Action::Shutdown });
    // It stays that way.
    let again = cron.step(Report::Tick, t(T + 60));
    assert_eq!(again, Step { outcome: Outcome::Nothing, action: Action::Shutdown });
    let mut other = Cron::default();
    assert_eq!(other.step(Report::Tick, t(T)).action, Action::Shutdown);
}

#[test]
fn scheduler_sleeps_until_the_earliest_event_is_due() {
    let mut cron = Cron::new();
    cron.add_job(minutely("late", T + 120));
    cron.add_job(minutely("soon", T + 60));
    // 59.7 s before the earliest event
    let now = nanos((T + 60) * 1_000_000_000 - 59_700_000_000);
    let step = cron.step(Report::Tick, now);
    assert_eq!(
        step,
        Step { outcome: Outcome::Nothing, action: Action::Sleep { nanos: 59_700_000_000 } }
    );
    assert_eq!(cron.wakeup_after(), 59_700_000_000);
    assert_eq!(cron.job_list().len(), 1);
    assert_eq!(cron.pending_len(), 1);
}

#[test]
fn scheduler_does_not_sleep_for_an_event_that_is_due_now() {
    let mut cron = Cron::new();
    cron.add_job(minutely("now", T));
    let step = cron.step(Report::Tick, t(T));
    assert_eq!(step.action, Action::Sleep { nanos: 0 });
    assert_eq!(cron.pending_len(), 1);
}

#[test]
fn overdue_event_stays_queued_and_is_tried_again() {
    let mut cron = Cron::new();
    cron.add_job(minutely("a", T));
    cron.add_job(minutely("b", T));
    cron.add_job(minutely("c", T + 60));
    let late = nanos(T * 1_000_000_000 + 1);
    let step = cron.step(Report::Tick, late);
    assert_eq!(step, Step { outcome: Outcome::Nothing, action: Action::Retry { secs: 60 } });
    assert_eq!(cron.job_list().len(), 2);
    assert_eq!(cron.pending_len(), 0);
    assert_eq!(cron.job_list().peek().expect("the overdue event").get_jobs().len(), 2);
    // Once the clock reads an earlier time again, the event fires.
    let step = cron.step(Report::Tick, t(T - 5));
    assert_eq!(step.action, Action::Sleep { nanos: 5_000_000_000 });
    assert_eq!(cron.pending_len(), 2);
}

#[test]
fn jobs_of_an_event_fire_in_insertion_order_before_the_next_event() {
    let mut cron = Cron::new();
    cron.add_job(minutely("first", T));
    cron.add_job(minutely("other", T + 1));
    cron.add_job(minutely("second", T));
    cron.add_job(minutely("third", T));

    assert_eq!(cron.step(Report::Tick, t(T - 1)).action, Action::Sleep { nanos: 1_000_000_000 });
    assert_eq!(cron.pending_len(), 3);

    let mut report = Report::Tick;
    for name in ["first", "second", "third"] {
        let step = cron.step_with(report, t(T), None);
        let job = spawned_job(&step);
        assert_eq!(job.get_name(), name);
        // The event at T + 1 waits until the event in hand is done.
        assert_eq!(cron.job_list().len(), 1);
        report = Report::SpawnFailed(job);
    }
    let step = cron.step_with(report, t(T), None);
    assert_eq!(step, Step { outcome: Outcome::Abandoned, action: Action::Sleep { nanos: 1_000_000_000 } });
    assert_eq!(cron.job_list().len(), 0);
    assert_eq!(cron.pending_len(), 1);
}

#[test]
fn spawned_job_is_requeued_for_its_next_occurrence() {
    let mut cron = Cron::new();
    cron.add_job(minutely("tick", T));
    assert_eq!(cron.step(Report::Tick, t(T)).action, Action::Sleep { nanos: 0 });
    let job = spawned_job(&cron.step(Report::Tick, t(T)));
    assert_eq!(job.get_next(), t(T));

    let step = cron.step(Report::Spawned(job), t(T));
    assert_eq!(step.outcome, Outcome::Requeued(t(T + 60)));
    // The requeued job is the only one left, and the scheduler sleeps for it.
    assert_eq!(step.action, Action::Sleep { nanos: 60_000_000_000 });
    let requeued = spawned_job(&cron.step(Report::Tick, t(T + 60)));
    assert_eq!(requeued.get_name(), "tick");
    assert_eq!(requeued.get_prev(), t(T));
    assert_eq!(requeued.get_next(), t(T + 60));
}

#[test]
fn guard_skips_an_occurrence_that_is_due_within_a_second() {
    let mut cron = Cron::new();
    // Woken 0.3 s early: the occurrence at T is less than a second away.
    let early = nanos(T * 1_000_000_000 - 300_000_000);
    let step = cron.step(Report::Spawned(minutely("tick", T)), early);
    assert_eq!(step.outcome, Outcome::Requeued(t(T + 60)));
}

#[test]
fn step_with_requeues_only_after_the_guarded_present() {
    let job = minutely("tick", T);
    let now = t(T);
    let guard_end = t(T + 1);

    let mut cron = Cron::new();
    let step = cron.step_with(Report::Spawned(job.clone()), now, Some(guard_end));
    assert_eq!(step.outcome, Outcome::Exhausted);
    assert_eq!(step.action, Action::Shutdown);

    let mut cron = Cron::new();
    let step = cron.step_with(Report::Spawned(job.clone()), now, Some(t(T)));
    assert_eq!(step.outcome, Outcome::Exhausted);

    let mut cron = Cron::new();
    let just_after = nanos((T + 1) * 1_000_000_000 + 1);
    let step = cron.step_with(Report::Spawned(job), now, Some(just_after));
    assert_eq!(step.outcome, Outcome::Requeued(just_after));
    assert_eq!(step.action, Action::Sleep { nanos: 1_000_000_001 });
    assert_eq!(cron.wakeup_after(), 1_000_000_001);
}

#[test]
fn exhausted_job_is_dropped_and_the_queue_does_not_grow() {
    let mut cron = Cron::new();
    cron.add_job(minutely("stays", T + 60));
    let before = cron.job_list().len();
    let step = cron.step_with(Report::Spawned(minutely("done", T)), t(T), None);
    assert_eq!(step.outcome, Outcome::Exhausted);
    assert_eq!(step.action, Action::Sleep { nanos: 60_000_000_000 });
    // The event of "stays" was taken in hand; nothing was added.
    assert_eq!(cron.job_list().len() + cron.pending_len(), before);
    assert_eq!(spawned_job(&cron.step(Report::Tick, t(T + 60))).get_name(), "stays");
}

#[test]
fn job_of_a_rule_that_has_run_out_is_dropped_after_firing() {
    let expression = "0 0 0 1 1 * 2030";
    let once = Job::assemble(
        "once".to_string(),
        "/bin/true".to_string(),
        expression.to_string(),
        cron::Schedule::from_str(expression).expect("a valid expression"),
        t(T),
        Some(t(1_893_456_000)),
    )
    .expect("an occurrence after the present");
    let mut cron = Cron::new();
    cron.add_job(once);
    assert_eq!(cron.job_list().len(), 1);
    // 2030-01-01 00:00:00 UTC, within a day of the rule's only occurrence in any time zone
    let due = t(1_893_456_000);
    assert_eq!(cron.step(Report::Tick, due).action, Action::Sleep { nanos: 0 });
    let job = spawned_job(&cron.step(Report::Tick, due));
    // Fired a day and a half later, the rule has nothing left.
    let step = cron.step(Report::Spawned(job), t(1_893_456_000 + 129_600));
    assert_eq!(step, Step { outcome: Outcome::Exhausted, action: Action::Shutdown });
    assert_eq!(cron.job_list().len(), 0);
}

#[test]
fn failed_spawn_gives_up_the_job_and_goes_on() {
    let mut cron = Cron::new();
    cron.add_job(minutely("a", T));
    cron.add_job(minutely("b", T));
    assert_eq!(cron.step(Report::Tick, t(T)).action, Action::Sleep { nanos: 0 });
    let a = spawned_job(&cron.step(Report::Tick, t(T)));
    let step = cron.step(Report::SpawnFailed(a), t(T));
    assert_eq!(step.outcome, Outcome::Abandoned);
    let b = spawned_job(&step);
    assert_eq!(b.get_name(), "b");
    assert_eq!(cron.job_list().len(), 0);
    let step = cron.step(Report::SpawnFailed(b), t(T));
    assert_eq!(step, Step { outcome: Outcome::Abandoned, action: Action::Shutdown });
}

#[test]
fn job_fired_at_the_last_instant_is_dropped() {
    let mut cron = Cron::new();
    let last = Instant::from_nanos(i64::MAX);
    let step = cron.step_with(Report::Spawned(minutely("j", T)), last, Some(last));
    assert_eq!(step.outcome, Outcome::Exhausted);
    let step = cron.step(Report::Spawned(minutely("j", T)), last);
    assert_eq!(step.outcome, Outcome::Exhausted);
}

#[test]
fn requeued_job_merges_with_a_waiting_event() {
    let mut cron = Cron::new();
    cron.add_job(minutely("waiting", T + 60));
    let step = cron.step_with(Report::Spawned(minutely("fired", T)), t(T), Some(t(T + 60)));
    assert_eq!(step.outcome, Outcome::Requeued(t(T + 60)));
    assert_eq!(step.action, Action::Sleep { nanos: 60_000_000_000 });
    assert_eq!(cron.job_list().len(), 0);
    assert_eq!(cron.pending_len(), 2);
    let first = spawned_job(&cron.step(Report::Tick, t(T + 60)));
    assert_eq!(first.get_name(), "waiting");
    let second = spawned_job(&cron.step(Report::SpawnFailed(first), t(T + 60)));
    assert_eq!(second.get_name(), "fired");
    assert_eq!(second.get_prev(), t(T));
}

#[test]
fn init_skips_invalid_expression_and_keeps_the_rest() {
    let mut cron = Cron::new();
    let descriptors = vec![
        descriptor("Job 1", "/usr/bin/touch /tmp/1", "@minute"),
        descriptor("Job 2", "/usr/bin/touch /tmp/2", "0 0/2 * * * *"),
        descriptor("Job 3", "/usr/bin/touch /tmp/3", "0 0/3 * * * *"),
    ];
    let outcomes = cron.init(&descriptors, t(T));
    assert_eq!(outcomes.len(), 3);
    assert!(matches!(outcomes[0], Some(JobError::InvalidExpression(_))));
    assert_eq!(outcomes[1], None);
    assert_eq!(outcomes[2], None);

    // The valid jobs populate the queue and run from it.
    let mut names = Vec::new();
    for i in 0..cron.job_list().len() {
        for job in cron.job_list().get(i).expect("an event").get_jobs() {
            names.push(job.get_name().to_string());
        }
    }
    names.sort();
    assert_eq!(names, vec!["Job 2".to_string(), "Job 3".to_string()]);

    let first = cron.job_list().peek().expect("an event").get_time();
    let step = cron.step(Report::Tick, first);
    assert_eq!(step.action, Action::Sleep { nanos: 0 });
    let job = spawned_job(&cron.step(Report::Tick, first));
    assert!(job.get_name() == "Job 2" || job.get_name() == "Job 3");
    assert_eq!(job.get_next(), first);
}

#[test]
fn init_reports_each_refusal_in_place() {
    let mut cron = Cron::new();
    let descriptors = vec![
        descriptor("gone", "/bin/true", "0 0 0 1 1 * 1970"),
        descriptor("ok", "/bin/true", "* * * * * *"),
        descriptor("bad", "/bin/true", "every now and then"),
    ];
    let outcomes = cron.init(&descriptors, t(T));
    assert_eq!(outcomes[0], Some(JobError::ScheduleExhausted));
    assert_eq!(outcomes[1], None);
    assert!(matches!(outcomes[2], Some(JobError::InvalidExpression(_))));
    assert_eq!(cron.job_list().len(), 1);
}

#[test]
fn init_with_no_descriptors_leaves_the_scheduler_idle() {
    let mut cron = Cron::new();
    let outcomes = cron.init(&Vec::new(), t(T));
    assert!(outcomes.is_empty());
    assert_eq!(cron.step(Report::Tick, t(T)).action, Action::Shutdown);
}

#[test]
fn init_merges_jobs_that_are_due_together() {
    let mut cron = Cron::new();
    let descriptors = vec![
        descriptor("a", "/bin/true", "0 * * * * *"),
        descriptor("b", "/bin/false", "0 * * * * *"),
    ];
    let outcomes = cron.init(&descriptors, t(T));
    assert_eq!(outcomes, vec![None, None]);
    // Both are due at the start of the next minute.
    assert_eq!(cron.job_list().len(), 1);
    let event = cron.job_list().peek().expect("an event");
    assert_eq!(event.get_time(), t(T + 60));
    let jobs = event.get_jobs();
    assert_eq!(jobs.len(), 2);
    assert_eq!(jobs[0].get_name(), "a");
    assert_eq!(jobs[1].get_name(), "b");
    assert_eq!(jobs[0].get_prev(), t(T));
}

#[test]
fn sleep_keeps_the_part_of_a_second() {
    let mut cron = Cron::new();
    cron.add_job(minutely("j", T));
    // 1.5 s before the event is due
    let now = nanos(T * 1_000_000_000 - 1_500_000_000);
    let step = cron.step(Report::Tick, now);
    assert_eq!(step.action, Action::Sleep { nanos: 1_500_000_000 });
    assert_eq!(cron.wakeup_after(), 1_500_000_000);
    // One nanosecond before it is due
    let mut cron = Cron::new();
    cron.add_job(minutely("j", T));
    let step = cron.step(Report::Tick, nanos(T * 1_000_000_000 - 1));
    assert_eq!(step.action, Action::Sleep { nanos: 1 });
}

#[test]
fn valid_jobs_run_at_their_instants_after_a_skipped_descriptor() {
    let mut cron = Cron::new();
    let descriptors = vec![
        descriptor("bad", "/bin/true", "@minute"),
        descriptor("minute", "/bin/true", "0 * * * * *"),
        descriptor("half", "/bin/true", "30 * * * * *"),
    ];
    // T is the start of a minute.
    let outcomes = cron.init(&descriptors, t(T));
    assert!(matches!(outcomes[0], Some(JobError::InvalidExpression(_))));
    assert_eq!(&outcomes[1..], &[None, None]);

    // A driver whose clock is the sum of the sleeps it was asked for.
    let mut clock = T * 1_000_000_000;
    let mut report = Report::Tick;
    let mut spawned = Vec::new();
    let mut requeued = Vec::new();
    while spawned.len() < 6 {
        let step = cron.step(report, nanos(clock));
        if let Outcome::Requeued(next) = step.outcome {
            requeued.push(next);
        }
        report = match step.action {
            Action::Sleep { nanos } => {
                clock += nanos as i64;
                Report::Tick
            }
            Action::Spawn(job) => {
                // Each job is handed out exactly when it is due.
                assert_eq!(job.get_next(), Instant::from_nanos(clock));
                spawned.push((job.get_name().to_string(), job.get_next()));
                Report::Spawned(job)
            }
            other => panic!("unexpected {:?}", other),
        };
    }
    assert_eq!(
        spawned,
        vec![
            ("half".to_string(), t(T + 30)),
            ("minute".to_string(), t(T + 60)),
            ("half".to_string(), t(T + 90)),
            ("minute".to_string(), t(T + 120)),
            ("half".to_string(), t(T + 150)),
            ("minute".to_string(), t(T + 180)),
        ]
    );
    // Each spawned job was requeued for its following occurrence.
    assert_eq!(requeued, vec![t(T + 90), t(T + 120), t(T + 150), t(T + 180), t(T + 210)]);
}
