//! The mathematical model of the event queue: a sequence of events in the
//! order in which they fire, and what enqueuing a job does to it.

use vstd::prelude::*;

use crate::event::EventView;
use crate::instant::Instant;
use crate::job::Job;

verus! {

/// Each event of `s` is due strictly before every later one, so no two
/// events share an instant.
pub open spec fn ordered(s: Seq<EventView>) -> bool {
    forall|i: int, j: int|
        0 <= i < j < s.len() ==> (#[trigger] s[i]).time.before((#[trigger] s[j]).time)
}

/// A timeline is well formed when it is ordered and each of its events is
/// well formed.
pub open spec fn well_formed(s: Seq<EventView>) -> bool {
    &&& ordered(s)
    &&& forall|i: int| 0 <= i < s.len() ==> (#[trigger] s[i]).wf()
}

/// The number of events of `s` that are due strictly before `t`. In an
/// ordered timeline this is the index at which an event at `t` stands, or
/// the index at which one would have to be inserted.
pub open spec fn rank(s: Seq<EventView>, t: Instant) -> int
    decreases s.len(),
{
    if s.len() == 0 {
        0
    } else {
        rank(s.drop_last(), t) + if s.last().time.before(t) {
            1int
        } else {
            0int
        }
    }
}

/// Whether an event of `s` is due at `t`.
pub open spec fn has_event_at(s: Seq<EventView>, t: Instant) -> bool {
    rank(s, t) < s.len() && s[rank(s, t)].time == t
}

/// The jobs that are due at `t`, oldest first; none if no event is due then.
pub open spec fn jobs_at(s: Seq<EventView>, t: Instant) -> Seq<Job> {
    if has_event_at(s, t) {
        s[rank(s, t)].jobs
    } else {
        Seq::empty()
    }
}

/// The instants at which the events of `s` are due, in firing order.
pub open spec fn times(s: Seq<EventView>) -> Seq<Instant> {
    s.map_values(|e: EventView| e.time)
}

/// The set of instants at which an event of `s` is due.
pub open spec fn fire_times(s: Seq<EventView>) -> Set<Instant> {
    times(s).to_set()
}

/// The timeline after `job` was enqueued: `job` joins the event that is due
/// at the job's instant, behind that event's other jobs; if there is no
/// such event, a new one that holds `job` alone takes its place in the order.
pub open spec fn with_job(s: Seq<EventView>, job: Job) -> Seq<EventView> {
    let t = job.next_fire();
    let k = rank(s, t);
    if has_event_at(s, t) {
        s.update(k, s[k].plus(job))
    } else {
        s.insert(k, EventView::single(job))
    }
}

/// The timeline after the jobs of `jobs` were enqueued one after the other.
pub open spec fn with_jobs(s: Seq<EventView>, jobs: Seq<Job>) -> Seq<EventView>
    decreases jobs.len(),
{
    if jobs.len() == 0 {
        s
    } else {
        with_job(with_jobs(s, jobs.drop_last()), jobs.last())
    }
}

/// The instants at which the jobs of `jobs` are next due.
pub open spec fn next_fires(jobs: Seq<Job>) -> Seq<Instant> {
    jobs.map_values(|j: Job| j.next_fire())
}

/// All the jobs that the events of `s` hold, in firing order.
pub open spec fn held_jobs(s: Seq<EventView>) -> Seq<Job>
    decreases s.len(),
{
    if s.len() == 0 {
        Seq::empty()
    } else {
        held_jobs(s.drop_last()) + s.last().jobs
    }
}

/// Whether some event of `s` holds `job`.
pub open spec fn queued(s: Seq<EventView>, job: Job) -> bool {
    exists|i: int| 0 <= i < s.len() && (#[trigger] s[i]).jobs.contains(job)
}

/// `rank` is an index into the timeline, or its length.
pub proof fn lemma_rank_bounds(s: Seq<EventView>, t: Instant)
    ensures
        0 <= rank(s, t) <= s.len(),
    decreases s.len(),
{
    if s.len() > 0 {
        lemma_rank_bounds(s.drop_last(), t);
    }
}

/// In an ordered timeline, the index that parts the events before `t` from
/// the others is the rank of `t`.
pub proof fn lemma_rank_is(s: Seq<EventView>, t: Instant, k: int)
    requires
        0 <= k <= s.len(),
        forall|i: int| 0 <= i < k ==> (#[trigger] s[i]).time.before(t),
        forall|i: int| k <= i < s.len() ==> !(#[trigger] s[i]).time.before(t),
    ensures
        rank(s, t) == k,
    decreases s.len(),
{
    if s.len() > 0 {
        let init = s.drop_last();
        if k == s.len() {
            lemma_rank_is(init, t, k - 1);
        } else {
            lemma_rank_is(init, t, k);
        }
    }
}

/// In an ordered timeline, exactly the events below the rank of `t` are due
/// before `t`.
pub proof fn lemma_rank_parts(s: Seq<EventView>, t: Instant)
    requires
        ordered(s),
    ensures
        0 <= rank(s, t) <= s.len(),
        forall|i: int| 0 <= i < rank(s, t) ==> (#[trigger] s[i]).time.before(t),
        forall|i: int| rank(s, t) <= i < s.len() ==> !(#[trigger] s[i]).time.before(t),
    decreases s.len(),
{
    if s.len() > 0 {
        let init = s.drop_last();
        lemma_rank_parts(init, t);
        let n = s.len() - 1;
        assert forall|i: int| 0 <= i < rank(s, t) implies (#[trigger] s[i]).time.before(t) by {
            if i < n {
                assert(init[i] == s[i]);
                if !s[i].time.before(t) {
                    // then the last event is not before `t` either
                    assert(s[i].time.before(s[n].time));
                }
            }
        }
        assert forall|i: int| rank(s, t) <= i < s.len() implies !(#[trigger] s[i]).time.before(
            t,
        ) by {
            if i < n {
                assert(init[i] == s[i]);
                if s.last().time.before(t) {
                    assert(s[i].time.before(s[n].time));
                }
            }
        }
    }
}

/// An event of an ordered timeline stands at the rank of its own instant.
pub proof fn lemma_rank_of_event(s: Seq<EventView>, i: int)
    requires
        ordered(s),
        0 <= i < s.len(),
    ensures
        rank(s, s[i].time) == i,
        has_event_at(s, s[i].time),
        jobs_at(s, s[i].time) == s[i].jobs,
{
    let t = s[i].time;
    assert forall|k: int| 0 <= k < i implies (#[trigger] s[k]).time.before(t) by {}
    assert forall|k: int| i <= k < s.len() implies !(#[trigger] s[k]).time.before(t) by {
        if i < k {
            assert(s[i].time.before(s[k].time));
        }
    }
    lemma_rank_is(s, t, i);
}

/// Enqueuing a job keeps a timeline well formed.
pub proof fn lemma_with_job_well_formed(s: Seq<EventView>, job: Job)
    requires
        well_formed(s),
    ensures
        well_formed(with_job(s, job)),
{
    let t = job.next_fire();
    let k = rank(s, t);
    let r = with_job(s, job);
    lemma_rank_parts(s, t);
    if has_event_at(s, t) {
        assert forall|i: int| 0 <= i < r.len() implies (#[trigger] r[i]).wf() by {
            if i != k {
                assert(r[i] == s[i]);
            } else {
                assert(s[k].wf());
            }
        }
        assert forall|i: int, j: int| 0 <= i < j < r.len() implies (#[trigger] r[i]).time.before(
            (#[trigger] r[j]).time,
        ) by {
            assert(r[i].time == s[i].time);
            assert(r[j].time == s[j].time);
        }
    } else {
        assert forall|i: int| 0 <= i < r.len() implies (#[trigger] r[i]).wf() by {
            if i < k {
                assert(r[i] == s[i]);
            } else if i > k {
                assert(r[i] == s[i - 1]);
            }
        }
        assert forall|i: int, j: int| 0 <= i < j < r.len() implies (#[trigger] r[i]).time.before(
            (#[trigger] r[j]).time,
        ) by {
            let a = if i < k { i } else { i - 1 };
            let b = if j < k { j } else { j - 1 };
            if i != k {
                assert(r[i] == s[a]);
            }
            if j != k {
                assert(r[j] == s[b]);
            }
            if j == k {
                assert(s[a].time.before(t));
            } else if i == k {
                assert(!s[b].time.before(t));
                if b == k {
                    assert(s[k].time != t);
                }
                Instant::lemma_total_order(s[b].time, t);
            } else {
                assert(s[a].time.before(s[b].time));
            }
        }
    }
}

/// Enqueuing a job adds it behind the jobs that are due at its instant, and
/// leaves the jobs of every other instant as they were.
pub proof fn lemma_with_job_jobs_at(s: Seq<EventView>, job: Job, t: Instant)
    requires
        well_formed(s),
    ensures
        jobs_at(with_job(s, job), t) == if t == job.next_fire() {
            jobs_at(s, t).push(job)
        } else {
            jobs_at(s, t)
        },
{
    let u = job.next_fire();
    let k = rank(s, u);
    let r = with_job(s, job);
    lemma_rank_parts(s, u);
    lemma_rank_parts(s, t);
    lemma_with_job_well_formed(s, job);
    let m = rank(s, t);
    if has_event_at(s, u) {
        // same instants at the same places
        assert forall|i: int| 0 <= i < r.len() implies (#[trigger] r[i]).time == s[i].time by {}
        assert forall|i: int| 0 <= i < m implies (#[trigger] r[i]).time.before(t) by {
            assert(s[i].time.before(t));
        }
        assert forall|i: int| m <= i < r.len() implies !(#[trigger] r[i]).time.before(t) by {
            assert(!s[i].time.before(t));
        }
        lemma_rank_is(r, t, m);
        if t == u {
            assert(jobs_at(r, t) == jobs_at(s, t).push(job));
        } else if has_event_at(s, t) {
            assert(m != k);
            assert(r[m] == s[m]);
        }
    } else {
        let m2 = if t.before(u) || t == u { m } else { m + 1 };
        if t.before(u) {
            assert(m <= k) by {
                if k < m {
                    assert(s[k].time.before(t));
                    assert(!s[k].time.before(u));
                }
            }
        } else if t == u {
        } else {
            Instant::lemma_total_order(t, u);
            assert(k <= m) by {
                if m < k {
                    assert(s[m].time.before(u));
                    assert(!s[m].time.before(t));
                    if s[m].time != t {
                        Instant::lemma_total_order(s[m].time, t);
                    }
                }
            }
            if m == k && k < s.len() {
                assert(!s[k].time.before(u));
            }
        }
        assert forall|i: int| 0 <= i < m2 implies (#[trigger] r[i]).time.before(t) by {
            if i < k {
                assert(r[i] == s[i]);
                if t.before(u) || t == u {
                    assert(s[i].time.before(t));
                } else if i >= m {
                    // i == m < k: the event at m lies before u and not before t
                    assert(s[i].time.before(u));
                    assert(!s[i].time.before(t));
                    if s[i].time != t {
                        Instant::lemma_total_order(s[i].time, t);
                    }
                    assert(false);
                } else {
                    assert(s[i].time.before(t));
                }
            } else if i > k {
                assert(r[i] == s[i - 1]);
                assert(s[i - 1].time.before(t));
            }
        }
        assert forall|i: int| m2 <= i < r.len() implies !(#[trigger] r[i]).time.before(t) by {
            if i < k {
                assert(r[i] == s[i]);
                assert(!s[i].time.before(t));
            } else if i > k {
                assert(r[i] == s[i - 1]);
                if i - 1 >= m {
                    assert(!s[i - 1].time.before(t));
                } else {
                    // i - 1 < m, so t is not after u, and i - 1 >= k
                    assert(s[i - 1].time.before(t));
                    assert(!s[i - 1].time.before(u));
                }
            }
        }
        lemma_rank_is(r, t, m2);
        if t == u {
            assert(r[m2] == EventView::single(job));
            assert(jobs_at(s, t) == Seq::<Job>::empty());
            assert(jobs_at(r, t) == Seq::<Job>::empty().push(job));
        } else if m2 < r.len() {
            if m2 < k {
                assert(r[m2] == s[m2]);
            } else if m2 > k {
                assert(r[m2] == s[m2 - 1]);
            } else {
                assert(r[m2].time == u);
                // m2 == k: the new event stands where t ranks; s has none at t
                if has_event_at(s, t) {
                    assert(s[m].time == t);
                    if t.before(u) {
                        assert(m == k);
                        assert(!s[k].time.before(u));
                    }
                }
            }
        }
    }
}

/// In an ordered timeline, an event is due at `t` exactly if `t` is among
/// the instants of the timeline.
pub proof fn lemma_fire_times_contains(s: Seq<EventView>, t: Instant)
    requires
        ordered(s),
    ensures
        fire_times(s).contains(t) <==> has_event_at(s, t),
{
    lemma_rank_bounds(s, t);
    if has_event_at(s, t) {
        assert(times(s)[rank(s, t)] == t);
    }
    if fire_times(s).contains(t) {
        let i = choose|i: int| 0 <= i < times(s).len() && times(s)[i] == t;
        lemma_rank_of_event(s, i);
    }
}

/// In a well-formed timeline, an event is due at `t` exactly if some job is.
pub proof fn lemma_has_event_jobs(s: Seq<EventView>, t: Instant)
    requires
        well_formed(s),
    ensures
        has_event_at(s, t) <==> jobs_at(s, t).len() > 0,
{
    lemma_rank_bounds(s, t);
    if has_event_at(s, t) {
        assert(s[rank(s, t)].wf());
    }
}

/// An ordered timeline holds as many events as there are instants at which
/// one of its events is due.
pub proof fn lemma_fire_times_len(s: Seq<EventView>)
    requires
        ordered(s),
    ensures
        fire_times(s).finite(),
        fire_times(s).len() == s.len(),
{
    let ts = times(s);
    assert forall|i: int, j: int| 0 <= i < ts.len() && 0 <= j < ts.len() && i != j implies ts[i]
        != ts[j] by {
        if i < j {
            assert(s[i].time.before(s[j].time));
        } else {
            assert(s[j].time.before(s[i].time));
        }
    }
    ts.unique_seq_to_set();
    vstd::seq_lib::seq_to_set_is_finite(ts);
}

/// Enqueuing a job adds its instant to those of the timeline, and no other.
pub proof fn lemma_with_job_fire_times(s: Seq<EventView>, job: Job)
    requires
        well_formed(s),
    ensures
        fire_times(with_job(s, job)) == fire_times(s).insert(job.next_fire()),
{
    let r = with_job(s, job);
    lemma_with_job_well_formed(s, job);
    assert forall|t: Instant| fire_times(r).contains(t) <==> fire_times(s).insert(
        job.next_fire(),
    ).contains(t) by {
        lemma_fire_times_contains(s, t);
        lemma_fire_times_contains(r, t);
        lemma_with_job_jobs_at(s, job, t);
        lemma_has_event_jobs(s, t);
        lemma_has_event_jobs(r, t);
    }
    assert(fire_times(r) =~= fire_times(s).insert(job.next_fire()));
}

/// Enqueuing jobs one after the other keeps a timeline well formed.
pub proof fn lemma_with_jobs_well_formed(s: Seq<EventView>, jobs: Seq<Job>)
    requires
        well_formed(s),
    ensures
        well_formed(with_jobs(s, jobs)),
    decreases jobs.len(),
{
    if jobs.len() > 0 {
        lemma_with_jobs_well_formed(s, jobs.drop_last());
        lemma_with_job_well_formed(with_jobs(s, jobs.drop_last()), jobs.last());
    }
}

/// After any sequence of enqueue calls, the instants of the timeline are
/// those it had before and those at which the enqueued jobs are due.
pub proof fn lemma_with_jobs_fire_times(s: Seq<EventView>, jobs: Seq<Job>)
    requires
        well_formed(s),
    ensures
        fire_times(with_jobs(s, jobs)) == fire_times(s).union(next_fires(jobs).to_set()),
    decreases jobs.len(),
{
    if jobs.len() == 0 {
        assert(next_fires(jobs).to_set() =~= Set::<Instant>::empty());
        assert(fire_times(s).union(Set::<Instant>::empty()) =~= fire_times(s));
    } else {
        let init = jobs.drop_last();
        lemma_with_jobs_fire_times(s, init);
        lemma_with_jobs_well_formed(s, init);
        lemma_with_job_fire_times(with_jobs(s, init), jobs.last());
        assert(next_fires(jobs) == next_fires(init).push(jobs.last().next_fire()));
        next_fires(init).lemma_push_to_set_commute(jobs.last().next_fire());
        assert(fire_times(s).union(next_fires(init).to_set()).insert(jobs.last().next_fire())
            =~= fire_times(s).union(next_fires(jobs).to_set()));
    }
}

/// The merge invariant: after any sequence of enqueue calls on an empty
/// queue, the number of events equals the number of distinct instants at
/// which the enqueued jobs are due.
pub proof fn lemma_merge_invariant(jobs: Seq<Job>)
    ensures
        well_formed(with_jobs(Seq::empty(), jobs)),
        with_jobs(Seq::empty(), jobs).len() == next_fires(jobs).to_set().len(),
{
    let empty = Seq::<EventView>::empty();
    lemma_with_jobs_well_formed(empty, jobs);
    lemma_with_jobs_fire_times(empty, jobs);
    lemma_fire_times_len(with_jobs(empty, jobs));
    assert(fire_times(empty) =~= Set::<Instant>::empty());
    assert(Set::<Instant>::empty().union(next_fires(jobs).to_set()) =~= next_fires(jobs).to_set());
}

/// After any sequence of enqueue calls, the jobs due at an instant are those
/// that were due then before, followed by the enqueued jobs that are due
/// then, in the order in which they were enqueued.
pub proof fn lemma_with_jobs_groups(s: Seq<EventView>, jobs: Seq<Job>, t: Instant)
    requires
        well_formed(s),
    ensures
        jobs_at(with_jobs(s, jobs), t) == jobs_at(s, t) + jobs.filter(
            |j: Job| j.next_fire() == t,
        ),
    decreases jobs.len(),
{
    let due = |j: Job| j.next_fire() == t;
    if jobs.len() == 0 {
        assert(jobs.filter(due) == Seq::<Job>::empty());
        assert(jobs_at(s, t) + Seq::<Job>::empty() == jobs_at(s, t));
    } else {
        let init = jobs.drop_last();
        let last = jobs.last();
        lemma_with_jobs_groups(s, init, t);
        lemma_with_jobs_well_formed(s, init);
        lemma_with_job_jobs_at(with_jobs(s, init), last, t);
        assert(jobs == init.push(last));
        init.lemma_filter_push(last, due);
        if last.next_fire() == t {
            assert((jobs_at(s, t) + init.filter(due)).push(last) == jobs_at(s, t) + init.filter(
                due,
            ).push(last));
        }
    }
}

/// The earliest event is dequeued first: the first event of a timeline is
/// due before every other event that the timeline holds.
pub proof fn lemma_first_is_earliest(s: Seq<EventView>, i: int)
    requires
        ordered(s),
        0 < i < s.len(),
    ensures
        s.first().time.before(s[i].time),
{
}

/// Successive dequeues return the events in increasing order of their
/// instants: after `i` dequeues the next one returns `s[i]`, which is due
/// before what any later dequeue returns.
pub proof fn lemma_dequeue_order(s: Seq<EventView>, i: int, j: int)
    requires
        ordered(s),
        0 <= i < j < s.len(),
    ensures
        s.skip(i).first() == s[i],
        s.skip(j).first() == s[j],
        s.skip(i).drop_first() == s.skip(i + 1),
        s[i].time.before(s[j].time),
{
}

/// A job enqueued on an empty queue is what the next dequeue returns, alone
/// in its event, and the queue is empty again afterwards.
pub proof fn lemma_enqueue_then_dequeue(job: Job)
    ensures
        with_job(Seq::empty(), job) == seq![EventView::single(job)],
        with_job(Seq::empty(), job).first() == EventView::single(job),
        with_job(Seq::empty(), job).drop_first() == Seq::<EventView>::empty(),
{
    let empty = Seq::<EventView>::empty();
    lemma_rank_bounds(empty, job.next_fire());
    assert(with_job(empty, job) =~= seq![EventView::single(job)]);
    assert(seq![EventView::single(job)].drop_first() =~= empty);
}

/// The events that come out after `jobs` were enqueued on an empty queue
/// hold exactly the enqueued jobs: each event holds the jobs that are due at
/// its instant, in the order in which they were enqueued, and each job is in
/// the event at its instant.
pub proof fn lemma_enqueued_events(jobs: Seq<Job>, i: int)
    requires
        0 <= i < with_jobs(Seq::empty(), jobs).len(),
    ensures
        with_jobs(Seq::empty(), jobs)[i].jobs == jobs.filter(
            |j: Job| j.next_fire() == with_jobs(Seq::empty(), jobs)[i].time,
        ),
{
    let empty = Seq::<EventView>::empty();
    let s = with_jobs(empty, jobs);
    let t = s[i].time;
    lemma_with_jobs_well_formed(empty, jobs);
    lemma_with_jobs_groups(empty, jobs, t);
    lemma_rank_of_event(s, i);
    lemma_rank_bounds(empty, t);
    assert(jobs_at(empty, t) == Seq::<Job>::empty());
    assert(Seq::<Job>::empty() + jobs.filter(|j: Job| j.next_fire() == t) == jobs.filter(
        |j: Job| j.next_fire() == t,
    ));
}

/// Two enqueued jobs come out in one event if and only if they are due at
/// the same instant.
pub proof fn lemma_grouped_iff_same_instant(jobs: Seq<Job>, a: int, b: int)
    requires
        0 <= a < jobs.len(),
        0 <= b < jobs.len(),
    ensures
        jobs_at(with_jobs(Seq::empty(), jobs), jobs[a].next_fire()).contains(jobs[a]),
        jobs_at(with_jobs(Seq::empty(), jobs), jobs[a].next_fire()).contains(jobs[b])
            <==> jobs[a].next_fire() == jobs[b].next_fire(),
{
    let empty = Seq::<EventView>::empty();
    let t = jobs[a].next_fire();
    let due = |j: Job| j.next_fire() == t;
    lemma_with_jobs_groups(empty, jobs, t);
    lemma_rank_bounds(empty, t);
    assert(jobs_at(empty, t) == Seq::<Job>::empty());
    assert(Seq::<Job>::empty() + jobs.filter(due) == jobs.filter(due));
    jobs.lemma_filter_contains(due, a);
    if jobs[b].next_fire() == t {
        jobs.lemma_filter_contains(due, b);
    }
    if jobs.filter(due).contains(jobs[b]) {
        let k = choose|k: int| 0 <= k < jobs.filter(due).len() && jobs.filter(due)[k] == jobs[b];
        jobs.lemma_filter_pred(due, k);
    }
}

/// The instants of a well-formed timeline are those at which the jobs it
/// holds are due.
pub proof fn lemma_fire_times_of_held(s: Seq<EventView>)
    requires
        well_formed(s),
    ensures
        fire_times(s) == next_fires(held_jobs(s)).to_set(),
    decreases s.len(),
{
    if s.len() == 0 {
        assert(fire_times(s) =~= Set::<Instant>::empty());
        assert(next_fires(held_jobs(s)).to_set() =~= Set::<Instant>::empty());
    } else {
        let init = s.drop_last();
        let last = s.last();
        assert(well_formed(init)) by {
            assert forall|i: int| 0 <= i < init.len() implies (#[trigger] init[i]).wf() by {
                assert(init[i] == s[i]);
            }
            assert forall|i: int, j: int| 0 <= i < j < init.len() implies (#[trigger] init[i]).time.before(
                (#[trigger] init[j]).time,
            ) by {
                assert(init[i] == s[i]);
                assert(init[j] == s[j]);
            }
        }
        lemma_fire_times_of_held(init);
        assert(last.wf());
        let due = next_fires(last.jobs);
        assert(due.to_set() =~= set![last.time]) by {
            assert(due[0] == last.time);
            assert forall|t: Instant| due.to_set().contains(t) implies t == last.time by {
                let k = choose|k: int| 0 <= k < due.len() && due[k] == t;
                assert(last.jobs[k].next_fire() == last.time);
            }
        }
        assert(next_fires(held_jobs(s)) == next_fires(held_jobs(init)) + due);
        vstd::seq_lib::seq_to_set_distributes_over_add(next_fires(held_jobs(init)), due);
        assert(times(s) == times(init).push(last.time));
        times(init).lemma_push_to_set_commute(last.time);
        assert(fire_times(init).insert(last.time) =~= fire_times(init).union(set![last.time]));
    }
}

/// The merge invariant, at any time: a well-formed timeline holds as many
/// events as there are distinct instants at which the jobs it holds are due.
pub proof fn lemma_events_count_distinct_instants(s: Seq<EventView>)
    requires
        well_formed(s),
    ensures
        s.len() == next_fires(held_jobs(s)).to_set().len(),
{
    lemma_fire_times_of_held(s);
    lemma_fire_times_len(s);
}

/// Enqueuing a job removes no job from the timeline.
pub proof fn lemma_with_job_keeps_queued(s: Seq<EventView>, added: Job, job: Job)
    requires
        queued(s, job),
    ensures
        queued(with_job(s, added), job),
{
    let t = added.next_fire();
    let k = rank(s, t);
    let r = with_job(s, added);
    lemma_rank_bounds(s, t);
    let i = choose|i: int| 0 <= i < s.len() && (#[trigger] s[i]).jobs.contains(job);
    if has_event_at(s, t) {
        if i == k {
            let at = choose|at: int| 0 <= at < s[k].jobs.len() && s[k].jobs[at] == job;
            assert(r[k].jobs[at] == job);
        } else {
            assert(r[i] == s[i]);
        }
        assert(r[i].jobs.contains(job));
    } else if i < k {
        assert(r[i] == s[i]);
        assert(r[i].jobs.contains(job));
    } else {
        assert(r[i + 1] == s[i]);
        assert(r[i + 1].jobs.contains(job));
    }
}

/// An enqueued job is in the timeline: it is the last of the jobs that are
/// due at its instant.
pub proof fn lemma_with_job_queues(s: Seq<EventView>, job: Job)
    requires
        well_formed(s),
    ensures
        queued(with_job(s, job), job),
        has_event_at(with_job(s, job), job.next_fire()),
        jobs_at(with_job(s, job), job.next_fire()).last() == job,
{
    let t = job.next_fire();
    let r = with_job(s, job);
    lemma_with_job_well_formed(s, job);
    lemma_with_job_jobs_at(s, job, t);
    lemma_has_event_jobs(r, t);
    lemma_rank_bounds(r, t);
    let k = rank(r, t);
    assert(r[k].jobs[r[k].jobs.len() - 1] == job);
    assert(r[k].jobs.contains(job));
}

/// A job of the timeline is held by the first event or by one of the others.
pub proof fn lemma_drop_first_queued(s: Seq<EventView>, job: Job)
    requires
        queued(s, job),
    ensures
        s.first().jobs.contains(job) || queued(s.drop_first(), job),
{
    let i = choose|i: int| 0 <= i < s.len() && (#[trigger] s[i]).jobs.contains(job);
    if i > 0 {
        assert(s.drop_first()[i - 1] == s[i]);
        assert(s.drop_first()[i - 1].jobs.contains(job));
    }
}

/// Every job of a sequence of enqueue calls is in the timeline afterwards.
pub proof fn lemma_with_jobs_queues(s: Seq<EventView>, jobs: Seq<Job>, k: int)
    requires
        well_formed(s),
        0 <= k < jobs.len(),
    ensures
        queued(with_jobs(s, jobs), jobs[k]),
    decreases jobs.len(),
{
    let init = jobs.drop_last();
    lemma_with_jobs_well_formed(s, init);
    if k == jobs.len() - 1 {
        lemma_with_job_queues(with_jobs(s, init), jobs.last());
    } else {
        lemma_with_jobs_queues(s, init, k);
        lemma_with_job_keeps_queued(with_jobs(s, init), jobs.last(), jobs[k]);
    }
}

} // verus!
