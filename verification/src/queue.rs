//! The event queue: events kept in fire order, with same-instant jobs merged
//! into one event.

use vstd::prelude::*;

use crate::event::{Event, EventView};
use crate::instant::Instant;
use crate::job::Job;
use crate::timeline::{
    lemma_rank_is, lemma_rank_of_event, lemma_with_job_well_formed, well_formed, with_job,
};

verus! {

/// A queue of events ordered by the instant at which they are due.
///
/// The events are stored latest first, so that the earliest is at the end of
/// the vector and can be removed in constant time.
#[derive(Clone, Debug)]
pub struct EventQueue {
    queue: Vec<Event>,
}

impl View for EventQueue {
    type V = Seq<EventView>;

    /// The events in the order in which they fire, earliest first.
    closed spec fn view(&self) -> Seq<EventView> {
        Seq::new(self.queue@.len(), |i: int| self.queue@[self.queue@.len() - 1 - i]@)
    }
}

impl Default for EventQueue {
    fn default() -> (q: EventQueue)
        ensures
            q@ == Seq::<EventView>::empty(),
            q.wf(),
    {
        EventQueue::new()
    }
}

impl EventQueue {
    /// The queue's invariant: its events are due at strictly increasing
    /// instants, each holds a job, and each job is due at its event's instant.
    pub open spec fn wf(&self) -> bool {
        well_formed(self@)
    }

    /// The stored vector runs from the latest event to the earliest.
    proof fn lemma_stored_descending(&self)
        requires
            self.wf(),
        ensures
            forall|i: int, j: int|
                0 <= i < j < self.queue@.len() ==> (#[trigger] self.queue@[j])@.time.before(
                    (#[trigger] self.queue@[i])@.time,
                ),
    {
        let n = self.queue@.len() as int;
        assert forall|i: int, j: int| 0 <= i < j < n implies (#[trigger] self.queue@[j])@.time.before(
            (#[trigger] self.queue@[i])@.time,
        ) by {
            assert(self@[n - 1 - j] == self.queue@[j]@);
            assert(self@[n - 1 - i] == self.queue@[i]@);
        }
    }

    /// An empty queue.
    pub fn new() -> (q: EventQueue)
        ensures
            q@ == Seq::<EventView>::empty(),
            q.wf(),
    {
        let q = EventQueue { queue: Vec::new() };
        assert(q@ == Seq::<EventView>::empty());
        q
    }

    /// The number of events in the queue.
    pub fn len(&self) -> (n: usize)
        ensures
            n == self@.len(),
    {
        self.queue.len()
    }

    /// Whether the queue holds no event.
    pub fn is_empty(&self) -> (b: bool)
        ensures
            b == (self@.len() == 0),
    {
        self.queue.len() == 0
    }

    /// Binary search, over the stored order, for the event that is due at `t`:
    /// `Ok` with its index, or `Err` with the index at which an event at `t`
    /// has to be inserted.
    fn search(&self, t: Instant) -> (r: Result<usize, usize>)
        requires
            self.wf(),
        ensures
            match r {
                Ok(pos) => pos < self.queue@.len() && self.queue@[pos as int]@.time == t,
                Err(pos) => {
                    &&& pos <= self.queue@.len()
                    &&& forall|i: int| 0 <= i < pos ==> t.before((#[trigger] self.queue@[i])@.time)
                    &&& forall|i: int|
                        pos <= i < self.queue@.len() ==> (#[trigger] self.queue@[i])@.time.before(t)
                },
            },
    {
        proof {
            self.lemma_stored_descending();
        }
        let mut lo: usize = 0;
        let mut hi: usize = self.queue.len();
        while lo < hi
            invariant
                lo <= hi <= self.queue@.len(),
                forall|i: int| 0 <= i < lo ==> t.before((#[trigger] self.queue@[i])@.time),
                forall|i: int|
                    hi <= i < self.queue@.len() ==> (#[trigger] self.queue@[i])@.time.before(t),
                forall|i: int, j: int|
                    0 <= i < j < self.queue@.len() ==> (#[trigger] self.queue@[j])@.time.before(
                        (#[trigger] self.queue@[i])@.time,
                    ),
            decreases hi - lo,
        {
            let mid = lo + (hi - lo) / 2;
            let probe = self.queue[mid].get_time();
            if t.is_before(&probe) {
                lo = mid + 1;
            } else if probe.is_before(&t) {
                hi = mid;
            } else {
                proof {
                    Instant::lemma_view_injective(probe, t);
                }
                return Ok(mid);
            }
        }
        Err(lo)
    }

    /// Enqueues `j` at the instant at which it is next due: it joins the
    /// event that is due then, behind that event's other jobs, or else
    /// becomes a new event at its place in the order.
    pub fn enqueue(&mut self, j: Job)
        requires
            old(self).wf(),
        ensures
            final(self).wf(),
            final(self)@ == with_job(old(self)@, j),
    {
        let t = j.get_next();
        let ghost before = self@;
        let ghost n = self.queue@.len() as int;
        proof {
            lemma_with_job_well_formed(before, j);
        }
        match self.search(t) {
            Ok(pos) => {
                proof {
                    assert(before[n - 1 - pos] == self.queue@[pos as int]@);
                    lemma_rank_of_event(before, n - 1 - pos);
                }
                self.queue[pos].push_job(j);
                assert(self@ == before.update(n - 1 - pos, before[n - 1 - pos].plus(j)));
            },
            Err(pos) => {
                proof {
                    assert forall|i: int| 0 <= i < n - pos implies (#[trigger] before[i]).time.before(
                        t,
                    ) by {
                        assert(before[i] == self.queue@[n - 1 - i]@);
                    }
                    assert forall|i: int| n - pos <= i < n implies !(#[trigger] before[i]).time.before(
                        t,
                    ) by {
                        assert(before[i] == self.queue@[n - 1 - i]@);
                    }
                    lemma_rank_is(before, t, n - pos);
                    if n - pos < n {
                        assert(before[n - pos] == self.queue@[pos - 1]@);
                    }
                }
                let mut e = Event::new(t);
                e.push_job(j);
                assert(e@ == EventView::single(j));
                self.queue.insert(pos, e);
                assert(self@ == before.insert(n - pos, EventView::single(j)));
            },
        }
    }

    /// Removes and returns the event that is due first, if there is one.
    pub fn dequeue(&mut self) -> (r: Option<Event>)
        requires
            old(self).wf(),
        ensures
            final(self).wf(),
            match r {
                Some(e) => {
                    &&& old(self)@.len() > 0
                    &&& e@ == old(self)@.first()
                    &&& e.wf()
                    &&& final(self)@ == old(self)@.drop_first()
                },
                None => old(self)@.len() == 0 && final(self)@ == old(self)@,
            },
    {
        let ghost before = self@;
        let r = self.queue.pop();
        proof {
            if r is Some {
                assert(self@ == before.drop_first());
                assert(before[0].wf());
                assert forall|i: int| 0 <= i < self@.len() implies (#[trigger] self@[i]).wf() by {
                    assert(self@[i] == before[i + 1]);
                }
                assert forall|i: int, j: int| 0 <= i < j < self@.len() implies (#[trigger] self@[i]).time.before(
                    (#[trigger] self@[j]).time,
                ) by {
                    assert(self@[i] == before[i + 1]);
                    assert(self@[j] == before[j + 1]);
                }
            } else {
                assert(self@ == before);
            }
        }
        r
    }

    /// The event that is due first, if there is one; the queue keeps it.
    pub fn peek(&self) -> (r: Option<&Event>)
        ensures
            match r {
                Some(e) => self@.len() > 0 && e@ == self@.first(),
                None => self@.len() == 0,
            },
    {
        let n = self.queue.len();
        if n == 0 {
            None
        } else {
            Some(&self.queue[n - 1])
        }
    }

    /// The event that fires as the `i`-th from now, counted from zero.
    pub fn get(&self, i: usize) -> (r: Option<&Event>)
        ensures
            match r {
                Some(e) => i < self@.len() && e@ == self@[i as int],
                None => i >= self@.len(),
            },
    {
        let n = self.queue.len();
        if i < n {
            Some(&self.queue[n - 1 - i])
        } else {
            None
        }
    }
}

} // verus!
