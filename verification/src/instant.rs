//! Points in time, counted in nanoseconds since the Unix epoch.

use vstd::prelude::*;

verus! {

/// Nanoseconds in one second.
pub const NANOS_PER_SEC: i64 = 1_000_000_000;

/// A point in time: whole nanoseconds since 1970-01-01 00:00:00 UTC.
///
/// Every `i64` is a valid instant; earlier instants have smaller counts.
#[derive(Clone, Copy, Debug, PartialEq, Eq, Structural, PartialOrd, Ord, Hash)]
pub struct Instant {
    pub(crate) nanos: i64,
}

impl View for Instant {
    type V = int;

    /// The nanosecond count as a mathematical integer.
    closed spec fn view(&self) -> int {
        self.nanos as int
    }
}

impl Instant {
    /// `self` lies strictly before `other`.
    pub open spec fn before(self, other: Instant) -> bool {
        self@ < other@
    }

    /// The nanosecond count always fits an `i64`.
    pub broadcast proof fn lemma_view_bounds(self)
        ensures
            i64::MIN <= #[trigger] self@ <= i64::MAX,
    {
    }

    /// Two instants with the same count are the same instant.
    pub proof fn lemma_view_injective(a: Instant, b: Instant)
        requires
            a@ == b@,
        ensures
            a == b,
    {
    }

    /// Of two different instants, one lies before the other.
    pub proof fn lemma_total_order(a: Instant, b: Instant)
        requires
            a != b,
        ensures
            a.before(b) || b.before(a),
    {
    }

    /// The instant `nanos` nanoseconds after the epoch.
    pub fn from_nanos(nanos: i64) -> (r: Instant)
        ensures
            r@ == nanos,
    {
        Instant { nanos }
    }

    /// The instant `secs` whole seconds after the epoch, if its nanosecond
    /// count fits an `i64`.
    pub fn from_secs(secs: i64) -> (r: Option<Instant>)
        ensures
            r is Some <==> i64::MIN <= secs * NANOS_PER_SEC <= i64::MAX,
            r matches Some(t) ==> t@ == secs * NANOS_PER_SEC,
    {
        match secs.checked_mul(NANOS_PER_SEC) {
            Some(nanos) => Some(Instant { nanos }),
            None => None,
        }
    }

    /// Nanoseconds since the epoch.
    pub fn nanos(&self) -> (r: i64)
        ensures
            r == self@,
    {
        self.nanos
    }

    /// Whether `self` lies strictly before `other`.
    pub fn is_before(&self, other: &Instant) -> (r: bool)
        ensures
            r == self.before(*other),
    {
        self.nanos < other.nanos
    }

    /// The instant `secs` seconds later, or `None` if that is past the last
    /// representable instant.
    pub fn plus_secs(&self, secs: u32) -> (r: Option<Instant>)
        ensures
            r is Some <==> self@ + secs * NANOS_PER_SEC <= i64::MAX,
            r matches Some(t) ==> t@ == self@ + secs * NANOS_PER_SEC,
    {
        let step: i64 = (secs as i64) * NANOS_PER_SEC;
        match self.nanos.checked_add(step) {
            Some(nanos) => Some(Instant { nanos }),
            None => None,
        }
    }

    /// Nanoseconds from `now` until `self`, or `None` if `self` already lies
    /// before `now`. The gap between any two instants fits a `u64`.
    pub fn nanos_since(&self, now: &Instant) -> (r: Option<u64>)
        ensures
            r is Some <==> !self.before(*now),
            r matches Some(n) ==> n == self@ - now@,
    {
        if self.nanos < now.nanos {
            None
        } else {
            let gap: i128 = (self.nanos as i128) - (now.nanos as i128);
            Some(gap as u64)
        }
    }
}

} // verus!
