//! The recurrence engine: cron expressions compiled by the `cron` crate, and
//! the occurrences they yield in the machine's local time zone.

use chrono::TimeZone;
use vstd::prelude::*;

use crate::instant::Instant;

verus! {

/// A compiled cron expression. Its contents are opaque to the verifier.
#[verifier::external_type_specification]
#[verifier::external_body]
pub struct ExSchedule(cron::Schedule);

/// The reason `cron` gives for refusing an expression.
#[verifier::external_type_specification]
#[verifier::external_body]
pub struct ExScheduleError(cron::error::Error);

/// `Clone` for a compiled expression, which `cron` derives.
///
/// Trusted: the copy is the same rule as the one it was made from.
pub assume_specification[ <cron::Schedule as Clone>::clone ](schedule: &cron::Schedule) -> (r:
    cron::Schedule)
    ensures
        r == *schedule,
;

/// Whether `cron` compiles the expression `expression`.
pub uninterp spec fn cron_accepts(expression: Seq<char>) -> bool;

/// Compiles a cron expression with `cron::Schedule::from_str`.
///
/// Trusted: the parser succeeds on exactly the expressions that
/// `cron_accepts` names; it reads nothing but the expression.
#[verifier::external_body]
pub(crate) fn parse_schedule(expression: &str) -> (r: Result<cron::Schedule, cron::error::Error>)
    ensures
        r is Ok <==> cron_accepts(expression@),
{
    <cron::Schedule as std::str::FromStr>::from_str(expression)
}

/// The text of a parse error, as `cron` displays it.
///
/// Trusted: nothing is claimed about the text.
#[verifier::external_body]
pub(crate) fn error_text(error: &cron::error::Error) -> String {
    format!("{}", error)
}

/// The item at place `skip`, counted from zero, of `Schedule::after`
/// started at `reference`, read in the machine's local time zone
/// (`chrono::Local`); `None` if the rule yields no such item.
///
/// Trusted: nothing is claimed about the result. Where local time repeats an
/// hour, `cron` answers first with the earlier of the two instants that
/// share a wall-clock time, which may lie before `reference`, and the answer
/// depends on the time zone of the machine. `chrono` panics where the
/// machine's time zone data gives no offset for an instant; no argument of
/// this function can rule that out.
#[verifier::external_body]
pub(crate) fn schedule_after(schedule: &cron::Schedule, reference: Instant, skip: usize) -> Option<
    Instant,
> {
    let start = chrono::Local.timestamp_nanos(reference.nanos);
    let next = schedule.after(&start).nth(skip)?;
    let nanos = next.timestamp_nanos_opt()?;
    Some(Instant { nanos })
}

/// What the engine accepts of an answer `found` to "what comes after
/// `reference`": the answer itself if it lies strictly after `reference`,
/// and otherwise nothing.
pub open spec fn occurrence_after(reference: Instant, found: Option<Instant>) -> Option<Instant> {
    match found {
        Some(t) if reference.before(t) => Some(t),
        _ => None,
    }
}

/// Keeps an answer of the recurrence rule only if it is strictly after the
/// reference instant.
pub fn accept_occurrence(reference: Instant, found: Option<Instant>) -> (r: Option<Instant>)
    ensures
        r == occurrence_after(reference, found),
{
    match found {
        Some(t) => {
            if reference.is_before(&t) {
                Some(t)
            } else {
                None
            }
        },
        None => None,
    }
}

/// The next occurrence of `schedule` strictly after `reference`, or `None`
/// when the rule yields no such occurrence.
///
/// The rule is asked once. Only if its answer is not after `reference`, as
/// happens in an hour that local time repeats, the answer that follows is
/// taken in its place.
pub fn next_occurrence(schedule: &cron::Schedule, reference: Instant) -> (r: Option<Instant>)
    ensures
        r matches Some(t) ==> reference.before(t),
{
    let first = schedule_after(schedule, reference, 0);
    let second = if asks_again(reference, first) {
        schedule_after(schedule, reference, 1)
    } else {
        None
    };
    choose_occurrence(reference, first, second)
}

/// Whether the rule's first answer `first` calls for its second one: there
/// is a first answer, and it is not after `reference`.
pub open spec fn second_wanted(reference: Instant, first: Option<Instant>) -> bool {
    first is Some && occurrence_after(reference, first) is None
}

/// The occurrence that the engine takes from the rule's first two answers:
/// the first if it lies strictly after `reference`; else, if there was a
/// first answer, the second if that lies strictly after `reference`; else
/// none.
pub open spec fn chosen_occurrence(
    reference: Instant,
    first: Option<Instant>,
    second: Option<Instant>,
) -> Option<Instant> {
    if second_wanted(reference, first) {
        occurrence_after(reference, second)
    } else {
        occurrence_after(reference, first)
    }
}

/// Decides whether the rule is to be asked for its second answer.
pub fn asks_again(reference: Instant, first: Option<Instant>) -> (b: bool)
    ensures
        b == second_wanted(reference, first),
{
    match first {
        Some(t) => !reference.is_before(&t),
        None => false,
    }
}

/// Chooses the next occurrence from the rule's first two answers; `second`
/// is read only where `first` calls for it.
pub fn choose_occurrence(reference: Instant, first: Option<Instant>, second: Option<Instant>) -> (r:
    Option<Instant>)
    ensures
        r == chosen_occurrence(reference, first, second),
        r matches Some(t) ==> reference.before(t),
{
    if asks_again(reference, first) {
        accept_occurrence(reference, second)
    } else {
        accept_occurrence(reference, first)
    }
}

} // verus!
