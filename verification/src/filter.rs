//! Time filtering of occurrences.
//!
//! An [`OccurrenceFilter`] is a pure predicate over an occurrence's time
//! range `(start, end)`. Both bounds are optional, so date ranges or single
//! days can be expressed as well; the upcoming filter uses only the lower
//! bound on the end.

use vstd::prelude::*;

use crate::domain::div_floor;
use crate::domain::Occurrence;

verus! {

/// A predicate value selecting occurrences by their time range.
#[derive(Debug, Clone, Copy, PartialEq, Eq)]
pub struct OccurrenceFilter {
    /// Keep only occurrences whose end is at or after this instant
    /// (minutes since the Unix epoch).
    pub min_end: Option<i64>,
    /// Keep only occurrences whose start is strictly before this instant
    /// (minutes since the Unix epoch).
    pub max_start: Option<i64>,
}

/// Reads the wall clock.
///
/// Relies on chrono's `Utc::now`, which returns the present moment, and
/// `DateTime::timestamp`, which counts that moment in whole seconds since
/// the Unix epoch. The result depends on the moment of the call, so nothing
/// is promised of it; callers hold for every value that comes back.
#[verifier::external_body]
fn now_seconds() -> i64 {
    chrono::Utc::now().timestamp()
}

/// The upcoming filter keeps exactly the occurrences not fully elapsed:
/// built for the instant `now`, it keeps an occurrence if and only if the
/// occurrence's end, `start + duration`, is at or after `now`. One still
/// in progress at `now` is therefore kept; one whose end lies earlier is
/// dropped.
pub proof fn lemma_upcoming_keeps_exactly_unelapsed(now: i64, occ: Occurrence)
    ensures
        (OccurrenceFilter { min_end: Some(now), max_start: None }).matches_spec(occ) <==> occ.end_spec() >= now,
{
}

impl OccurrenceFilter {
    /// Whether the filter keeps an occurrence.
    pub open spec fn matches_spec(self, occ: Occurrence) -> bool {
        &&& (match self.min_end {
            Some(m) => occ.end_spec() >= m,
            None => true,
        })
        &&& (match self.max_start {
            Some(m) => occ.start < m,
            None => true,
        })
    }

    /// Evaluates the filter on one occurrence.
    pub fn matches(&self, occ: &Occurrence) -> (r: bool)
        ensures
            r == self.matches_spec(*occ),
    {
        let end_ok = match self.min_end {
            Some(m) => occ.end() >= m as i128,
            None => true,
        };
        let start_ok = match self.max_start {
            Some(m) => occ.start < m,
            None => true,
        };
        end_ok && start_ok
    }

    /// The filter keeping every occurrence.
    pub fn unbounded() -> (r: Self)
        ensures
            r == (OccurrenceFilter { min_end: None, max_start: None }),
    {
        OccurrenceFilter { min_end: None, max_start: None }
    }

    /// The filter keeping the occurrences not yet fully elapsed at `now`:
    /// those whose end is at or after it. An occurrence still in progress
    /// is kept; one that ended earlier is dropped.
    pub fn upcoming_at(now: i64) -> (r: Self)
        ensures
            r == (OccurrenceFilter { min_end: Some(now), max_start: None }),
    {
        OccurrenceFilter { min_end: Some(now), max_start: None }
    }

    /// Captures the present moment once and keeps what is upcoming
    /// relative to it: several queries evaluated with one such filter
    /// agree with each other even if the wall clock advances between them.
    pub fn upcoming() -> (r: Self)
        ensures
            r.max_start is None,
            r.min_end is Some,
    {
        let now = div_floor(now_seconds(), 60);
        Self::upcoming_at(now)
    }
}

} // verus!
