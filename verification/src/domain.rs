//! Domain data: locations, events, occurrences.
//!
//! Instants are naive local date-times counted in whole minutes since the
//! Unix epoch; calendar days are whole groups of [`crate::MINUTES_PER_DAY`]
//! minutes. An occurrence's end instant is always derived as
//! `start + duration`, never stored, so the two cannot drift apart.

use vstd::prelude::*;

use crate::id::Id;

verus! {

/// A venue where occurrences take place. Its identity is the key of the
/// locations map; the value itself is plain display data.
#[derive(Debug, PartialEq, Eq)]
pub struct Location {
    pub name: String,
    pub address: String,
}

impl Clone for Location {
    fn clone(&self) -> (r: Self)
        ensures
            r == *self,
    {
        Location { name: self.name.clone(), address: self.address.clone() }
    }
}

/// One scheduled instance of an event: when it starts, how long it runs,
/// and where it takes place. The location reference may point at a location
/// the store does not (yet) know; only deleting a live location out from
/// under an occurrence is refused, by
/// [`crate::event_store::EventStore::delete_location`].
#[derive(Debug, Clone, Copy, PartialEq, Eq)]
pub struct Occurrence {
    /// Start instant, in minutes since the Unix epoch.
    pub start: i64,
    /// Length in whole minutes.
    pub duration: u32,
    /// The venue this occurrence takes place at.
    pub location_id: Id<Location>,
}

impl Occurrence {
    /// The first instant at which the occurrence is fully elapsed.
    pub open spec fn end_spec(self) -> int {
        self.start + self.duration
    }

    /// The calendar day the occurrence starts on.
    pub open spec fn day_spec(self) -> int {
        day_of_instant(self.start as int)
    }

    /// Computes `start + duration`. The sum of an `i64` and a `u32` always
    /// fits in an `i128`, so no overflow is possible.
    pub fn end(&self) -> (r: i128)
        ensures
            r == self.end_spec(),
    {
        self.start as i128 + self.duration as i128
    }
}

/// The calendar day holding an instant, rounding down: day 0 holds minutes
/// 0 to 1439, day -1 holds minutes -1440 to -1.
pub open spec fn day_of_instant(start: int) -> int {
    start / (crate::MINUTES_PER_DAY as int)
}

/// Division of an `i64` by a positive divisor, rounding down.
pub fn div_floor(n: i64, d: i64) -> (r: i64)
    requires
        d > 0,
    ensures
        r == n as int / d as int,
{
    proof {
        assert(i64::MIN <= n as int / d as int <= i64::MAX) by (nonlinear_arith)
            requires
                d > 0,
                i64::MIN <= n <= i64::MAX,
        ;
    }
    match n.checked_div_euclid(d) {
        Some(r) => r,
        None => {
            proof {
                assert(false);
            }
            vstd::pervasive::unreached()
        },
    }
}

/// The calendar day holding an instant.
pub fn day_of(start: i64) -> (d: i64)
    ensures
        d == day_of_instant(start as int),
{
    div_floor(start, crate::MINUTES_PER_DAY as i64)
}

/// A listed event: display texts and the occurrences it owns. Occurrences
/// have no lifecycle of their own: updating an event replaces its whole
/// sequence, and storage order carries no meaning (queries sort).
#[derive(Debug, PartialEq, Eq)]
pub struct Event {
    pub title: String,
    pub teaser: String,
    pub description: String,
    pub occurrences: Vec<Occurrence>,
}

impl Clone for Event {
    fn clone(&self) -> (r: Self)
        ensures
            r.title == self.title,
            r.teaser == self.teaser,
            r.description == self.description,
            r.occurrences@ == self.occurrences@,
    {
        let mut occurrences: Vec<Occurrence> = Vec::new();
        let n = self.occurrences.len();
        for i in 0..n
            invariant
                n == self.occurrences@.len(),
                occurrences@ == self.occurrences@.take(i as int),
        {
            occurrences.push(self.occurrences[i]);
            proof {
                assert(occurrences@ =~= self.occurrences@.take(i + 1));
            }
        }
        proof {
            assert(occurrences@ =~= self.occurrences@);
        }
        let r = Event {
            title: self.title.clone(),
            teaser: self.teaser.clone(),
            description: self.description.clone(),
            occurrences,
        };
        r
    }
}

} // verus!
