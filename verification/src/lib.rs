//! An in-memory relational store for an event-listing site: locations and
//! events keyed by type-tagged unique identifiers, occurrences owned by
//! events, referential integrity enforced by refusing deletions, and
//! date-based query views for rendering an upcoming-events schedule.

use vstd::prelude::*;

mod domain;
mod event_store;
mod filter;
mod id;
mod queries;
mod typed_id_map;

pub use domain::day_of;
pub use domain::day_of_instant;
pub use domain::div_floor;
pub use domain::Event;
pub use domain::Location;
pub use domain::Occurrence;
pub use event_store::dependent_event_raws;
pub use event_store::event_depends_on;
pub use event_store::lemma_dependent_events_complete;
pub use event_store::lemma_dependent_events_sound;
pub use event_store::DependentEvents;
pub use event_store::EventStore;
pub use event_store::Events;
pub use event_store::Locations;
pub use filter::lemma_upcoming_keeps_exactly_unelapsed;
pub use filter::OccurrenceFilter;
pub use id::Id;
pub use queries::concat_groups;
pub use queries::entry_event_resolved;
pub use queries::entry_key;
pub use queries::entry_le;
pub use queries::keys_of;
pub use queries::passing;
pub use queries::passing_entries;
pub use queries::schedule_entries;
pub use queries::sorted_by_start;
pub use queries::sorted_entries;
pub use queries::EventWithOccurrences;
pub use queries::OccurrenceWithEvent;
pub use typed_id_map::assoc_map;
pub use typed_id_map::distinct_keys;
pub use typed_id_map::lemma_get_after_insert;
pub use typed_id_map::lemma_validate_fails_after_remove;
pub use typed_id_map::TypedIdMap;

verus! {

/// Minutes in one calendar day.
pub const MINUTES_PER_DAY: u32 = 1440;

} // verus!
