//! The aggregate root: one locations map and one events map, composed so
//! that referential integrity holds.
//!
//! The one cross-entity rule is enforced by [`EventStore::delete_location`]:
//! a location still referenced by an occurrence of any event cannot be
//! deleted; the operation is refused and reports the dependent events.
//! Events, by contrast, may freely reference locations the store does not
//! (yet) know — rendering treats those as "location undetermined" — so
//! event creation does not depend on location insertion order.

use vstd::prelude::*;

use crate::domain::Event;
use crate::domain::Location;
use crate::id::Id;
use crate::typed_id_map::TypedIdMap;

verus! {

/// Whether any occurrence of the event references the location with raw
/// key `raw`.
pub open spec fn event_depends_on(ev: Event, raw: u128) -> bool {
    exists|j: int|
        0 <= j < ev.occurrences@.len() && (#[trigger] ev.occurrences@[j]).location_id.raw_spec()
            == raw
}

/// The keys of the events that depend on the location with raw key `raw`,
/// in store order.
pub open spec fn dependent_event_raws(s: Seq<(u128, Event)>, raw: u128) -> Seq<u128>
    decreases s.len(),
{
    if s.len() == 0 {
        Seq::empty()
    } else {
        let rest = dependent_event_raws(s.drop_last(), raw);
        if event_depends_on(s.last().1, raw) {
            rest.push(s.last().0)
        } else {
            rest
        }
    }
}

/// The dependent-events scan is complete: every event that owns an
/// occurrence referencing the location is listed.
pub proof fn lemma_dependent_events_complete(s: Seq<(u128, Event)>, raw: u128, k: int)
    requires
        0 <= k < s.len(),
        event_depends_on(s[k].1, raw),
    ensures
        dependent_event_raws(s, raw).contains(s[k].0),
    decreases s.len(),
{
    let rest = dependent_event_raws(s.drop_last(), raw);
    if k == s.len() - 1 {
        assert(dependent_event_raws(s, raw) == rest.push(s[k].0));
        assert(rest.push(s[k].0)[rest.len() as int] == s[k].0);
    } else {
        assert(s.drop_last()[k] == s[k]);
        lemma_dependent_events_complete(s.drop_last(), raw, k);
        let i = choose|i: int| 0 <= i < rest.len() && rest[i] == s[k].0;
        if event_depends_on(s.last().1, raw) {
            assert(rest.push(s.last().0)[i] == s[k].0);
        }
    }
}

/// The dependent-events scan is exact: every listed key belongs to a
/// stored event that references the location; no bystander is listed.
pub proof fn lemma_dependent_events_sound(s: Seq<(u128, Event)>, raw: u128, x: u128)
    requires
        dependent_event_raws(s, raw).contains(x),
    ensures
        exists|k: int|
            0 <= k < s.len() && (#[trigger] s[k]).0 == x && event_depends_on(s[k].1, raw),
    decreases s.len(),
{
    let whole = dependent_event_raws(s, raw);
    let rest = dependent_event_raws(s.drop_last(), raw);
    if event_depends_on(s.last().1, raw) && x == s.last().0 {
        assert(s[s.len() - 1].0 == x && event_depends_on(s[s.len() - 1].1, raw));
    } else {
        assert(rest.contains(x)) by {
            let i = choose|i: int| 0 <= i < whole.len() && whole[i] == x;
            if event_depends_on(s.last().1, raw) {
                assert(whole == rest.push(s.last().0));
                assert(i < rest.len());
                assert(rest[i] == x);
            } else {
                assert(whole == rest);
            }
        }
        lemma_dependent_events_sound(s.drop_last(), raw, x);
        let k = choose|k: int|
            0 <= k < s.drop_last().len() && (#[trigger] s.drop_last()[k]).0 == x
                && event_depends_on(s.drop_last()[k].1, raw);
        assert(s[k].0 == x && event_depends_on(s[k].1, raw));
    }
}

/// The conflict payload of [`EventStore::delete_location`]: the events
/// that still own an occurrence referencing the location, in store order.
/// Callers surface this as a conflict and must not retry; the admin first
/// detaches the dependent occurrences.
#[derive(Debug, PartialEq, Eq)]
pub struct DependentEvents {
    pub event_ids: Vec<Id<Event>>,
}

/// The map of all stored locations.
pub type Locations = TypedIdMap<Location>;

/// The map of all stored events.
pub type Events = TypedIdMap<Event>;

/// The in-memory relational store: locations and events, each keyed by
/// type-tagged identifiers.
pub struct EventStore {
    pub(crate) locations: Locations,
    pub(crate) events: Events,
}

impl EventStore {
    /// The locations as a mathematical map from raw key to value.
    pub closed spec fn locations_map(self) -> Map<u128, Location> {
        self.locations@
    }

    /// The events as a mathematical map from raw key to value.
    pub closed spec fn events_map(self) -> Map<u128, Event> {
        self.events@
    }

    /// The locations in store order.
    pub closed spec fn locations_seq(self) -> Seq<(u128, Location)> {
        self.locations.seq()
    }

    /// The events in store order.
    pub closed spec fn events_seq(self) -> Seq<(u128, Event)> {
        self.events.seq()
    }

    /// Both maps keep their keys distinct.
    pub closed spec fn wf(self) -> bool {
        self.locations.wf() && self.events.wf()
    }

    /// The store-order sequences and the maps describe the same contents.
    pub proof fn lemma_seqs_agree_with_maps(self)
        requires
            self.wf(),
        ensures
            forall|i: int| 0 <= i < self.locations_seq().len() ==> self.locations_map().contains_key(
                (#[trigger] self.locations_seq()[i]).0,
            ) && self.locations_map()[self.locations_seq()[i].0] == self.locations_seq()[i].1,
            forall|i: int| 0 <= i < self.events_seq().len() ==> self.events_map().contains_key(
                (#[trigger] self.events_seq()[i]).0,
            ) && self.events_map()[self.events_seq()[i].0] == self.events_seq()[i].1,
            forall|k: u128| #[trigger] self.locations_map().contains_key(k) ==> exists|i: int|
                0 <= i < self.locations_seq().len() && (#[trigger] self.locations_seq()[i]).0 == k,
            forall|k: u128| #[trigger] self.events_map().contains_key(k) ==> exists|i: int|
                0 <= i < self.events_seq().len() && (#[trigger] self.events_seq()[i]).0 == k,
    {
        self.locations.lemma_view_is_seq();
        self.events.lemma_view_is_seq();
        assert forall|k: u128| #[trigger] self.locations_map().contains_key(k) implies exists|
            i: int,
        | 0 <= i < self.locations_seq().len() && (#[trigger] self.locations_seq()[i]).0 == k by {
            let i = choose|i: int|
                0 <= i < self.locations.seq().len() && (#[trigger] self.locations.seq()[i]).0 == k;
            assert(self.locations_seq()[i].0 == k);
        }
        assert forall|k: u128| #[trigger] self.events_map().contains_key(k) implies exists|i: int|
            0 <= i < self.events_seq().len() && (#[trigger] self.events_seq()[i]).0 == k by {
            let i = choose|i: int|
                0 <= i < self.events.seq().len() && (#[trigger] self.events.seq()[i]).0 == k;
            assert(self.events_seq()[i].0 == k);
        }
    }

    /// Unfolds the public spec views to the underlying maps, for the
    /// crate's own modules.
    pub(crate) proof fn lemma_repr(self)
        ensures
            self.locations_map() == self.locations@,
            self.events_map() == self.events@,
            self.locations_seq() == self.locations.seq(),
            self.events_seq() == self.events.seq(),
            self.wf() <==> (self.locations.wf() && self.events.wf()),
    {
    }

    /// A store with no locations and no events. Construction is the only
    /// place that seeds state: collaborators receive the built store by
    /// reference.
    pub fn new() -> (r: Self)
        ensures
            r.wf(),
            r.locations_map() == Map::<u128, Location>::empty(),
            r.events_map() == Map::<u128, Event>::empty(),
            r.locations_seq() == Seq::<(u128, Location)>::empty(),
            r.events_seq() == Seq::<(u128, Event)>::empty(),
    {
        EventStore { locations: TypedIdMap::new(), events: TypedIdMap::new() }
    }

    /// Stores a location under a freshly minted identifier.
    pub fn insert_location(&mut self, location: Location) -> (id: Id<Location>)
        requires
            old(self).wf(),
        ensures
            final(self).wf(),
            final(self).locations_map() == old(self).locations_map().insert(
                id.raw_spec(),
                location,
            ),
            !old(self).locations_map().contains_key(id.raw_spec()) ==> final(self).locations_seq() == old(self).locations_seq().push((id.raw_spec(), location)),
            final(self).events_map() == old(self).events_map(),
            final(self).events_seq() == old(self).events_seq(),
    {
        self.locations.insert(location)
    }

    /// Turns an untrusted raw value into a location identifier; succeeds
    /// exactly when a location is stored under it.
    pub fn validate_location(&self, raw: u128) -> (r: Option<Id<Location>>)
        requires
            self.wf(),
        ensures
            r.is_some() <==> self.locations_map().contains_key(raw),
            r.is_some() ==> r.unwrap().raw_spec() == raw,
    {
        self.locations.validate(raw)
    }

    /// The location stored under a validated identifier.
    pub fn get_location(&self, id: &Id<Location>) -> (r: &Location)
        requires
            self.wf(),
            self.locations_map().contains_key(id.raw_spec()),
        ensures
            *r == self.locations_map()[id.raw_spec()],
    {
        self.locations.get(id)
    }

    /// Replaces the location stored under a validated identifier and
    /// returns the previous value.
    pub fn update_location(&mut self, id: &Id<Location>, location: Location) -> (prev: Location)
        requires
            old(self).wf(),
            old(self).locations_map().contains_key(id.raw_spec()),
        ensures
            final(self).wf(),
            prev == old(self).locations_map()[id.raw_spec()],
            final(self).locations_map() == old(self).locations_map().insert(
                id.raw_spec(),
                location,
            ),
            final(self).locations_seq().len() == old(self).locations_seq().len(),
            forall|j: int| 0 <= j < old(self).locations_seq().len() ==> #[trigger] final(self).locations_seq()[j] == (
            if old(self).locations_seq()[j].0 == id.raw_spec() {
                (id.raw_spec(), location)
            } else {
                old(self).locations_seq()[j]
            }),
            final(self).events_map() == old(self).events_map(),
            final(self).events_seq() == old(self).events_seq(),
    {
        self.locations.set(id, location)
    }

    /// Deletes a location, unless an occurrence of some event still
    /// references it.
    ///
    /// On refusal the store is left unchanged and the error carries the
    /// complete list of dependent events, in store order. On success the
    /// location is removed and its previous value returned. This
    /// check-then-act pair is one operation on the store, so no occurrence
    /// can be added against the location between the scan and the removal.
    pub fn delete_location(&mut self, id: &Id<Location>) -> (r: Result<Location, DependentEvents>)
        requires
            old(self).wf(),
            old(self).locations_map().contains_key(id.raw_spec()),
        ensures
            final(self).wf(),
            final(self).events_map() == old(self).events_map(),
            final(self).events_seq() == old(self).events_seq(),
            (r is Err) <==> dependent_event_raws(old(self).events_seq(), id.raw_spec()).len() > 0,
            (match r {
                Err(d) => d.event_ids@.map_values(|e: Id<Event>| e.raw_spec())
                    == dependent_event_raws(old(self).events_seq(), id.raw_spec()) && final(self).locations_map() == old(self).locations_map() && final(self).locations_seq()
                    == old(self).locations_seq(),
                Ok(prev) => prev == old(self).locations_map()[id.raw_spec()] && final(self).locations_map() == old(self).locations_map().remove(id.raw_spec()) && (exists|
                    i: int,
                |
                    0 <= i < old(self).locations_seq().len() && (#[trigger] old(self).locations_seq()[i]).0 == id.raw_spec() && final(self).locations_seq() == old(self).locations_seq().remove(i)),
            }),
    {
        let deps = self.dependent_events(id);
        if deps.len() > 0 {
            proof {
                assert(deps@.map_values(|e: Id<Event>| e.raw_spec()).len() == deps@.len());
            }
            Err(DependentEvents { event_ids: deps })
        } else {
            proof {
                assert(deps@.map_values(|e: Id<Event>| e.raw_spec()).len() == deps@.len());
            }
            Ok(self.remove_location_unchecked(id))
        }
    }

    /// Removes a location without the referential check. Deliberately not
    /// exposed: external callers go through `delete_location`.
    fn remove_location_unchecked(&mut self, id: &Id<Location>) -> (prev: Location)
        requires
            old(self).wf(),
            old(self).locations_map().contains_key(id.raw_spec()),
        ensures
            final(self).wf(),
            prev == old(self).locations_map()[id.raw_spec()],
            final(self).locations_map() == old(self).locations_map().remove(id.raw_spec()),
            exists|i: int|
                0 <= i < old(self).locations_seq().len() && (#[trigger] old(self).locations_seq()[i]).0 == id.raw_spec() && final(self).locations_seq() == old(self).locations_seq().remove(i),
            final(self).events_map() == old(self).events_map(),
            final(self).events_seq() == old(self).events_seq(),
    {
        let prev = self.locations.remove(id);
        proof {
            let i = choose|i: int|
                0 <= i < old(self).locations.seq().len() && (#[trigger] old(
                    self,
                ).locations.seq()[i]).0 == id.raw_spec() && self.locations.seq() == old(
                    self,
                ).locations.seq().remove(i);
            assert(0 <= i < old(self).locations_seq().len() && old(self).locations_seq()[i].0
                == id.raw_spec() && self.locations_seq() == old(self).locations_seq().remove(i));
        }
        prev
    }

    /// The events whose occurrences reference the location, in store order.
    fn dependent_events(&self, id: &Id<Location>) -> (deps: Vec<Id<Event>>)
        requires
            self.wf(),
        ensures
            deps@.map_values(|e: Id<Event>| e.raw_spec()) == dependent_event_raws(
                self.events_seq(),
                id.raw_spec(),
            ),
    {
        let mut deps: Vec<Id<Event>> = Vec::new();
        let n = self.events.len();
        proof {
            assert(self.events_seq().take(0) =~= Seq::<(u128, Event)>::empty());
            assert(deps@.map_values(|e: Id<Event>| e.raw_spec()) =~= Seq::<u128>::empty());
        }
        for i in 0..n
            invariant
                self.wf(),
                n == self.events_seq().len(),
                deps@.map_values(|e: Id<Event>| e.raw_spec()) == dependent_event_raws(
                    self.events_seq().take(i as int),
                    id.raw_spec(),
                ),
        {
            let ghost prefix = self.events_seq().take(i as int);
            let ghost next_prefix = self.events_seq().take(i + 1);
            proof {
                assert(next_prefix.drop_last() =~= prefix);
                assert(next_prefix.last() == self.events_seq()[i as int]);
            }
            let ev = self.events.value_at(i);
            if event_references(ev, id) {
                let key = self.events.key_at(i);
                let ghost prev_deps = deps@;
                deps.push(key);
                proof {
                    assert(deps@.map_values(|e: Id<Event>| e.raw_spec()) =~= prev_deps.map_values(
                        |e: Id<Event>| e.raw_spec(),
                    ).push(key.raw_spec()));
                }
            }
            proof {
                assert(deps@.map_values(|e: Id<Event>| e.raw_spec()) =~= dependent_event_raws(
                    next_prefix,
                    id.raw_spec(),
                ));
            }
        }
        proof {
            assert(self.events_seq().take(n as int) =~= self.events_seq());
        }
        deps
    }

    /// Stores an event under a freshly minted identifier. No referential
    /// check: the event's occurrences may reference locations the store
    /// does not know.
    pub fn insert_event(&mut self, event: Event) -> (id: Id<Event>)
        requires
            old(self).wf(),
        ensures
            final(self).wf(),
            final(self).events_map() == old(self).events_map().insert(id.raw_spec(), event),
            !old(self).events_map().contains_key(id.raw_spec()) ==> final(self).events_seq() == old(self).events_seq().push((id.raw_spec(), event)),
            final(self).locations_map() == old(self).locations_map(),
            final(self).locations_seq() == old(self).locations_seq(),
    {
        self.events.insert(event)
    }

    /// Turns an untrusted raw value into an event identifier; succeeds
    /// exactly when an event is stored under it.
    pub fn validate_event(&self, raw: u128) -> (r: Option<Id<Event>>)
        requires
            self.wf(),
        ensures
            r.is_some() <==> self.events_map().contains_key(raw),
            r.is_some() ==> r.unwrap().raw_spec() == raw,
    {
        self.events.validate(raw)
    }

    /// The event stored under a validated identifier.
    pub fn get_event(&self, id: &Id<Event>) -> (r: &Event)
        requires
            self.wf(),
            self.events_map().contains_key(id.raw_spec()),
        ensures
            *r == self.events_map()[id.raw_spec()],
    {
        self.events.get(id)
    }

    /// Replaces the event stored under a validated identifier, occurrence
    /// sequence included, and returns the previous value.
    pub fn update_event(&mut self, id: &Id<Event>, event: Event) -> (prev: Event)
        requires
            old(self).wf(),
            old(self).events_map().contains_key(id.raw_spec()),
        ensures
            final(self).wf(),
            prev == old(self).events_map()[id.raw_spec()],
            final(self).events_map() == old(self).events_map().insert(id.raw_spec(), event),
            final(self).events_seq().len() == old(self).events_seq().len(),
            forall|j: int| 0 <= j < old(self).events_seq().len() ==> #[trigger] final(self).events_seq()[j] == (
            if old(self).events_seq()[j].0 == id.raw_spec() {
                (id.raw_spec(), event)
            } else {
                old(self).events_seq()[j]
            }),
            final(self).locations_map() == old(self).locations_map(),
            final(self).locations_seq() == old(self).locations_seq(),
    {
        self.events.set(id, event)
    }

    /// Deletes an event and returns its previous value. Nothing references
    /// an event's identifier, so no check is needed.
    pub fn remove_event(&mut self, id: &Id<Event>) -> (prev: Event)
        requires
            old(self).wf(),
            old(self).events_map().contains_key(id.raw_spec()),
        ensures
            final(self).wf(),
            prev == old(self).events_map()[id.raw_spec()],
            final(self).events_map() == old(self).events_map().remove(id.raw_spec()),
            exists|i: int|
                0 <= i < old(self).events_seq().len() && (#[trigger] old(self).events_seq()[i]).0
                    == id.raw_spec() && final(self).events_seq() == old(self).events_seq().remove(
                    i,
                ),
            final(self).locations_map() == old(self).locations_map(),
            final(self).locations_seq() == old(self).locations_seq(),
    {
        let prev = self.events.remove(id);
        proof {
            let i = choose|i: int|
                0 <= i < old(self).events.seq().len() && (#[trigger] old(self).events.seq()[i]).0
                    == id.raw_spec() && self.events.seq() == old(self).events.seq().remove(i);
            assert(0 <= i < old(self).events_seq().len() && old(self).events_seq()[i].0
                == id.raw_spec() && self.events_seq() == old(self).events_seq().remove(i));
        }
        prev
    }

    /// A snapshot of the locations map, in store order: rendering resolves
    /// location names from it without issuing per-occurrence lookups.
    pub fn all_locations(&self) -> (r: Vec<(Id<Location>, Location)>)
        requires
            self.wf(),
        ensures
            r@.len() == self.locations_seq().len(),
            forall|i: int| 0 <= i < r@.len() ==> (#[trigger] r@[i]).0.raw_spec()
                == self.locations_seq()[i].0 && r@[i].1 == self.locations_seq()[i].1,
    {
        let mut r: Vec<(Id<Location>, Location)> = Vec::new();
        let n = self.locations.len();
        for i in 0..n
            invariant
                self.wf(),
                n == self.locations_seq().len(),
                r@.len() == i,
                forall|j: int| 0 <= j < i ==> (#[trigger] r@[j]).0.raw_spec()
                    == self.locations_seq()[j].0 && r@[j].1 == self.locations_seq()[j].1,
        {
            let id = self.locations.key_at(i);
            let value = self.locations.value_at(i).clone();
            r.push((id, value));
        }
        r
    }

    /// A snapshot of the events map, in store order, occurrence sequences
    /// included.
    pub fn all_events(&self) -> (r: Vec<(Id<Event>, Event)>)
        requires
            self.wf(),
        ensures
            r@.len() == self.events_seq().len(),
            forall|i: int| 0 <= i < r@.len() ==> (#[trigger] r@[i]).0.raw_spec()
                == self.events_seq()[i].0 && r@[i].1.title == self.events_seq()[i].1.title
                && r@[i].1.teaser == self.events_seq()[i].1.teaser && r@[i].1.description
                == self.events_seq()[i].1.description && r@[i].1.occurrences@
                == self.events_seq()[i].1.occurrences@,
    {
        let mut r: Vec<(Id<Event>, Event)> = Vec::new();
        let n = self.events.len();
        for i in 0..n
            invariant
                self.wf(),
                n == self.events_seq().len(),
                r@.len() == i,
                forall|j: int| 0 <= j < i ==> (#[trigger] r@[j]).0.raw_spec()
                    == self.events_seq()[j].0 && r@[j].1.title == self.events_seq()[j].1.title
                    && r@[j].1.teaser == self.events_seq()[j].1.teaser && r@[j].1.description
                    == self.events_seq()[j].1.description && r@[j].1.occurrences@
                    == self.events_seq()[j].1.occurrences@,
        {
            let id = self.events.key_at(i);
            let value = self.events.value_at(i).clone();
            r.push((id, value));
        }
        r
    }
}

/// Whether any occurrence of the event references the location.
fn event_references(ev: &Event, id: &Id<crate::domain::Location>) -> (r: bool)
    ensures
        r == event_depends_on(*ev, id.raw_spec()),
{
    let n = ev.occurrences.len();
    for j in 0..n
        invariant
            n == ev.occurrences@.len(),
            forall|k: int| 0 <= k < j ==> (#[trigger] ev.occurrences@[k]).location_id.raw_spec()
                != id.raw_spec(),
    {
        if ev.occurrences[j].location_id.raw() == id.raw() {
            return true;
        }
    }
    false
}

} // verus!
