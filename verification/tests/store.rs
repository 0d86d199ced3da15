use event_store::DependentEvents;
use event_store::Event;
use event_store::EventStore;
use event_store::Location;
use event_store::Occurrence;
use event_store::OccurrenceFilter;
use event_store::TypedIdMap;

/// Minutes since the Unix epoch of a calendar date and time of day.
fn minutes(y: i32, mo: u32, d: u32, h: u32, mi: u32) -> i64 {
    chrono::NaiveDate::from_ymd_opt(y, mo, d)
        .unwrap()
        .and_hms_opt(h, mi, 0)
        .unwrap()
        .and_utc()
        .timestamp()
        / 60
}

fn venue(name: &str) -> Location {
    Location {
        name: String::from(name),
        address: String::from("Somestreet 1"),
    }
}

fn event_with(title: &str, occurrences: Vec<Occurrence>) -> Event {
    Event {
        title: String::from(title),
        teaser: String::from("teaser"),
        description: String::from("description"),
        occurrences,
    }
}

#[test]
fn validate_succeeds_exactly_for_present_ids() {
    let mut map: TypedIdMap<String> = TypedIdMap::new();
    let a = map.insert(String::from("a"));
    let b = map.insert(String::from("b"));
    assert!(map.validate(a.raw()).is_some());
    assert!(map.validate(b.raw()).is_some());

    let removed = map.remove(&a);
    assert_eq!(removed, "a");
    assert!(map.validate(a.raw()).is_none());
    assert!(map.validate(b.raw()).is_some());

    let empty: TypedIdMap<String> = TypedIdMap::new();
    assert!(empty.validate(a.raw()).is_none());
}

#[test]
fn get_returns_value_just_inserted() {
    let mut map: TypedIdMap<String> = TypedIdMap::new();
    let id = map.insert(String::from("fresh value"));
    assert_eq!(map.get(&id), "fresh value");

    let mut store = EventStore::new();
    let lid = store.insert_location(venue("Venue A"));
    assert_eq!(store.get_location(&lid).name, "Venue A");
    assert_eq!(store.get_location(&lid).address, "Somestreet 1");
}

#[test]
fn set_replaces_and_returns_previous() {
    let mut map: TypedIdMap<String> = TypedIdMap::new();
    let id = map.insert(String::from("before"));
    let prev = map.set(&id, String::from("after"));
    assert_eq!(prev, "before");
    assert_eq!(map.get(&id), "after");
}

#[test]
fn delete_location_refused_while_referenced() {
    let mut store = EventStore::new();
    let l1 = store.insert_location(venue("Venue A"));
    let e1 = store.insert_event(event_with(
        "Social",
        vec![Occurrence {
            start: minutes(2019, 4, 2, 20, 30),
            duration: 90,
            location_id: l1,
        }],
    ));

    let r = store.delete_location(&l1);
    assert_eq!(r, Err(DependentEvents { event_ids: vec![e1] }));
    // the store is unchanged: the location is still present
    assert!(store.validate_location(l1.raw()).is_some());
    assert_eq!(store.get_location(&l1).name, "Venue A");
}

#[test]
fn delete_location_lists_every_dependent_event() {
    let mut store = EventStore::new();
    let l1 = store.insert_location(venue("Venue A"));
    let l2 = store.insert_location(venue("Venue B"));
    let occ_at = |loc: event_store::Id<Location>, day: u32| Occurrence {
        start: minutes(2020, 1, day, 19, 0),
        duration: 60,
        location_id: loc,
    };
    let e1 = store.insert_event(event_with("One", vec![occ_at(l1, 6)]));
    let _e2 = store.insert_event(event_with("Two", vec![occ_at(l2, 7)]));
    let e3 = store.insert_event(event_with("Three", vec![occ_at(l2, 8), occ_at(l1, 9)]));

    let r = store.delete_location(&l1);
    assert_eq!(
        r,
        Err(DependentEvents {
            event_ids: vec![e1, e3]
        })
    );
}

#[test]
fn delete_location_removes_unreferenced() {
    let mut store = EventStore::new();
    let l1 = store.insert_location(venue("Venue A"));
    let l2 = store.insert_location(venue("Venue B"));
    let _e1 = store.insert_event(event_with(
        "Social",
        vec![Occurrence {
            start: minutes(2019, 4, 2, 20, 30),
            duration: 90,
            location_id: l2,
        }],
    ));

    let r = store.delete_location(&l1);
    assert_eq!(r, Ok(venue("Venue A")));
    assert!(store.validate_location(l1.raw()).is_none());
    assert!(store.validate_location(l2.raw()).is_some());
}

#[test]
fn update_location_returns_previous() {
    let mut store = EventStore::new();
    let l1 = store.insert_location(venue("Venue A"));
    let prev = store.update_location(&l1, venue("Venue B"));
    assert_eq!(prev, venue("Venue A"));
    assert_eq!(store.get_location(&l1).name, "Venue B");
}

#[test]
fn remove_event_forgets_identifier() {
    let mut store = EventStore::new();
    let e1 = store.insert_event(event_with("Solo", vec![]));
    assert!(store.validate_event(e1.raw()).is_some());
    let prev = store.remove_event(&e1);
    assert_eq!(prev.title, "Solo");
    assert!(store.validate_event(e1.raw()).is_none());
}

#[test]
fn update_event_replaces_occurrences() {
    let mut store = EventStore::new();
    let l1 = store.insert_location(venue("Venue A"));
    let e1 = store.insert_event(event_with(
        "Social",
        vec![Occurrence {
            start: minutes(2019, 4, 2, 20, 30),
            duration: 90,
            location_id: l1,
        }],
    ));
    let prev = store.update_event(&e1, event_with("Social", vec![]));
    assert_eq!(prev.occurrences.len(), 1);
    assert_eq!(store.get_event(&e1).occurrences.len(), 0);
    // with no occurrence left referencing it, the location can go
    assert!(store.delete_location(&l1).is_ok());
}

#[test]
fn occurrences_by_date_sorts_groups_and_entries() {
    let mut store = EventStore::new();
    let l1 = store.insert_location(venue("Venue A"));
    // inserted deliberately out of order, across two days
    let o_late_day2 = Occurrence {
        start: minutes(2021, 5, 2, 21, 0),
        duration: 60,
        location_id: l1,
    };
    let o_early_day2 = Occurrence {
        start: minutes(2021, 5, 2, 18, 0),
        duration: 60,
        location_id: l1,
    };
    let o_day1 = Occurrence {
        start: minutes(2021, 5, 1, 20, 0),
        duration: 60,
        location_id: l1,
    };
    let _e1 = store.insert_event(event_with("Mixed", vec![o_late_day2, o_day1, o_early_day2]));

    let groups = store.occurrences_by_date(&OccurrenceFilter::unbounded());
    assert_eq!(groups.len(), 2);
    let (day1, first) = &groups[0];
    let (day2, second) = &groups[1];
    assert!(day1 < day2);
    assert_eq!(*day1, event_store::day_of(o_day1.start));
    assert_eq!(*day2, event_store::day_of(o_early_day2.start));
    assert_eq!(first.len(), 1);
    assert_eq!(second.len(), 2);
    assert_eq!(first[0].occurrence, o_day1);
    assert_eq!(second[0].occurrence, o_early_day2);
    assert_eq!(second[1].occurrence, o_late_day2);
}

#[test]
fn occurrences_by_date_breaks_start_ties_by_event_id() {
    let mut store = EventStore::new();
    let l1 = store.insert_location(venue("Venue A"));
    let occ = Occurrence {
        start: minutes(2021, 5, 1, 20, 0),
        duration: 60,
        location_id: l1,
    };
    let ea = store.insert_event(event_with("A", vec![occ]));
    let eb = store.insert_event(event_with("B", vec![occ]));

    let groups = store.occurrences_by_date(&OccurrenceFilter::unbounded());
    assert_eq!(groups.len(), 1);
    let entries = &groups[0].1;
    assert_eq!(entries.len(), 2);
    // identical starts: the event with the smaller raw identifier comes first
    let (lo, hi) = if ea.raw() <= eb.raw() { (ea, eb) } else { (eb, ea) };
    assert_eq!(entries[0].event_id, lo);
    assert_eq!(entries[1].event_id, hi);
}

#[test]
fn upcoming_keeps_occurrence_still_in_progress() {
    let now = minutes(2022, 3, 10, 12, 0);
    let filter = OccurrenceFilter::upcoming_at(now);
    // started ten minutes ago, runs thirty: still in progress, kept
    let in_progress = Occurrence {
        start: now - 10,
        duration: 30,
        location_id: fresh_location_id(),
    };
    assert!(filter.matches(&in_progress));
    // fully elapsed before now: dropped
    let elapsed = Occurrence {
        start: now - 31,
        duration: 30,
        location_id: in_progress.location_id,
    };
    assert!(!filter.matches(&elapsed));
    // far in the future: kept
    let future = Occurrence {
        start: now + 1440,
        duration: 30,
        location_id: in_progress.location_id,
    };
    assert!(filter.matches(&future));
}

fn fresh_location_id() -> event_store::Id<Location> {
    let mut map: TypedIdMap<Location> = TypedIdMap::new();
    map.insert(venue("anywhere"))
}

#[test]
fn upcoming_filters_occurrences_by_date() {
    let now = minutes(2022, 3, 10, 12, 0);
    let mut store = EventStore::new();
    let l1 = store.insert_location(venue("Venue A"));
    let past = Occurrence {
        start: now - 2880,
        duration: 60,
        location_id: l1,
    };
    let soon = Occurrence {
        start: now + 60,
        duration: 60,
        location_id: l1,
    };
    let _e1 = store.insert_event(event_with("Social", vec![past, soon]));

    let groups = store.occurrences_by_date(&OccurrenceFilter::upcoming_at(now));
    assert_eq!(groups.len(), 1);
    assert_eq!(groups[0].1.len(), 1);
    assert_eq!(groups[0].1[0].occurrence, soon);
}

#[test]
fn schedule_scenario_two_days_one_event() {
    let mut store = EventStore::new();
    let l1 = store.insert_location(venue("Venue A"));
    let first = Occurrence {
        start: minutes(2019, 4, 2, 20, 30),
        duration: 90,
        location_id: l1,
    };
    let second = Occurrence {
        start: minutes(2019, 4, 3, 20, 30),
        duration: 90,
        location_id: l1,
    };
    let e1 = store.insert_event(event_with("Social", vec![first, second]));

    let at = minutes(2019, 4, 1, 0, 0);
    let groups = store.occurrences_by_date(&OccurrenceFilter::upcoming_at(at));
    assert_eq!(groups.len(), 2);
    assert_eq!(groups[0].0, event_store::day_of(first.start));
    assert_eq!(groups[1].0, event_store::day_of(second.start));
    assert_eq!(groups[0].0 + 1, groups[1].0);
    for (group, occ) in groups.iter().zip([first, second]) {
        assert_eq!(group.1.len(), 1);
        let entry = &group.1[0];
        assert_eq!(entry.event_id, e1);
        assert_eq!(entry.event.title, "Social");
        assert_eq!(entry.occurrence, occ);
        let resolved = store
            .validate_location(entry.occurrence.location_id.raw())
            .expect("location of the occurrence is stored");
        assert_eq!(store.get_location(&resolved).name, "Venue A");
    }
}

#[test]
fn schedule_scenario_deletion_blocked() {
    let mut store = EventStore::new();
    let l1 = store.insert_location(venue("Venue A"));
    let e1 = store.insert_event(event_with(
        "Social",
        vec![
            Occurrence {
                start: minutes(2019, 4, 2, 20, 30),
                duration: 90,
                location_id: l1,
            },
            Occurrence {
                start: minutes(2019, 4, 3, 20, 30),
                duration: 90,
                location_id: l1,
            },
        ],
    ));

    let r = store.delete_location(&l1);
    assert_eq!(r, Err(DependentEvents { event_ids: vec![e1] }));
    assert!(store.validate_location(l1.raw()).is_some());
    assert_eq!(store.get_location(&l1).name, "Venue A");
}

#[test]
fn all_events_with_occurrences_filters_and_sorts() {
    let now = minutes(2022, 3, 10, 12, 0);
    let mut store = EventStore::new();
    let l1 = store.insert_location(venue("Venue A"));
    let later = Occurrence {
        start: now + 2880,
        duration: 60,
        location_id: l1,
    };
    let sooner = Occurrence {
        start: now + 60,
        duration: 60,
        location_id: l1,
    };
    let past = Occurrence {
        start: now - 2880,
        duration: 60,
        location_id: l1,
    };
    let e1 = store.insert_event(event_with("Dated", vec![later, past, sooner]));
    let e2 = store.insert_event(event_with("Undated", vec![past]));

    let all = store.all_events_with_occurrences(&OccurrenceFilter::upcoming_at(now));
    assert_eq!(all.len(), 2);
    assert_eq!(all[0].0, e1);
    assert_eq!(all[0].1.event.title, "Dated");
    assert_eq!(all[0].1.occurrences, vec![sooner, later]);
    // an event with no passing occurrence stays listed, with an empty list
    assert_eq!(all[1].0, e2);
    assert_eq!(all[1].1.event.title, "Undated");
    assert_eq!(all[1].1.occurrences, Vec::new());
}

#[test]
fn all_locations_snapshots_in_store_order() {
    let mut store = EventStore::new();
    let l1 = store.insert_location(venue("Venue A"));
    let l2 = store.insert_location(venue("Venue B"));
    let all = store.all_locations();
    assert_eq!(all.len(), 2);
    assert_eq!(all[0].0, l1);
    assert_eq!(all[0].1, venue("Venue A"));
    assert_eq!(all[1].0, l2);
    assert_eq!(all[1].1, venue("Venue B"));
}

#[test]
fn empty_store_has_empty_views() {
    let store = EventStore::new();
    assert!(store.occurrences_by_date(&OccurrenceFilter::unbounded()).is_empty());
    assert!(store
        .all_events_with_occurrences(&OccurrenceFilter::unbounded())
        .is_empty());
    assert!(store.all_locations().is_empty());
}

#[test]
fn all_events_snapshots_in_store_order() {
    let mut store = EventStore::new();
    let l1 = store.insert_location(venue("Venue A"));
    let occ = Occurrence {
        start: minutes(2019, 4, 2, 20, 30),
        duration: 90,
        location_id: l1,
    };
    let e1 = store.insert_event(event_with("First", vec![occ]));
    let e2 = store.insert_event(event_with("Second", vec![]));
    let all = store.all_events();
    assert_eq!(all.len(), 2);
    assert_eq!(all[0].0, e1);
    assert_eq!(all[0].1, event_with("First", vec![occ]));
    assert_eq!(all[1].0, e2);
    assert_eq!(all[1].1, event_with("Second", vec![]));
}

#[test]
fn day_of_rounds_down_also_before_the_epoch() {
    assert_eq!(event_store::day_of(0), 0);
    assert_eq!(event_store::day_of(1439), 0);
    assert_eq!(event_store::day_of(1440), 1);
    assert_eq!(event_store::day_of(-1), -1);
    assert_eq!(event_store::day_of(-1440), -1);
    assert_eq!(event_store::day_of(-1441), -2);
}
