//! The read queries: flattening, filtering, grouping and sorting of
//! occurrences for rendering.
//!
//! The composed views returned here borrow the stored events rather than
//! copying them: the store stays the sole owner of its data, and mutation
//! always goes through the map operations.

use vstd::prelude::*;

use crate::domain::day_of;
use crate::domain::day_of_instant;
use crate::domain::Event;
use crate::domain::Occurrence;
use crate::event_store::EventStore;
use crate::filter::OccurrenceFilter;
use crate::id::Id;

verus! {

/// One occurrence paired with the event that owns it, as the schedule
/// renders it: the occurrence data, the owning event's identifier, and a
/// borrow of the owning event.
#[derive(Debug, Clone, Copy)]
pub struct OccurrenceWithEvent<'a> {
    pub occurrence: Occurrence,
    pub event_id: Id<Event>,
    pub event: &'a Event,
}

/// The part of a schedule entry that identifies and orders it: the owning
/// event's raw key and the occurrence itself.
pub open spec fn entry_key(e: OccurrenceWithEvent) -> (u128, Occurrence) {
    (e.event_id.raw_spec(), e.occurrence)
}

/// The entry keys of a sequence of schedule entries.
pub open spec fn keys_of(s: Seq<OccurrenceWithEvent>) -> Seq<(u128, Occurrence)> {
    s.map_values(|e: OccurrenceWithEvent| entry_key(e))
}

/// Schedule order: ascending by start instant, ties broken by the owning
/// event's raw key, so that output order is reproducible.
pub open spec fn entry_le(a: (u128, Occurrence), b: (u128, Occurrence)) -> bool {
    a.1.start < b.1.start || (a.1.start == b.1.start && a.0 <= b.0)
}

/// Every pair of entries is in schedule order.
pub open spec fn sorted_entries(s: Seq<(u128, Occurrence)>) -> bool {
    forall|i: int, j: int| 0 <= i < j < s.len() ==> entry_le(#[trigger] s[i], #[trigger] s[j])
}

/// The occurrences of one sequence that pass the filter, in their stored
/// order.
pub open spec fn passing(occs: Seq<Occurrence>, f: OccurrenceFilter) -> Seq<Occurrence>
    decreases occs.len(),
{
    if occs.len() == 0 {
        Seq::empty()
    } else {
        let rest = passing(occs.drop_last(), f);
        if f.matches_spec(occs.last()) {
            rest.push(occs.last())
        } else {
            rest
        }
    }
}

/// One event's passing occurrences, each tagged with the event's raw key.
pub open spec fn passing_entries(raw: u128, ev: Event, f: OccurrenceFilter) -> Seq<
    (u128, Occurrence),
> {
    passing(ev.occurrences@, f).map_values(|o: Occurrence| (raw, o))
}

/// All passing occurrences of all events, flattened in store order.
pub open spec fn schedule_entries(s: Seq<(u128, Event)>, f: OccurrenceFilter) -> Seq<
    (u128, Occurrence),
>
    decreases s.len(),
{
    if s.len() == 0 {
        Seq::empty()
    } else {
        schedule_entries(s.drop_last(), f) + passing_entries(s.last().0, s.last().1, f)
    }
}

/// The concatenation of the entries of a sequence of date groups.
pub open spec fn concat_groups<'a>(gs: Seq<(i64, Vec<OccurrenceWithEvent<'a>>)>) -> Seq<
    OccurrenceWithEvent<'a>,
>
    decreases gs.len(),
{
    if gs.len() == 0 {
        Seq::empty()
    } else {
        concat_groups(gs.drop_last()) + gs.last().1@
    }
}

/// Inserting an element anywhere in a sequence inserts it into the
/// sequence's multiset.
proof fn lemma_insert_to_multiset<A>(s: Seq<A>, i: int, a: A)
    requires
        0 <= i <= s.len(),
    ensures
        s.insert(i, a).to_multiset() == s.to_multiset().insert(a),
{
    broadcast use vstd::seq_lib::group_to_multiset_ensures;
    broadcast use vstd::multiset::group_multiset_axioms;

    let t = s.insert(i, a);
    s.insert_ensures(i, a);
    assert(t.remove(i) =~= s);
    assert(t[i] == a);
    assert(s.to_multiset() =~= t.to_multiset().remove(a));
    assert(t.to_multiset().count(a) > 0);
    assert(t.to_multiset() =~= s.to_multiset().insert(a));
}

/// Whether `a` comes no later than `b` in schedule order.
fn entry_le_exec(a: &OccurrenceWithEvent, b: &OccurrenceWithEvent) -> (r: bool)
    ensures
        r == entry_le(entry_key(*a), entry_key(*b)),
{
    a.occurrence.start < b.occurrence.start || (a.occurrence.start == b.occurrence.start
        && a.event_id.raw() <= b.event_id.raw())
}

/// The position at which `e` belongs in the sorted prefix `out`: the first
/// index holding an entry that must come after `e`.
fn find_insert_pos(out: &Vec<OccurrenceWithEvent>, e: &OccurrenceWithEvent) -> (pos: usize)
    ensures
        pos <= out@.len(),
        forall|m: int| 0 <= m < pos ==> entry_le(entry_key(#[trigger] out@[m]), entry_key(*e)),
        pos < out@.len() ==> !entry_le(entry_key(out@[pos as int]), entry_key(*e)),
{
    let n = out.len();
    for pos in 0..n
        invariant
            n == out@.len(),
            forall|m: int| 0 <= m < pos ==> entry_le(entry_key(#[trigger] out@[m]), entry_key(*e)),
    {
        if !entry_le_exec(&out[pos], e) {
            return pos;
        }
    }
    n
}

/// Sorts schedule entries into schedule order by insertion, keeping
/// exactly the entries it was given.
fn sort_entries<'a>(input: Vec<OccurrenceWithEvent<'a>>) -> (out: Vec<OccurrenceWithEvent<'a>>)
    ensures
        out@.len() == input@.len(),
        sorted_entries(keys_of(out@)),
        keys_of(out@).to_multiset() == keys_of(input@).to_multiset(),
        forall|i: int| 0 <= i < out@.len() ==> input@.contains(#[trigger] out@[i]),
{
    let mut out: Vec<OccurrenceWithEvent<'a>> = Vec::new();
    let n = input.len();
    proof {
        assert(keys_of(out@) =~= Seq::<(u128, Occurrence)>::empty());
        assert(keys_of(input@.take(0)) =~= Seq::<(u128, Occurrence)>::empty());
        assert(keys_of(out@).to_multiset() =~= keys_of(input@.take(0)).to_multiset());
    }
    for k in 0..n
        invariant
            n == input@.len(),
            out@.len() == k,
            sorted_entries(keys_of(out@)),
            keys_of(out@).to_multiset() == keys_of(input@.take(k as int)).to_multiset(),
            forall|i: int| 0 <= i < out@.len() ==> input@.contains(#[trigger] out@[i]),
    {
        let e = input[k];
        let pos = find_insert_pos(&out, &e);
        let ghost prev = out@;
        out.insert(pos, e);
        proof {
            prev.insert_ensures(pos as int, e);
            assert(input@.contains(e)) by {
                assert(input@[k as int] == e);
            }
            assert forall|i: int| 0 <= i < out@.len() implies input@.contains(
                #[trigger] out@[i],
            ) by {
                if i < pos {
                    assert(out@[i] == prev[i]);
                } else if i == pos {
                    assert(out@[i] == e);
                } else {
                    assert(out@[i] == prev[i - 1]);
                }
            }
            assert(keys_of(out@) =~= keys_of(prev).insert(pos as int, entry_key(e)));
            lemma_insert_to_multiset(keys_of(prev), pos as int, entry_key(e));
            assert(keys_of(input@.take(k + 1)) =~= keys_of(input@.take(k as int)).push(
                entry_key(e),
            ));
            assert(keys_of(input@.take(k + 1)).to_multiset() == keys_of(input@.take(
                k as int,
            )).to_multiset().insert(entry_key(e))) by {
                broadcast use vstd::seq_lib::group_to_multiset_ensures;

            }
            assert forall|i: int, j: int| 0 <= i < j < keys_of(out@).len() implies entry_le(
                #[trigger] keys_of(out@)[i],
                #[trigger] keys_of(out@)[j],
            ) by {
                let ke = entry_key(e);
                if j < pos {
                    assert(entry_le(keys_of(prev)[i], keys_of(prev)[j]));
                } else if i < pos && j == pos {
                    assert(entry_le(entry_key(prev[i]), ke));
                } else if i < pos && j > pos {
                    assert(entry_le(keys_of(prev)[i], keys_of(prev)[j - 1]));
                } else if i == pos {
                    // everything at or after `pos` in the old prefix comes
                    // after `e`: the entry at `pos` does, and the rest
                    // follow it in sorted order
                    assert(!entry_le(entry_key(prev[pos as int]), ke));
                    if j - 1 > pos as int {
                        assert(entry_le(keys_of(prev)[pos as int], keys_of(prev)[j - 1]));
                    }
                } else {
                    assert(entry_le(keys_of(prev)[i - 1], keys_of(prev)[j - 1]));
                }
            }
        }
    }
    proof {
        assert(input@.take(n as int) =~= input@);
    }
    out
}

/// The borrowed event of an entry is the store's event under the entry's
/// event identifier.
pub open spec fn entry_event_resolved(store: EventStore, e: OccurrenceWithEvent) -> bool {
    store.events_map().contains_key(e.event_id.raw_spec()) && *e.event == store.events_map()[e.event_id.raw_spec()]
}

impl EventStore {
    /// All passing occurrences of all events, paired with their owning
    /// events, in store order (not yet sorted).
    fn collect_entries<'a>(&'a self, f: &OccurrenceFilter) -> (r: Vec<OccurrenceWithEvent<'a>>)
        requires
            self.wf(),
        ensures
            keys_of(r@) == schedule_entries(self.events_seq(), *f),
            forall|i: int| 0 <= i < r@.len() ==> entry_event_resolved(*self, #[trigger] r@[i]),
            forall|i: int| 0 <= i < r@.len() ==> f.matches_spec((#[trigger] r@[i]).occurrence),
    {
        let mut r: Vec<OccurrenceWithEvent<'a>> = Vec::new();
        let n = self.events.len();
        proof {
            self.lemma_repr();
            assert(self.events_seq().take(0) =~= Seq::<(u128, Event)>::empty());
            assert(keys_of(r@) =~= schedule_entries(self.events_seq().take(0), *f));
        }
        for i in 0..n
            invariant
                self.wf(),
                n == self.events_seq().len(),
                keys_of(r@) == schedule_entries(self.events_seq().take(i as int), *f),
                forall|k: int| 0 <= k < r@.len() ==> entry_event_resolved(*self, #[trigger] r@[k]),
                forall|k: int| 0 <= k < r@.len() ==> f.matches_spec((#[trigger] r@[k]).occurrence),
        {
            proof {
                self.lemma_repr();
            }
            let ev: &'a Event = self.events.value_at(i);
            let eid = self.events.key_at(i);
            let m = ev.occurrences.len();
            proof {
                assert(ev.occurrences@.take(0) =~= Seq::<Occurrence>::empty());
                assert(keys_of(r@) =~= schedule_entries(self.events_seq().take(i as int), *f)
                    + passing(ev.occurrences@.take(0), *f).map_values(
                    |o: Occurrence| (eid.raw_spec(), o),
                ));
            }
            for j in 0..m
                invariant
                    self.wf(),
                    n == self.events_seq().len(),
                    i < n,
                    m == ev.occurrences@.len(),
                    *ev == self.events_seq()[i as int].1,
                    eid.raw_spec() == self.events_seq()[i as int].0,
                    keys_of(r@) == schedule_entries(self.events_seq().take(i as int), *f)
                        + passing(ev.occurrences@.take(j as int), *f).map_values(
                        |o: Occurrence| (eid.raw_spec(), o),
                    ),
                    forall|k: int| 0 <= k < r@.len() ==> entry_event_resolved(
                        *self,
                        #[trigger] r@[k],
                    ),
                    forall|k: int| 0 <= k < r@.len() ==> f.matches_spec(
                        (#[trigger] r@[k]).occurrence,
                    ),
            {
                let occ = ev.occurrences[j];
                let ghost prev = r@;
                if f.matches(&occ) {
                    r.push(OccurrenceWithEvent { occurrence: occ, event_id: eid, event: ev });
                    proof {
                        self.lemma_seqs_agree_with_maps();
                        assert(entry_event_resolved(*self, r@[r@.len() - 1]));
                    }
                }
                proof {
                    let tj = ev.occurrences@.take(j + 1);
                    assert(tj.drop_last() =~= ev.occurrences@.take(j as int));
                    assert(tj.last() == ev.occurrences@[j as int]);
                    if f.matches_spec(occ) {
                        assert(keys_of(r@) =~= keys_of(prev).push((eid.raw_spec(), occ)));
                    }
                    assert(keys_of(r@) =~= schedule_entries(self.events_seq().take(i as int), *f)
                        + passing(tj, *f).map_values(|o: Occurrence| (eid.raw_spec(), o)));
                }
            }
            proof {
                let ti = self.events_seq().take(i + 1);
                assert(ti.drop_last() =~= self.events_seq().take(i as int));
                assert(ti.last() == self.events_seq()[i as int]);
                assert(ev.occurrences@.take(m as int) =~= ev.occurrences@);
                assert(passing_entries(ti.last().0, ti.last().1, *f) =~= passing(
                    ev.occurrences@,
                    *f,
                ).map_values(|o: Occurrence| (eid.raw_spec(), o)));
                assert(keys_of(r@) =~= schedule_entries(ti, *f));
            }
        }
        proof {
            assert(self.events_seq().take(n as int) =~= self.events_seq());
        }
        r
    }
}

/// Splits a sorted run of schedule entries into its calendar-day groups.
fn group_entries<'a>(v: Vec<OccurrenceWithEvent<'a>>) -> (r: Vec<
    (i64, Vec<OccurrenceWithEvent<'a>>),
>)
    requires
        sorted_entries(keys_of(v@)),
    ensures
        concat_groups(r@) == v@,
        forall|g: int| 0 <= g < r@.len() ==> (#[trigger] r@[g]).1@.len() > 0,
        forall|g1: int, g2: int| 0 <= g1 < g2 < r@.len() ==> (#[trigger] r@[g1]).0 < (
        #[trigger] r@[g2]).0,
        forall|g: int, k: int|
            0 <= g < r@.len() && 0 <= k < r@[g].1@.len() ==> day_of_instant(
                (#[trigger] r@[g].1@[k]).occurrence.start as int,
            ) == r@[g].0,
        forall|g: int, k1: int, k2: int|
            0 <= g < r@.len() && 0 <= k1 < k2 < r@[g].1@.len() ==> entry_le(
                entry_key(#[trigger] r@[g].1@[k1]),
                entry_key(#[trigger] r@[g].1@[k2]),
            ),
        forall|g: int, k: int|
            0 <= g < r@.len() && 0 <= k < r@[g].1@.len() ==> v@.contains(#[trigger] r@[g].1@[k]),
{
    let mut r: Vec<(i64, Vec<OccurrenceWithEvent<'a>>)> = Vec::new();
    let mut cur: Vec<OccurrenceWithEvent<'a>> = Vec::new();
    let mut cur_day: i64 = 0;
    let ghost mut start: int = 0;
    let n = v.len();
    proof {
        assert(concat_groups(r@) + cur@ =~= v@.take(0));
    }
    for k in 0..n
        invariant
            n == v@.len(),
            sorted_entries(keys_of(v@)),
            0 <= start <= k as int,
            start == k - cur@.len(),
            cur@ == v@.subrange(start, k as int),
            cur@.len() == 0 ==> k == 0 && r@.len() == 0,
            concat_groups(r@) + cur@ == v@.take(k as int),
            cur@.len() > 0 ==> cur_day == day_of_instant(v@[start].occurrence.start as int),
            forall|t: int| start <= t < k ==> day_of_instant(
                (#[trigger] v@[t]).occurrence.start as int,
            ) == cur_day,
            forall|g: int| 0 <= g < r@.len() ==> (#[trigger] r@[g]).1@.len() > 0,
            forall|g1: int, g2: int| 0 <= g1 < g2 < r@.len() ==> (#[trigger] r@[g1]).0 < (
            #[trigger] r@[g2]).0,
            forall|g: int, t: int|
                0 <= g < r@.len() && 0 <= t < r@[g].1@.len() ==> day_of_instant(
                    (#[trigger] r@[g].1@[t]).occurrence.start as int,
                ) == r@[g].0,
            forall|g: int, t1: int, t2: int|
                0 <= g < r@.len() && 0 <= t1 < t2 < r@[g].1@.len() ==> entry_le(
                    entry_key(#[trigger] r@[g].1@[t1]),
                    entry_key(#[trigger] r@[g].1@[t2]),
                ),
            forall|g: int, t: int|
                0 <= g < r@.len() && 0 <= t < r@[g].1@.len() ==> v@.contains(
                    #[trigger] r@[g].1@[t],
                ),
            r@.len() > 0 && cur@.len() > 0 ==> r@[r@.len() - 1].0 < cur_day,
        {
            let d = day_of(v[k].occurrence.start);
            if cur.len() > 0 && d == cur_day {
                let ghost old_cur = cur@;
                cur.push(v[k]);
                proof {
                    assert(cur@ == old_cur.push(v@[k as int]));
                    assert(cur@ =~= v@.subrange(start, k + 1));
                    assert((concat_groups(r@) + old_cur).push(v@[k as int]) =~= v@.take(k + 1));
                    assert(concat_groups(r@) + cur@ =~= (concat_groups(r@) + old_cur).push(
                        v@[k as int],
                    ));
                }
            } else {
                if cur.len() > 0 {
                    let ghost old_r = r@;
                    let ghost group = cur@;
                    r.push((cur_day, cur));
                    cur = Vec::new();
                    proof {
                        assert(r@.drop_last() =~= old_r);
                        assert(r@.last() == (cur_day, r@.last().1));
                        assert(r@.last().1@ == group);
                        assert(entry_le(keys_of(v@)[k as int - 1], keys_of(v@)[k as int]));
                        lemma_day_le(
                            v@[k as int - 1].occurrence.start as int,
                            v@[k as int].occurrence.start as int,
                        );
                        assert(cur_day < d);
                        assert forall|g: int, t1: int, t2: int|
                            0 <= g < r@.len() && 0 <= t1 < t2 < r@[g].1@.len() implies entry_le(
                            entry_key(r@[g].1@[t1]),
                            entry_key(r@[g].1@[t2]),
                        ) by {
                            if g == r@.len() - 1 {
                                assert(r@[g].1@[t1] == v@[start + t1]);
                                assert(r@[g].1@[t2] == v@[start + t2]);
                                assert(entry_le(keys_of(v@)[start + t1], keys_of(v@)[start + t2]));
                            } else {
                                assert(entry_le(
                                    entry_key(old_r[g].1@[t1]),
                                    entry_key(old_r[g].1@[t2]),
                                ));
                            }
                        }
                        assert forall|g: int, t: int|
                            0 <= g < r@.len() && 0 <= t < r@[g].1@.len() implies v@.contains(
                            r@[g].1@[t],
                        ) by {
                            if g == r@.len() - 1 {
                                assert(r@[g].1@[t] == v@[start + t]);
                            } else {
                                assert(v@.contains(old_r[g].1@[t]));
                            }
                        }
                    }
                }
                cur.push(v[k]);
                proof {
                    start = k as int;
                }
                cur_day = d;
                proof {
                    assert(cur@ =~= v@.subrange(start, k + 1));
                    assert(concat_groups(r@) + cur@ =~= v@.take(k + 1));
                }
            }
        }
    if cur.len() > 0 {
        let ghost old_r = r@;
        let ghost group = cur@;
        r.push((cur_day, cur));
        proof {
            assert(r@.drop_last() =~= old_r);
            assert(r@.last().1@ == group);
            assert forall|g: int, t1: int, t2: int|
                0 <= g < r@.len() && 0 <= t1 < t2 < r@[g].1@.len() implies entry_le(
                entry_key(r@[g].1@[t1]),
                entry_key(r@[g].1@[t2]),
            ) by {
                if g == r@.len() - 1 {
                    assert(r@[g].1@[t1] == v@[start + t1]);
                    assert(r@[g].1@[t2] == v@[start + t2]);
                    assert(entry_le(keys_of(v@)[start + t1], keys_of(v@)[start + t2]));
                } else {
                    assert(entry_le(entry_key(old_r[g].1@[t1]), entry_key(old_r[g].1@[t2])));
                }
            }
            assert forall|g: int, t: int|
                0 <= g < r@.len() && 0 <= t < r@[g].1@.len() implies v@.contains(r@[g].1@[t]) by {
                if g == r@.len() - 1 {
                    assert(r@[g].1@[t] == v@[start + t]);
                } else {
                    assert(v@.contains(old_r[g].1@[t]));
                }
            }
            assert(concat_groups(r@) =~= v@.take(n as int));
        }
    }
    proof {
        assert(v@.take(n as int) =~= v@);
        assert(concat_groups(r@) =~= v@);
    }
    r
}

/// An instant at or before another lies on the same or an earlier
/// calendar day.
proof fn lemma_day_le(a: int, b: int)
    requires
        a <= b,
    ensures
        day_of_instant(a) <= day_of_instant(b),
{
    vstd::arithmetic::div_mod::lemma_div_is_ordered(a, b, crate::MINUTES_PER_DAY as int);
}

impl EventStore {
    /// The schedule: every occurrence that passes the filter, paired with
    /// its owning event, grouped by the calendar day it starts on.
    ///
    /// Groups come in ascending day order and are never empty; inside a
    /// group, entries are in schedule order (ascending start instant, ties
    /// broken by the owning event's raw key). Taken together the groups
    /// hold exactly the store's passing occurrences, each exactly as often
    /// as its event holds it.
    pub fn occurrences_by_date<'a>(&'a self, f: &OccurrenceFilter) -> (r: Vec<
        (i64, Vec<OccurrenceWithEvent<'a>>),
    >)
        requires
            self.wf(),
        ensures
            keys_of(concat_groups(r@)).to_multiset() == schedule_entries(
                self.events_seq(),
                *f,
            ).to_multiset(),
            forall|g: int| 0 <= g < r@.len() ==> (#[trigger] r@[g]).1@.len() > 0,
            forall|g1: int, g2: int| 0 <= g1 < g2 < r@.len() ==> (#[trigger] r@[g1]).0 < (
            #[trigger] r@[g2]).0,
            forall|g: int, k: int|
                0 <= g < r@.len() && 0 <= k < r@[g].1@.len() ==> day_of_instant(
                    (#[trigger] r@[g].1@[k]).occurrence.start as int,
                ) == r@[g].0,
            forall|g: int, k1: int, k2: int|
                0 <= g < r@.len() && 0 <= k1 < k2 < r@[g].1@.len() ==> entry_le(
                    entry_key(#[trigger] r@[g].1@[k1]),
                    entry_key(#[trigger] r@[g].1@[k2]),
                ),
            forall|g: int, k: int|
                0 <= g < r@.len() && 0 <= k < r@[g].1@.len() ==> entry_event_resolved(
                    *self,
                    #[trigger] r@[g].1@[k],
                ) && f.matches_spec(r@[g].1@[k].occurrence),
    {
        let entries = self.collect_entries(f);
        let sorted = sort_entries(entries);
        let r = group_entries(sorted);
        proof {
            assert(keys_of(concat_groups(r@)) == keys_of(sorted@));
            assert forall|g: int, k: int|
                0 <= g < r@.len() && 0 <= k < r@[g].1@.len() implies entry_event_resolved(
                *self,
                #[trigger] r@[g].1@[k],
            ) && f.matches_spec(r@[g].1@[k].occurrence) by {
                let e = r@[g].1@[k];
                assert(sorted@.contains(e));
                let si = choose|si: int| 0 <= si < sorted@.len() && sorted@[si] == e;
                assert(entries@.contains(sorted@[si]));
                let ei = choose|ei: int| 0 <= ei < entries@.len() && entries@[ei] == e;
                assert(entry_event_resolved(*self, entries@[ei]));
                assert(f.matches_spec(entries@[ei].occurrence));
            }
        }
        r
    }
}

/// An event together with the filtered, sorted sequence of its
/// occurrences, as the per-event overview renders it.
#[derive(Debug)]
pub struct EventWithOccurrences<'a> {
    pub event: &'a Event,
    pub occurrences: Vec<Occurrence>,
}

/// Every pair of occurrences is in ascending start order.
pub open spec fn sorted_by_start(s: Seq<Occurrence>) -> bool {
    forall|i: int, j: int| 0 <= i < j < s.len() ==> (#[trigger] s[i]).start <= (#[trigger] s[j]).start
}

/// The occurrences of one sequence that pass the filter, in stored order.
fn filter_occurrences(occs: &Vec<Occurrence>, f: &OccurrenceFilter) -> (r: Vec<Occurrence>)
    ensures
        r@ == passing(occs@, *f),
{
    let mut r: Vec<Occurrence> = Vec::new();
    let n = occs.len();
    proof {
        assert(occs@.take(0) =~= Seq::<Occurrence>::empty());
        assert(r@ =~= passing(occs@.take(0), *f));
    }
    for j in 0..n
        invariant
            n == occs@.len(),
            r@ == passing(occs@.take(j as int), *f),
    {
        let o = occs[j];
        if f.matches(&o) {
            r.push(o);
        }
        proof {
            let tj = occs@.take(j + 1);
            assert(tj.drop_last() =~= occs@.take(j as int));
            assert(tj.last() == occs@[j as int]);
            assert(r@ =~= passing(tj, *f));
        }
    }
    proof {
        assert(occs@.take(n as int) =~= occs@);
    }
    r
}

/// The position at which `e` belongs in the prefix `out`, sorted by start.
fn find_occ_pos(out: &Vec<Occurrence>, e: &Occurrence) -> (pos: usize)
    ensures
        pos <= out@.len(),
        forall|m: int| 0 <= m < pos ==> (#[trigger] out@[m]).start <= e.start,
        pos < out@.len() ==> !(out@[pos as int].start <= e.start),
{
    let n = out.len();
    for pos in 0..n
        invariant
            n == out@.len(),
            forall|m: int| 0 <= m < pos ==> (#[trigger] out@[m]).start <= e.start,
    {
        if !(out[pos].start <= e.start) {
            return pos;
        }
    }
    n
}

/// Sorts occurrences ascending by start by insertion, keeping exactly the
/// occurrences it was given.
fn sort_occurrences(input: Vec<Occurrence>) -> (out: Vec<Occurrence>)
    ensures
        out@.len() == input@.len(),
        sorted_by_start(out@),
        out@.to_multiset() == input@.to_multiset(),
{
    let mut out: Vec<Occurrence> = Vec::new();
    let n = input.len();
    proof {
        broadcast use vstd::seq_lib::group_to_multiset_ensures;

        assert(input@.take(0) =~= Seq::<Occurrence>::empty());
        assert(out@.to_multiset() =~= input@.take(0).to_multiset());
    }
    for k in 0..n
        invariant
            n == input@.len(),
            out@.len() == k,
            sorted_by_start(out@),
            out@.to_multiset() == input@.take(k as int).to_multiset(),
    {
        let e = input[k];
        let pos = find_occ_pos(&out, &e);
        let ghost prev = out@;
        out.insert(pos, e);
        proof {
            broadcast use vstd::seq_lib::group_to_multiset_ensures;

            prev.insert_ensures(pos as int, e);
            lemma_insert_to_multiset(prev, pos as int, e);
            assert(input@.take(k + 1) =~= input@.take(k as int).push(e));
            assert forall|i: int, j: int| 0 <= i < j < out@.len() implies (
            #[trigger] out@[i]).start <= (#[trigger] out@[j]).start by {
                if j < pos {
                    assert(prev[i].start <= prev[j].start);
                } else if i < pos && j == pos {
                    assert(prev[i].start <= e.start);
                } else if i < pos && j > pos {
                    assert(prev[i].start <= prev[j - 1].start);
                } else if i == pos {
                    if j - 1 > pos as int {
                        assert(prev[pos as int].start <= prev[j - 1].start);
                    }
                } else {
                    assert(prev[i - 1].start <= prev[j - 1].start);
                }
            }
        }
    }
    proof {
        assert(input@.take(n as int) =~= input@);
    }
    out
}

impl EventStore {
    /// For every event, in store order: the event and those of its
    /// occurrences that pass the filter, sorted ascending by start. An
    /// event none of whose occurrences passes is still included, with an
    /// empty occurrence list — the overview page lists every event, dated
    /// or not.
    pub fn all_events_with_occurrences<'a>(&'a self, f: &OccurrenceFilter) -> (r: Vec<
        (Id<Event>, EventWithOccurrences<'a>),
    >)
        requires
            self.wf(),
        ensures
            r@.len() == self.events_seq().len(),
            forall|i: int|
                0 <= i < r@.len() ==> (#[trigger] r@[i]).0.raw_spec() == self.events_seq()[i].0 && *r@[i].1.event
                    == self.events_seq()[i].1 && sorted_by_start(r@[i].1.occurrences@)
                    && r@[i].1.occurrences@.to_multiset() == passing(
                    self.events_seq()[i].1.occurrences@,
                    *f,
                ).to_multiset(),
    {
        let mut r: Vec<(Id<Event>, EventWithOccurrences<'a>)> = Vec::new();
        let n = self.events.len();
        proof {
            self.lemma_repr();
        }
        for i in 0..n
            invariant
                self.wf(),
                n == self.events_seq().len(),
                r@.len() == i,
                forall|t: int|
                    0 <= t < i as int ==> (#[trigger] r@[t]).0.raw_spec()
                        == self.events_seq()[t].0 && *r@[t].1.event == self.events_seq()[t].1
                        && sorted_by_start(r@[t].1.occurrences@) && r@[t].1.occurrences@.to_multiset()
                        == passing(self.events_seq()[t].1.occurrences@, *f).to_multiset(),
        {
            proof {
                self.lemma_repr();
            }
            let ev: &'a Event = self.events.value_at(i);
            let eid = self.events.key_at(i);
            let kept = filter_occurrences(&ev.occurrences, f);
            let occurrences = sort_occurrences(kept);
            r.push((eid, EventWithOccurrences { event: ev, occurrences }));
        }
        r
    }
}

} // verus!
