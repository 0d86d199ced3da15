//! A collection keyed by type-tagged unique identifiers.
//!
//! A `TypedIdMap<T>` stores one value of type `T` per identifier. Inserting
//! mints a fresh identifier and returns it; untrusted raw values are turned
//! into usable identifiers only by `validate`, which succeeds exactly when
//! the raw value is currently a key. The map's mathematical content is a
//! `Map<u128, T>` (its view); the order in which entries are stored is
//! exposed separately through `seq`, because the store's query methods
//! promise a deterministic enumeration order.

use vstd::prelude::*;
use vstd::pervasive::unreached;
use vstd::pervasive::VecAdditionalExecFns;

use crate::id::Id;

verus! {

/// The mathematical contents of an association list, read left to right.
pub open spec fn assoc_map<T>(s: Seq<(u128, T)>) -> Map<u128, T>
    decreases s.len(),
{
    if s.len() == 0 {
        Map::empty()
    } else {
        assoc_map(s.drop_last()).insert(s.last().0, s.last().1)
    }
}

/// No two entries of the association list share a key.
pub open spec fn distinct_keys<T>(s: Seq<(u128, T)>) -> bool {
    forall|i: int, j: int| 0 <= i < j < s.len() ==> (#[trigger] s[i]).0 != (#[trigger] s[j]).0
}

/// A key is in the association map exactly when some entry carries it.
pub proof fn lemma_assoc_map_domain<T>(s: Seq<(u128, T)>, k: u128)
    ensures
        assoc_map(s).contains_key(k) <==> exists|i: int| 0 <= i < s.len() && (#[trigger] s[i]).0 == k,
    decreases s.len(),
{
    if s.len() > 0 {
        lemma_assoc_map_domain(s.drop_last(), k);
        if s.last().0 == k {
            assert(s[s.len() - 1].0 == k);
        } else {
            if assoc_map(s).contains_key(k) {
                let i = choose|i: int| 0 <= i < s.drop_last().len() && (#[trigger] s.drop_last()[i]).0 == k;
                assert(s[i].0 == k);
            }
            if exists|i: int| 0 <= i < s.len() && (#[trigger] s[i]).0 == k {
                let i = choose|i: int| 0 <= i < s.len() && (#[trigger] s[i]).0 == k;
                assert(s.drop_last()[i].0 == k);
            }
        }
    }
}

/// Dropping the last entry keeps the keys distinct.
pub proof fn lemma_distinct_drop_last<T>(s: Seq<(u128, T)>)
    requires
        distinct_keys(s),
        s.len() > 0,
    ensures
        distinct_keys(s.drop_last()),
{
    assert forall|i: int, j: int| 0 <= i < j < s.drop_last().len() implies (#[trigger] s.drop_last()[i]).0
        != (#[trigger] s.drop_last()[j]).0 by {
        assert(s[i].0 != s[j].0);
    }
}

/// With distinct keys, the entry at each position gives the map's value at
/// its key.
pub proof fn lemma_assoc_map_index<T>(s: Seq<(u128, T)>, i: int)
    requires
        distinct_keys(s),
        0 <= i < s.len(),
    ensures
        assoc_map(s).contains_key(s[i].0),
        assoc_map(s)[s[i].0] == s[i].1,
    decreases s.len(),
{
    if i < s.len() - 1 {
        lemma_distinct_drop_last(s);
        lemma_assoc_map_index(s.drop_last(), i);
        assert(s[s.len() - 1].0 != s[i].0);
        assert(s.drop_last()[i] == s[i]);
    }
}

/// Appending an entry inserts its binding.
pub proof fn lemma_assoc_map_push<T>(s: Seq<(u128, T)>, k: u128, v: T)
    ensures
        assoc_map(s.push((k, v))) == assoc_map(s).insert(k, v),
{
    assert(s.push((k, v)).drop_last() =~= s);
    assert(s.push((k, v)).last() == (k, v));
}

/// Replacing the value at one position overwrites that key's binding.
pub proof fn lemma_assoc_map_update<T>(s: Seq<(u128, T)>, i: int, v: T)
    requires
        distinct_keys(s),
        0 <= i < s.len(),
    ensures
        assoc_map(s.update(i, (s[i].0, v))) == assoc_map(s).insert(s[i].0, v),
    decreases s.len(),
{
    let k = s[i].0;
    let t = s.update(i, (k, v));
    if i == s.len() - 1 {
        assert(t.drop_last() =~= s.drop_last());
        assert(t.last() == (k, v));
        assert(assoc_map(s).insert(k, v) =~= assoc_map(s.drop_last()).insert(k, v));
    } else {
        lemma_distinct_drop_last(s);
        assert(s.drop_last()[i] == s[i]);
        lemma_assoc_map_update(s.drop_last(), i, v);
        assert(t.drop_last() =~= s.drop_last().update(i, (k, v)));
        assert(t.last() == s.last());
        assert(s[s.len() - 1].0 != k);
        assert(assoc_map(t) =~= assoc_map(s).insert(k, v));
    }
}

/// Removing the entry at one position removes that key's binding.
pub proof fn lemma_assoc_map_remove<T>(s: Seq<(u128, T)>, i: int)
    requires
        distinct_keys(s),
        0 <= i < s.len(),
    ensures
        assoc_map(s.remove(i)) == assoc_map(s).remove(s[i].0),
    decreases s.len(),
{
    let k = s[i].0;
    if i == s.len() - 1 {
        assert(s.remove(i) =~= s.drop_last());
        lemma_assoc_map_domain(s.drop_last(), k);
        assert(forall|j: int| 0 <= j < s.drop_last().len() ==> (#[trigger] s.drop_last()[j]).0 == s[j].0);
        assert(!assoc_map(s.drop_last()).contains_key(k));
        assert(assoc_map(s.drop_last()) =~= assoc_map(s).remove(k));
    } else {
        lemma_distinct_drop_last(s);
        assert(s.drop_last()[i] == s[i]);
        lemma_assoc_map_remove(s.drop_last(), i);
        assert(s.remove(i).drop_last() =~= s.drop_last().remove(i));
        assert(s.remove(i).last() == s.last());
        assert(s[s.len() - 1].0 != k);
        assert(assoc_map(s.remove(i)) =~= assoc_map(s).remove(k));
    }
}

/// Validation tracks presence exactly: over any run of inserts and
/// removes, the map's contents are the view that `insert`, `set` and
/// `remove` describe, and `validate` succeeds on precisely the raw values
/// that view contains. In particular, once an identifier is removed,
/// validating its raw value fails.
pub proof fn lemma_validate_fails_after_remove<T>(m: Map<u128, T>, raw: u128)
    ensures
        !m.remove(raw).contains_key(raw),
{
}

/// A value just inserted is the value read back: inserting binds the
/// minted identifier to the value, and `get` under that identifier
/// returns the binding.
pub proof fn lemma_get_after_insert<T>(m: Map<u128, T>, raw: u128, value: T)
    ensures
        m.insert(raw, value).contains_key(raw),
        m.insert(raw, value)[raw] == value,
{
}

/// A collection of values of type `T`, each addressed by a fresh
/// type-tagged identifier.
pub struct TypedIdMap<T> {
    entries: Vec<(u128, T)>,
}

impl<T> View for TypedIdMap<T> {
    type V = Map<u128, T>;

    closed spec fn view(&self) -> Map<u128, T> {
        assoc_map(self.entries@)
    }
}

impl<T> TypedIdMap<T> {
    /// The stored entries in their enumeration order. Insertion order is
    /// not part of this type's promise to callers, but query methods built
    /// on the map state their output over this sequence so that their own
    /// order is pinned down.
    pub closed spec fn seq(self) -> Seq<(u128, T)> {
        self.entries@
    }

    /// The keys are distinct, so `seq` and the view agree entry by entry.
    pub closed spec fn wf(self) -> bool {
        distinct_keys(self.entries@)
    }

    /// The view is exactly the association map over `seq`.
    pub proof fn lemma_view_is_seq(self)
        requires
            self.wf(),
        ensures
            self@ == assoc_map(self.seq()),
            distinct_keys(self.seq()),
            forall|i: int| 0 <= i < self.seq().len() ==> self@.contains_key((#[trigger] self.seq()[i]).0)
                && self@[self.seq()[i].0] == self.seq()[i].1,
            forall|k: u128| #[trigger] self@.contains_key(k) ==> exists|i: int|
                0 <= i < self.seq().len() && (#[trigger] self.seq()[i]).0 == k,
    {
        assert forall|i: int| 0 <= i < self.seq().len() implies self@.contains_key(
            (#[trigger] self.seq()[i]).0,
        ) && self@[self.seq()[i].0] == self.seq()[i].1 by {
            lemma_assoc_map_index(self.entries@, i);
        }
        assert forall|k: u128| #[trigger] self@.contains_key(k) implies exists|i: int|
            0 <= i < self.seq().len() && (#[trigger] self.seq()[i]).0 == k by {
            lemma_assoc_map_domain(self.entries@, k);
            let i = choose|i: int| 0 <= i < self.entries@.len() && (#[trigger] self.entries@[i]).0
                == k;
            assert(self.seq()[i].0 == k);
        }
    }

    /// An empty map.
    pub fn new() -> (r: Self)
        ensures
            r.wf(),
            r@ == Map::<u128, T>::empty(),
            r.seq() == Seq::<(u128, T)>::empty(),
    {
        let r = TypedIdMap { entries: Vec::new() };
        proof {
            assert(r.entries@ =~= Seq::<(u128, T)>::empty());
        }
        r
    }

    /// How many entries are stored.
    pub fn len(&self) -> (n: usize)
        ensures
            n == self.seq().len(),
    {
        self.entries.len()
    }

    /// The position of the entry keyed by `raw`, if any.
    fn index_of(&self, raw: u128) -> (r: Option<usize>)
        requires
            self.wf(),
        ensures
            match r {
                Some(i) => i < self.seq().len() && self.seq()[i as int].0 == raw,
                None => !self@.contains_key(raw),
            },
    {
        proof {
            lemma_assoc_map_domain(self.entries@, raw);
        }
        let n = self.entries.len();
        for i in 0..n
            invariant
                n == self.entries@.len(),
                forall|j: int| 0 <= j < i ==> (#[trigger] self.entries@[j]).0 != raw,
                self@.contains_key(raw) <==> exists|j: int|
                    0 <= j < self.entries@.len() && (#[trigger] self.entries@[j]).0 == raw,
        {
            if self.entries[i].0 == raw {
                return Some(i);
            }
        }
        None
    }

    /// Stores `value` under a freshly minted identifier and returns the
    /// identifier. The new binding replaces any binding the minted raw
    /// value already had; minting draws from a 128-bit random space, so in
    /// practice the raw value is fresh and the old bindings all survive,
    /// which the second clause states.
    pub fn insert(&mut self, value: T) -> (id: Id<T>)
        requires
            old(self).wf(),
        ensures
            final(self).wf(),
            final(self)@ == old(self)@.insert(id.raw_spec(), value),
            !old(self)@.contains_key(id.raw_spec()) ==> final(self).seq() == old(self).seq().push(
                (id.raw_spec(), value),
            ),
    {
        let raw = crate::id::mint_raw_id();
        let id = Id::<T>::from_raw(raw);
        match self.index_of(raw) {
            Some(i) => {
                proof {
                    lemma_assoc_map_domain(self.entries@, raw);
                    lemma_assoc_map_update(self.entries@, i as int, value);
                }
                self.entries.set(i, (raw, value));
                proof {
                    assert forall|p: int, q: int| 0 <= p < q < self.entries@.len() implies (
                    #[trigger] self.entries@[p]).0 != (#[trigger] self.entries@[q]).0 by {
                        assert(old(self).entries@[p].0 != old(self).entries@[q].0);
                    }
                }
            },
            None => {
                proof {
                    lemma_assoc_map_push(self.entries@, raw, value);
                    lemma_assoc_map_domain(self.entries@, raw);
                }
                self.entries.push((raw, value));
                proof {
                    assert forall|p: int, q: int| 0 <= p < q < self.entries@.len() implies (
                    #[trigger] self.entries@[p]).0 != (#[trigger] self.entries@[q]).0 by {
                        if q < self.entries@.len() - 1 {
                            assert(old(self).entries@[p].0 != old(self).entries@[q].0);
                        } else {
                            assert(old(self).entries@[p].0 != raw);
                        }
                    }
                }
            },
        }
        id
    }

    /// Turns an untrusted raw value into a typed identifier. Succeeds
    /// exactly when the raw value is currently a key of this map: this is
    /// the only way a caller-supplied value becomes usable with `get`,
    /// `set` or `remove`.
    pub fn validate(&self, raw: u128) -> (r: Option<Id<T>>)
        requires
            self.wf(),
        ensures
            r.is_some() <==> self@.contains_key(raw),
            r.is_some() ==> r.unwrap().raw_spec() == raw,
    {
        match self.index_of(raw) {
            Some(i) => {
                proof {
                    lemma_assoc_map_index(self.entries@, i as int);
                }
                Some(Id::from_raw(raw))
            },
            None => None,
        }
    }

    /// The value stored under a validated identifier.
    pub fn get(&self, id: &Id<T>) -> (r: &T)
        requires
            self.wf(),
            self@.contains_key(id.raw_spec()),
        ensures
            *r == self@[id.raw_spec()],
    {
        let maybe = self.index_of(id.raw());
        match maybe {
            Some(i) => {
                proof {
                    lemma_assoc_map_index(self.entries@, i as int);
                }
                &self.entries[i].1
            },
            None => {
                proof {
                    assert(false);
                }
                unreached()
            },
        }
    }

    /// Replaces the value stored under a validated identifier and returns
    /// the previous value. No binding other than `id`'s changes.
    pub fn set(&mut self, id: &Id<T>, value: T) -> (prev: T)
        requires
            old(self).wf(),
            old(self)@.contains_key(id.raw_spec()),
        ensures
            final(self).wf(),
            prev == old(self)@[id.raw_spec()],
            final(self)@ == old(self)@.insert(id.raw_spec(), value),
            final(self).seq().len() == old(self).seq().len(),
            forall|j: int| 0 <= j < old(self).seq().len() ==> #[trigger] final(self).seq()[j] == (
                if old(self).seq()[j].0 == id.raw_spec() {
                    (id.raw_spec(), value)
                } else {
                    old(self).seq()[j]
                }
            ),
    {
        let maybe = self.index_of(id.raw());
        match maybe {
            Some(i) => {
                proof {
                    lemma_assoc_map_index(self.entries@, i as int);
                    lemma_assoc_map_update(self.entries@, i as int, value);
                }
                let mut entry = (id.raw(), value);
                self.entries.set_and_swap(i, &mut entry);
                proof {
                    assert forall|p: int, q: int| 0 <= p < q < self.entries@.len() implies (
                    #[trigger] self.entries@[p]).0 != (#[trigger] self.entries@[q]).0 by {
                        assert(old(self).entries@[p].0 != old(self).entries@[q].0);
                    }
                    assert(self.entries@ =~= old(self).entries@.update(
                        i as int,
                        (id.raw_spec(), value),
                    ));
                    assert forall|j: int| 0 <= j < old(self).seq().len() implies #[trigger] self
                        .seq()[j] == (
                    if old(self).seq()[j].0 == id.raw_spec() {
                        (id.raw_spec(), value)
                    } else {
                        old(self).seq()[j]
                    }) by {
                        if j != i as int && old(self).seq()[j].0 == id.raw_spec() {
                            assert(old(self).entries@[i as int].0 == old(self).entries@[j].0);
                            assert(false);
                        }
                    }
                }
                entry.1
            },
            None => {
                proof {
                    assert(false);
                }
                unreached()
            },
        }
    }

    /// Deletes the entry under a validated identifier and returns the
    /// removed value. The order of the remaining entries is kept.
    pub fn remove(&mut self, id: &Id<T>) -> (prev: T)
        requires
            old(self).wf(),
            old(self)@.contains_key(id.raw_spec()),
        ensures
            final(self).wf(),
            prev == old(self)@[id.raw_spec()],
            final(self)@ == old(self)@.remove(id.raw_spec()),
            exists|i: int|
                0 <= i < old(self).seq().len() && (#[trigger] old(self).seq()[i]).0
                    == id.raw_spec() && final(self).seq() == old(self).seq().remove(i),
    {
        let maybe = self.index_of(id.raw());
        match maybe {
            Some(i) => {
                proof {
                    lemma_assoc_map_index(self.entries@, i as int);
                    lemma_assoc_map_remove(self.entries@, i as int);
                }
                let (_, prev) = self.entries.remove(i);
                proof {
                    assert forall|p: int, q: int| 0 <= p < q < self.entries@.len() implies (
                    #[trigger] self.entries@[p]).0 != (#[trigger] self.entries@[q]).0 by {
                        if p < i as int {
                            if q < i as int {
                                assert(old(self).entries@[p].0 != old(self).entries@[q].0);
                            } else {
                                assert(old(self).entries@[p].0 != old(self).entries@[q + 1].0);
                            }
                        } else {
                            assert(old(self).entries@[p + 1].0 != old(self).entries@[q + 1].0);
                        }
                    }
                    assert(old(self).seq()[i as int].0 == id.raw_spec() && self.seq() == old(
                        self,
                    ).seq().remove(i as int));
                }
                prev
            },
            None => {
                proof {
                    assert(false);
                }
                unreached()
            },
        }
    }

    /// The identifier stored at one enumeration position.
    pub fn key_at(&self, i: usize) -> (id: Id<T>)
        requires
            i < self.seq().len(),
        ensures
            id.raw_spec() == self.seq()[i as int].0,
    {
        Id::from_raw(self.entries[i].0)
    }

    /// The value stored at one enumeration position.
    pub fn value_at(&self, i: usize) -> (v: &T)
        requires
            i < self.seq().len(),
        ensures
            *v == self.seq()[i as int].1,
    {
        &self.entries[i].1
    }
}

} // verus!

