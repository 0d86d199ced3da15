//! Type-tagged unique identifiers.
//!
//! An `Id<T>` is an opaque token addressing one stored entity of kind `T`.
//! The tag `T` is a compile-time marker only: it keeps a location identifier
//! from being passed where an event identifier is expected. At runtime an
//! identifier is a 128-bit value; two identifiers are equal exactly when
//! their raw values are equal.

use vstd::prelude::*;

use core::marker::PhantomData;

verus! {

/// An opaque identifier for one entity of kind `T`.
///
/// Fresh identifiers are minted by [`crate::typed_id_map::TypedIdMap::insert`];
/// untrusted raw values become identifiers only through
/// [`crate::typed_id_map::TypedIdMap::validate`].
#[derive(Debug, PartialEq, Eq, Hash)]
pub struct Id<T> {
    raw: u128,
    marker: PhantomData<T>,
}

impl<T> Id<T> {
    /// The raw 128-bit value behind this identifier.
    pub closed spec fn raw_spec(self) -> u128 {
        self.raw
    }

    /// Reads the raw 128-bit value, e.g. to print it at a boundary.
    pub fn raw(&self) -> (r: u128)
        ensures
            r == self.raw_spec(),
    {
        self.raw
    }

    /// Wraps a raw value. Kept private to the crate: callers obtain
    /// identifiers only from `insert` or `validate`.
    pub(crate) fn from_raw(raw: u128) -> (r: Self)
        ensures
            r.raw_spec() == raw,
    {
        Id { raw, marker: PhantomData }
    }

    /// Two identifiers with equal raw values are equal outright: the raw
    /// value is the whole runtime identity of an identifier.
    pub proof fn lemma_raw_determines_id(a: Self, b: Self)
        requires
            a.raw_spec() == b.raw_spec(),
        ensures
            a == b,
    {
    }
}

/// Mints a fresh raw identifier value.
///
/// Relies on uuid's `Uuid::new_v4`, which draws a version-4 UUID from the
/// process's random source, and `Uuid::as_u128`, which returns its 128 bits
/// as one integer. Nothing can be promised of a random value, so the result
/// is unconstrained: callers state what holds whatever value comes back.
#[verifier::external_body]
pub(crate) fn mint_raw_id() -> u128 {
    uuid::Uuid::new_v4().as_u128()
}

impl<T> Clone for Id<T> {
    fn clone(&self) -> (r: Self)
        ensures
            r == *self,
    {
        Id { raw: self.raw, marker: PhantomData }
    }
}

impl<T> Copy for Id<T> {

}

} // verus!
