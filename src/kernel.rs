//! Identifiers and entities shared by every aggregate.
use std::marker::PhantomData;
use vstd::prelude::*;

verus! {

/// Relies on uuid::Uuid::new_v4 and Uuid::as_u128: a random version 4 UUID,
/// read as its 128-bit value. Nothing is promised of the value.
#[verifier::external_body]
fn random_u128() -> (r: u128) {
    uuid::Uuid::new_v4().as_u128()
}

/// A unique identifier for a value of kind `T`; the kind only keeps
/// identifiers of different kinds apart.
#[derive(Debug)]
pub struct Id<T> {
    pub id: u128,
    pub phantom: PhantomData<T>,
}

impl<T> Id<T> {
    /// An identifier with the given 128-bit value.
    pub fn from_u128(id: u128) -> (r: Self)
        ensures
            r.id == id,
    {
        Id { id, phantom: PhantomData }
    }

    /// Creates a new identifier from a random UUID.
    pub fn new() -> (r: Self) {
        Id { id: random_u128(), phantom: PhantomData }
    }
}

impl<T> Clone for Id<T> {
    fn clone(&self) -> (r: Self)
        ensures
            r == *self,
    {
        Id { id: self.id, phantom: PhantomData }
    }
}

impl<T> Copy for Id<T> {
}

impl<T> PartialEq for Id<T> {
    fn eq(&self, other: &Self) -> (r: bool) {
        self.id == other.id
    }
}

impl<T> vstd::std_specs::cmp::PartialEqSpecImpl for Id<T> {
    open spec fn obeys_eq_spec() -> bool {
        true
    }

    open spec fn eq_spec(&self, other: &Self) -> bool {
        self.id == other.id
    }
}

impl<T> Eq for Id<T> {
}

/// An entity: an identifier together with the value it names.
#[derive(Debug)]
pub struct Entity<T> {
    pub id: Id<T>,
    pub data: T,
}

} // verus!
