//! Task lists.
use crate::kernel::{Entity, Id};
use vstd::prelude::*;

verus! {

/// Represents a task list.
#[derive(Debug)]
pub struct List {
    pub title: String,
}

/// Operations on a list entity.
pub trait ListAggregateRoot: Sized {
    /// The title of the list.
    spec fn title_of(&self) -> Seq<char>;

    /// The identifier of the list.
    spec fn list_id(&self) -> u128;

    /// Renames the list with a new title.
    fn rename(&mut self, title: String)
        ensures
            final(self).title_of() == title@,
            final(self).list_id() == old(self).list_id(),
    ;

    /// Creates a new list with the given title.
    fn new(title: String) -> (r: Self)
        ensures
            r.title_of() == title@,
    ;
}

impl ListAggregateRoot for Entity<List> {
    open spec fn title_of(&self) -> Seq<char> {
        self.data.title@
    }

    open spec fn list_id(&self) -> u128 {
        self.id.id
    }

    fn rename(&mut self, title: String) {
        self.data.title = title;
    }

    fn new(title: String) -> (r: Self) {
        Entity { id: Id::new(), data: List { title } }
    }
}

} // verus!
