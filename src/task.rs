//! Tasks.
use crate::kernel::{Entity, Id};
use crate::list::List;
use vstd::prelude::*;

verus! {

/// Represents a task.
#[derive(Debug)]
pub struct Task {
    pub name: String,
    pub list: Id<List>,
}

/// Operations on a task entity.
pub trait TaskAggregateRoot: Sized {
    /// The name of the task.
    spec fn name_of(&self) -> Seq<char>;

    /// The identifier of the list the task belongs to.
    spec fn list_of(&self) -> u128;

    /// The identifier of the task.
    spec fn task_id(&self) -> u128;

    /// Renames the task with a new name.
    fn rename(&mut self, name: String)
        ensures
            final(self).name_of() == name@,
            final(self).list_of() == old(self).list_of(),
            final(self).task_id() == old(self).task_id(),
    ;

    /// Creates a new task with the given name and list.
    fn new(name: String, list: Id<List>) -> (r: Self)
        ensures
            r.name_of() == name@,
            r.list_of() == list.id,
    ;

    /// Moves the task to another list.
    fn categorize_to(&mut self, list: Id<List>)
        ensures
            final(self).list_of() == list.id,
            final(self).name_of() == old(self).name_of(),
            final(self).task_id() == old(self).task_id(),
    ;
}

impl TaskAggregateRoot for Entity<Task> {
    open spec fn name_of(&self) -> Seq<char> {
        self.data.name@
    }

    open spec fn list_of(&self) -> u128 {
        self.data.list.id
    }

    open spec fn task_id(&self) -> u128 {
        self.id.id
    }

    fn rename(&mut self, name: String) {
        self.data.name = name;
    }

    fn new(name: String, list: Id<List>) -> (r: Self) {
        Entity { id: Id::new(), data: Task { name, list } }
    }

    fn categorize_to(&mut self, list: Id<List>) {
        self.data.list = list;
    }
}

} // verus!
