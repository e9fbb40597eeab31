//! The errors of the task domain.
use crate::kernel::Id;
use crate::net::{Net, Status};
use crate::task::Task;
use vstd::prelude::*;

verus! {

/// Represents errors that can occur in the task domain.
#[derive(Debug, PartialEq)]
pub enum TaskDomainError {
    /// A status was not found in a net.
    StatusNotFoundInNet { net: Id<Net>, status: Id<Status> },
    /// A task was not found in a net.
    TaskNotFoundInNet { net: Id<Net>, task: Id<Task> },
    /// A relation was not found in a net.
    RelationNotFoundInNet { net: Id<Net>, from: Id<Task>, to: Id<Task> },
    /// The relations of a task forbid the change asked for.
    RelationConstraintNotSatisfied { net: Id<Net>, task: Id<Task> },
    /// A task is already in a net.
    TaskAlreadyInNet { task: Id<Task>, net: Id<Net> },
    /// A status is the default or the accepted status of a net and cannot be removed.
    StatusNotRemovable { net: Id<Net>, status: Id<Status> },
    /// The change would close a cycle of relations in a net.
    CycleNotAllowedInNet(Id<Net>),
}

} // verus!
