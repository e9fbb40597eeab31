//! A network of tasks joined by typed relations, whose task statuses are kept
//! consistent with the relations by an acceptance propagator.
pub mod error;
pub mod kernel;
pub mod list;
pub mod net;
pub mod relations;
pub mod task;
