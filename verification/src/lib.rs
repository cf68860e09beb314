//! Bounded-concurrency traversal of a delimiter-grouped object store.
//!
//! A remote listing call answers, for one prefix, with the sub-prefixes
//! directly below it, the objects directly below it, and a cursor when the
//! answer was cut short. This crate holds the decisions of a crawler over such
//! a store: which listing to issue next, what a finished listing adds to the
//! pending work and to the output, when the traversal is over, and when it has
//! failed. The remote calls themselves are made by the caller, who reports each
//! outcome back.

pub mod guarantees;
pub mod model;
pub mod namespace;
pub mod queue;
pub mod requests;
pub mod scheduler;
pub mod sink;
pub mod state;
pub mod traversal;
pub mod walker;
