//! An entity-component-system runtime whose logic is verified with Verus.
//!
//! - `registry`: dense type ids, assigned in sorted name order.
//! - `world`: entities with one optional slot per component type, resources, and the query
//!   that merges component columns.
//! - `query`: the sorted multi-way merge join.
//! - `access` and `declare`: the read and write footprint of a system, and how it is
//!   declared.
//! - `scheduler`: the first-fit grouping of systems into groups that can run in parallel.
//! - `app`: the tick loop, as a state machine that says which stage runs next.
//! - `component`: the traits that typed component and resource values implement.

pub mod access;
pub mod app;
pub mod component;
pub mod declare;
pub mod query;
pub mod registry;
pub mod scheduler;
pub mod world;
