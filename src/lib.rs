//! Schema bookkeeping for a small record-keeping service: model descriptors
//! and their registry, migrations and their apply order, a migration runner
//! over an in-memory store, and a generic record façade driven by descriptors.

pub mod error;
pub mod model;
pub mod registry;
pub mod migration;
pub mod plan;
pub mod schema;
pub mod runner;
pub mod crud;
pub mod meter;
