//! A schema-migration engine: a registry of migrations with dependencies,
//! a planner that linearises them, and the pure decisions of the executor.
pub mod error;
pub mod plan;
pub mod sql;
pub mod lock;
pub mod migration;
pub mod graph;
pub mod planner;
pub mod migrator;
pub mod laws;
pub mod executor;
