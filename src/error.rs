//! Errors surfaced by planning and execution.
use vstd::prelude::*;

verus! {

/// The error kinds of the migration engine.
#[derive(Debug, Clone, PartialEq, Eq)]
pub enum Error {
    /// A plan request named a migration but no app.
    AppNameRequired,
    /// The requested app has no migration in the plan.
    AppNameNotExists { app: String },
    /// The requested migration of an existing app is not in the plan.
    MigrationNameNotExists { app: String, migration: String },
    /// The precedence relation has a cycle: no linear order exists.
    FailedToCreateMigrationPlan,
    /// A replacing migration and one of the migrations it replaces are both applied.
    BothMigrationTypeApplied,
    /// The database driver reported a failure.
    DatabaseFailure { message: String },
    /// A configuration value could not be read or converted.
    FailedToGetEnv { name: String },
}

} // verus!
