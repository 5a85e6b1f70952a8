//! Plan requests: which kind of plan, optionally truncated at a target.
use vstd::prelude::*;

use crate::error::Error;

verus! {

/// Type of plan which needs to be generated.
#[derive(Debug, Clone, Copy, PartialEq, Eq, Structural)]
pub enum PlanType {
    /// Every migration in chronological order.
    All,
    /// Migrations which can be applied.
    Apply,
    /// Migrations which can be reverted, most recent first.
    Revert,
}

/// A validated plan request: a plan type and an optional target.
#[derive(Debug, Clone)]
pub struct Plan {
    pub plan_type: PlanType,
    pub app: Option<String>,
    pub migration: Option<String>,
}

impl Plan {
    /// A plan request names a migration only together with its app.
    pub open spec fn wf(&self) -> bool {
        self.migration.is_some() ==> self.app.is_some()
    }

    /// Create a new plan from a plan type, app name and migration name.
    /// Fails exactly when a migration is named without an app.
    pub fn new(plan_type: PlanType, app: Option<String>, migration: Option<String>) -> (r: Result<
        Self,
        Error,
    >)
        ensures
            migration.is_some() && app.is_none() ==> r == Err::<Plan, Error>(
                Error::AppNameRequired,
            ),
            !(migration.is_some() && app.is_none()) ==> r == Ok::<Plan, Error>(
                (Plan { plan_type, app, migration }),
            ),
    {
        if migration.is_some() && app.is_none() {
            return Err(Error::AppNameRequired);
        }
        Ok(Plan { plan_type, app, migration })
    }
}

} // verus!
