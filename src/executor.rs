//! Decisions of the executor. The steps that touch the database are
//! performed by the caller, which reports back how each one went.
use vstd::prelude::*;

use crate::error::Error;
use crate::migration::MigrationNode;

verus! {

/// One database step of applying or reverting a single migration.
#[derive(Debug, Clone, Copy, PartialEq, Eq, Structural)]
pub enum Step {
    /// Begin a transaction on the pool.
    BeginTransaction,
    /// Take a bare connection from the pool.
    AcquireConnection,
    /// Run the apply side of the operation at this index.
    Up(usize),
    /// Run the revert side of the operation at this index.
    Down(usize),
    /// Insert the migration's tracking row.
    InsertRow,
    /// Delete the migration's tracking row.
    DeleteRow,
    /// Commit the transaction.
    Commit,
}

/// Steps that apply a migration: its operations in order, then its
/// tracking row, all inside one transaction when atomic.
pub open spec fn apply_script(count: nat, atomic: bool) -> Seq<Step> {
    let ops = Seq::new(count, |i: int| Step::Up(i as usize));
    if atomic {
        seq![Step::BeginTransaction] + ops + seq![Step::InsertRow, Step::Commit]
    } else {
        seq![Step::AcquireConnection] + ops + seq![Step::InsertRow]
    }
}

/// Steps that revert a migration: its operations in reverse order, then
/// the removal of its tracking row, all inside one transaction when atomic.
pub open spec fn revert_script(count: nat, atomic: bool) -> Seq<Step> {
    let ops = Seq::new(count, |i: int| Step::Down((count - 1 - i) as usize));
    if atomic {
        seq![Step::BeginTransaction] + ops + seq![Step::DeleteRow, Step::Commit]
    } else {
        seq![Step::AcquireConnection] + ops + seq![Step::DeleteRow]
    }
}

/// The steps that apply one migration.
pub fn apply_migration_steps(migration: &MigrationNode) -> (r: Vec<Step>)
    ensures
        r@ == apply_script(migration.operation_count as nat, migration.is_atomic),
{
    let n = migration.operation_count;
    let mut r: Vec<Step> = Vec::new();
    if migration.is_atomic {
        r.push(Step::BeginTransaction);
    } else {
        r.push(Step::AcquireConnection);
    }
    let mut i: usize = 0;
    while i < n
        invariant
            i <= n,
            r@.len() == i + 1,
            r@[0] == (if migration.is_atomic { Step::BeginTransaction } else { Step::AcquireConnection }),
            forall|k: int| 0 <= k < i ==> #[trigger] r@[k + 1] == Step::Up(k as usize),
        decreases n - i,
    {
        r.push(Step::Up(i));
        i += 1;
    }
    r.push(Step::InsertRow);
    if migration.is_atomic {
        r.push(Step::Commit);
    }
    let ghost first = if migration.is_atomic { Step::BeginTransaction } else { Step::AcquireConnection };
    let ghost ops = Seq::new(n as nat, |i: int| Step::Up(i as usize));
    let ghost tail = if migration.is_atomic { seq![Step::InsertRow, Step::Commit] } else { seq![Step::InsertRow] };
    assert(apply_script(n as nat, migration.is_atomic) == seq![first] + ops + tail);
    assert forall|k: int| 0 <= k < r@.len() implies #[trigger] r@[k] == (seq![first] + ops + tail)[k] by {
        if 1 <= k <= n {
            assert(r@[(k - 1) + 1] == Step::Up((k - 1) as usize));
        }
    }
    assert(r@ =~= apply_script(n as nat, migration.is_atomic));
    r
}

/// The steps that revert one migration.
pub fn revert_migration_steps(migration: &MigrationNode) -> (r: Vec<Step>)
    ensures
        r@ == revert_script(migration.operation_count as nat, migration.is_atomic),
{
    let n = migration.operation_count;
    let mut r: Vec<Step> = Vec::new();
    if migration.is_atomic {
        r.push(Step::BeginTransaction);
    } else {
        r.push(Step::AcquireConnection);
    }
    let mut i: usize = n;
    while i > 0
        invariant
            i <= n,
            r@.len() == n - i + 1,
            r@[0] == (if migration.is_atomic { Step::BeginTransaction } else { Step::AcquireConnection }),
            forall|k: int| 0 <= k < n - i ==> #[trigger] r@[k + 1] == Step::Down((n - 1 - k) as usize),
        decreases i,
    {
        r.push(Step::Down(i - 1));
        i -= 1;
    }
    r.push(Step::DeleteRow);
    if migration.is_atomic {
        r.push(Step::Commit);
    }
    let ghost first = if migration.is_atomic { Step::BeginTransaction } else { Step::AcquireConnection };
    let ghost ops = Seq::new(n as nat, |i: int| Step::Down((n - 1 - i) as usize));
    let ghost tail = if migration.is_atomic { seq![Step::DeleteRow, Step::Commit] } else { seq![Step::DeleteRow] };
    assert(revert_script(n as nat, migration.is_atomic) == seq![first] + ops + tail);
    assert forall|k: int| 0 <= k < r@.len() implies #[trigger] r@[k] == (seq![first] + ops + tail)[k] by {
        if 1 <= k <= n {
            assert(r@[(k - 1) + 1] == Step::Down((n - 1 - (k - 1)) as usize));
        }
    }
    assert(r@ =~= revert_script(n as nat, migration.is_atomic));
    r
}

/// Where an apply-all or revert-all run stands.
#[derive(Debug)]
pub enum RunState {
    /// Waiting for the cross-process lock.
    Locking,
    /// Lock held; waiting for the plan.
    Planning,
    /// Lock held; the plan entry at `next` of `total` is being run.
    Running { next: usize, total: usize },
    /// Releasing the lock; `failure` is the error to surface afterwards.
    Unlocking { failure: Option<Error> },
    /// The run is over.
    Finished,
}

/// What the caller reports after performing an action.
#[derive(Debug)]
pub enum RunEvent {
    /// The action succeeded.
    Succeeded,
    /// The plan was generated and has `len` entries.
    PlanReady { len: usize },
    /// The action failed.
    Failed { error: Error },
}

/// What the caller must do next.
#[derive(Debug)]
pub enum RunAction {
    /// Acquire the cross-process lock.
    Lock,
    /// Read the applied migrations and generate the plan.
    GeneratePlan,
    /// Apply (or revert) the plan entry at `index`.
    Run { index: usize },
    /// Release the lock.
    Unlock,
    /// Return `result` to the caller of the run.
    Return { result: Result<(), Error> },
    /// Nothing is left to do.
    Idle,
}

/// The first action of a run.
pub fn run_start() -> (r: (RunState, RunAction))
    ensures
        r == (RunState::Locking, RunAction::Lock),
{
    (RunState::Locking, RunAction::Lock)
}

/// The transition of a run: migrations run strictly in plan order and only
/// while the lock is held; every failure after the lock is taken releases
/// the lock before the error is returned, and a failed release does not
/// mask an earlier error.
pub open spec fn run_transition(state: RunState, event: RunEvent) -> (RunState, RunAction) {
    match (state, event) {
        (RunState::Locking, RunEvent::Failed { error }) => (
            RunState::Finished,
            RunAction::Return { result: Err(error) },
        ),
        (RunState::Locking, _) => (RunState::Planning, RunAction::GeneratePlan),
        (RunState::Planning, RunEvent::Failed { error }) => (
            RunState::Unlocking { failure: Some(error) },
            RunAction::Unlock,
        ),
        (RunState::Planning, RunEvent::PlanReady { len }) => if len == 0 {
            (RunState::Unlocking { failure: None }, RunAction::Unlock)
        } else {
            (RunState::Running { next: 0, total: len }, RunAction::Run { index: 0 })
        },
        (RunState::Planning, RunEvent::Succeeded) => (
            RunState::Unlocking { failure: None },
            RunAction::Unlock,
        ),
        (RunState::Running { next, total }, RunEvent::Failed { error }) => (
            RunState::Unlocking { failure: Some(error) },
            RunAction::Unlock,
        ),
        (RunState::Running { next, total }, _) => if next + 1 < total {
            (
                RunState::Running { next: (next + 1) as usize, total },
                RunAction::Run { index: (next + 1) as usize },
            )
        } else {
            (RunState::Unlocking { failure: None }, RunAction::Unlock)
        },
        (RunState::Unlocking { failure: Some(e) }, _) => (
            RunState::Finished,
            RunAction::Return { result: Err(e) },
        ),
        (RunState::Unlocking { failure: None }, RunEvent::Failed { error }) => (
            RunState::Finished,
            RunAction::Return { result: Err(error) },
        ),
        (RunState::Unlocking { failure: None }, _) => (
            RunState::Finished,
            RunAction::Return { result: Ok(()) },
        ),
        (RunState::Finished, _) => (RunState::Finished, RunAction::Idle),
    }
}

/// The lock is held in this state.
pub open spec fn holds_lock(state: RunState) -> bool {
    state is Planning || state is Running || state is Unlocking
}

/// A run only asks for a migration to run while it holds the lock, and
/// only from a planned state; a failed plan asks for the lock to be
/// released and runs no migration; the lock is only taken from the start.
pub proof fn lemma_runs_only_under_lock(state: RunState, event: RunEvent)
    ensures
        run_transition(state, event).1 is Run ==> holds_lock(state) && !(state is Unlocking)
            && run_transition(state, event).0 is Running,
        holds_lock(run_transition(state, event).0) ==> holds_lock(state) || (state is Locking
            && !(event is Failed)),
        state is Planning && event is Failed ==> run_transition(state, event).1 is Unlock,
        state is Unlocking ==> run_transition(state, event).0 is Finished,
{
}

/// The next state and action of a run, given the outcome of the last action.
pub fn run_step(state: RunState, event: RunEvent) -> (r: (RunState, RunAction))
    ensures
        r == run_transition(state, event),
{
    match state {
        RunState::Locking => match event {
            RunEvent::Failed { error } => (RunState::Finished, RunAction::Return { result: Err(error) }),
            _ => (RunState::Planning, RunAction::GeneratePlan),
        },
        RunState::Planning => match event {
            RunEvent::Failed { error } => (
                RunState::Unlocking { failure: Some(error) },
                RunAction::Unlock,
            ),
            RunEvent::PlanReady { len } => {
                if len == 0 {
                    (RunState::Unlocking { failure: None }, RunAction::Unlock)
                } else {
                    (RunState::Running { next: 0, total: len }, RunAction::Run { index: 0 })
                }
            },
            RunEvent::Succeeded => (RunState::Unlocking { failure: None }, RunAction::Unlock),
        },
        RunState::Running { next, total } => match event {
            RunEvent::Failed { error } => (
                RunState::Unlocking { failure: Some(error) },
                RunAction::Unlock,
            ),
            _ => {
                if total > 0 && next < total - 1 {
                    (RunState::Running { next: next + 1, total }, RunAction::Run { index: next + 1 })
                } else {
                    (RunState::Unlocking { failure: None }, RunAction::Unlock)
                }
            },
        },
        RunState::Unlocking { failure } => match failure {
            Some(e) => (RunState::Finished, RunAction::Return { result: Err(e) }),
            None => match event {
                RunEvent::Failed { error } => (
                    RunState::Finished,
                    RunAction::Return { result: Err(error) },
                ),
                _ => (RunState::Finished, RunAction::Return { result: Ok(()) }),
            },
        },
        RunState::Finished => (RunState::Finished, RunAction::Idle),
    }
}

} // verus!
