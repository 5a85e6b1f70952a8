use sqlx_migrator::error::Error;
use sqlx_migrator::executor::{
    apply_migration_steps, revert_migration_steps, run_start, run_step, RunAction, RunEvent,
    RunState, Step,
};
use sqlx_migrator::lock::{lock_id_from_checksum, postgres_lock_id};
use sqlx_migrator::migration::MigrationNode;
use sqlx_migrator::sql::{
    mysql_create_migrator_table, postgres_create_migrator_table, sqlite_create_migrator_table,
};

fn node(count: usize, atomic: bool) -> MigrationNode {
    MigrationNode {
        app: "main".to_string(),
        name: "m".to_string(),
        parents: vec![],
        replaces: vec![],
        run_before: vec![],
        operation_count: count,
        is_atomic: atomic,
    }
}

#[test]
fn lock_id_is_crc32_of_database_name() {
    assert_eq!(postgres_lock_id("postgres"), 359303029);
    assert_eq!(postgres_lock_id("app_db"), 625670741);
    assert_eq!(postgres_lock_id(""), 0);
    assert_eq!(lock_id_from_checksum(u32::MAX), 4294967295);
}

#[test]
fn create_table_statements() {
    for sql in [
        postgres_create_migrator_table(),
        sqlite_create_migrator_table(),
        mysql_create_migrator_table(),
    ] {
        assert!(sql.starts_with("CREATE TABLE IF NOT EXISTS _sqlx_migrator_migrations"));
        assert!(sql.contains("UNIQUE (app, name)"));
    }
    assert!(postgres_create_migrator_table().contains("TIMESTAMPTZ"));
    assert!(mysql_create_migrator_table().contains("VARCHAR(384)"));
    assert!(sqlite_create_migrator_table().contains("AUTOINCREMENT"));
}

#[test]
fn apply_steps_atomic_and_bare() {
    assert_eq!(
        apply_migration_steps(&node(2, true)),
        vec![Step::BeginTransaction, Step::Up(0), Step::Up(1), Step::InsertRow, Step::Commit]
    );
    assert_eq!(
        apply_migration_steps(&node(1, false)),
        vec![Step::AcquireConnection, Step::Up(0), Step::InsertRow]
    );
    assert_eq!(apply_migration_steps(&node(0, false)), vec![Step::AcquireConnection, Step::InsertRow]);
}

#[test]
fn revert_steps_run_operations_backwards() {
    assert_eq!(
        revert_migration_steps(&node(3, true)),
        vec![
            Step::BeginTransaction,
            Step::Down(2),
            Step::Down(1),
            Step::Down(0),
            Step::DeleteRow,
            Step::Commit
        ]
    );
    assert_eq!(
        revert_migration_steps(&node(2, false)),
        vec![Step::AcquireConnection, Step::Down(1), Step::Down(0), Step::DeleteRow]
    );
}

#[test]
fn run_applies_plan_in_order_under_lock() {
    let (s, a) = run_start();
    assert!(matches!(a, RunAction::Lock));
    let (s, a) = run_step(s, RunEvent::Succeeded);
    assert!(matches!(a, RunAction::GeneratePlan));
    let (s, a) = run_step(s, RunEvent::PlanReady { len: 2 });
    assert!(matches!(a, RunAction::Run { index: 0 }));
    let (s, a) = run_step(s, RunEvent::Succeeded);
    assert!(matches!(a, RunAction::Run { index: 1 }));
    let (s, a) = run_step(s, RunEvent::Succeeded);
    assert!(matches!(a, RunAction::Unlock));
    let (s, a) = run_step(s, RunEvent::Succeeded);
    assert!(matches!(a, RunAction::Return { result: Ok(()) }));
    let (_, a) = run_step(s, RunEvent::Succeeded);
    assert!(matches!(a, RunAction::Idle));
}

#[test]
fn run_failure_releases_lock_and_keeps_error() {
    let (s, _) = run_step(RunState::Planning, RunEvent::PlanReady { len: 3 });
    let (s, a) = run_step(
        s,
        RunEvent::Failed { error: Error::DatabaseFailure { message: "boom".to_string() } },
    );
    assert!(matches!(a, RunAction::Unlock));
    let (s, a) = run_step(
        s,
        RunEvent::Failed { error: Error::DatabaseFailure { message: "unlock".to_string() } },
    );
    assert!(matches!(s, RunState::Finished));
    match a {
        RunAction::Return { result: Err(Error::DatabaseFailure { message }) } => {
            assert_eq!(message, "boom")
        }
        other => panic!("unexpected {:?}", other),
    }
}

#[test]
fn run_plan_failure_does_no_migration() {
    let (s, a) = run_step(
        RunState::Planning,
        RunEvent::Failed { error: Error::FailedToCreateMigrationPlan },
    );
    assert!(matches!(a, RunAction::Unlock));
    let (_, a) = run_step(s, RunEvent::Succeeded);
    assert!(matches!(
        a,
        RunAction::Return { result: Err(Error::FailedToCreateMigrationPlan) }
    ));
}

#[test]
fn run_empty_plan_and_lock_failure() {
    let (_, a) = run_step(RunState::Planning, RunEvent::PlanReady { len: 0 });
    assert!(matches!(a, RunAction::Unlock));
    let (s, a) = run_step(
        RunState::Locking,
        RunEvent::Failed { error: Error::DatabaseFailure { message: "no".to_string() } },
    );
    assert!(matches!(s, RunState::Finished));
    assert!(matches!(a, RunAction::Return { result: Err(Error::DatabaseFailure { .. }) }));
}
