use sqlx_migrator::error::Error;
use sqlx_migrator::migration::{Migration, MigrationKey};
use sqlx_migrator::migrator::Migrator;
use sqlx_migrator::plan::{Plan, PlanType};

fn mig(app: &str, name: &str, parents: Vec<Migration>) -> Migration {
    Migration {
        app: app.to_string(),
        name: name.to_string(),
        parents,
        replaces: vec![],
        run_before: vec![],
        operation_count: 1,
        is_atomic: true,
    }
}

fn key(app: &str, name: &str) -> MigrationKey {
    MigrationKey { app: app.to_string(), name: name.to_string() }
}

fn names(m: &Migrator, plan: &[usize]) -> Vec<String> {
    plan.iter().map(|&i| m.migrations()[i].name.clone()).collect()
}

fn whole(ty: PlanType) -> Plan {
    Plan::new(ty, None, None).unwrap()
}

fn plan_names(m: &Migrator, plan: &Plan, rows: &[MigrationKey]) -> Result<Vec<String>, Error> {
    m.generate_migration_plan(plan, &rows.to_vec()).map(|p| names(m, &p))
}

fn chain() -> Migrator {
    let m1 = mig("main", "M1", vec![]);
    let m2 = mig("main", "M2", vec![m1]);
    let m3 = mig("main", "M3", vec![m2]);
    let mut m = Migrator::new();
    m.add_migration(&m3);
    m
}

#[test]
fn linear_chain_apply_then_revert() {
    let m = chain();
    assert_eq!(m.migrations().len(), 3);
    assert_eq!(plan_names(&m, &whole(PlanType::Apply), &[]).unwrap(), vec!["M1", "M2", "M3"]);
    let rows = vec![key("main", "M1"), key("main", "M2"), key("main", "M3")];
    assert_eq!(plan_names(&m, &whole(PlanType::Revert), &rows).unwrap(), vec!["M3", "M2", "M1"]);
    assert_eq!(plan_names(&m, &whole(PlanType::Apply), &rows).unwrap(), Vec::<String>::new());
}

#[test]
fn registering_twice_is_idempotent() {
    let mut m = chain();
    m.add_migration(&mig("main", "M2", vec![]));
    m.add_migration(&mig("main", "M1", vec![]));
    assert_eq!(m.migrations().len(), 3);
}

#[test]
fn diamond_orders_root_first_and_join_last() {
    let a = || mig("main", "A", vec![]);
    let b = mig("main", "B", vec![a()]);
    let c = mig("main", "C", vec![a()]);
    let d = mig("main", "D", vec![b, c]);
    let mut m = Migrator::new();
    m.add_migration(&d);
    let list = plan_names(&m, &whole(PlanType::All), &[]).unwrap();
    assert_eq!(list.len(), 4);
    assert_eq!(list[0], "A");
    assert_eq!(list[3], "D");
    assert_eq!(list, vec!["A", "B", "C", "D"]);
    let again = plan_names(&m, &whole(PlanType::All), &[]).unwrap();
    assert_eq!(list, again);
}

#[test]
fn run_before_is_a_backward_edge() {
    let x = mig("main", "X", vec![]);
    let mut y = mig("main", "Y", vec![]);
    y.run_before = vec![key("main", "X")];
    let mut m = Migrator::new();
    m.add_migration(&x);
    m.add_migration(&y);
    assert_eq!(plan_names(&m, &whole(PlanType::All), &[]).unwrap(), vec!["Y", "X"]);
}

#[test]
fn run_before_of_unregistered_target_is_ignored() {
    let mut y = mig("main", "Y", vec![]);
    y.run_before = vec![key("main", "Missing")];
    let mut m = Migrator::new();
    m.add_migration(&y);
    assert_eq!(plan_names(&m, &whole(PlanType::All), &[]).unwrap(), vec!["Y"]);
}

#[test]
fn cycle_via_mixed_edges_fails() {
    let p = mig("main", "P", vec![]);
    let mut q = mig("main", "Q", vec![p]);
    q.run_before = vec![key("main", "P")];
    let mut m = Migrator::new();
    m.add_migration(&q);
    for ty in [PlanType::All, PlanType::Apply, PlanType::Revert] {
        assert_eq!(plan_names(&m, &whole(ty), &[]), Err(Error::FailedToCreateMigrationPlan));
    }
}

fn replacement() -> Migrator {
    let r1 = mig("main", "R1", vec![]);
    let r2 = mig("main", "R2", vec![]);
    let mut s = mig("main", "S", vec![]);
    s.replaces = vec![r1, r2];
    let mut m = Migrator::new();
    m.add_migration(&s);
    m
}

#[test]
fn replacement_on_fresh_database_runs_replacer() {
    let m = replacement();
    assert_eq!(m.migrations().len(), 3);
    assert_eq!(plan_names(&m, &whole(PlanType::Apply), &[]).unwrap(), vec!["S"]);
}

#[test]
fn replacement_with_replaced_applied_skips_replacer() {
    let m = replacement();
    let rows = vec![key("main", "R1"), key("main", "R2")];
    assert_eq!(plan_names(&m, &whole(PlanType::Apply), &rows).unwrap(), Vec::<String>::new());
    let mut revert = plan_names(&m, &whole(PlanType::Revert), &rows).unwrap();
    revert.sort();
    assert_eq!(revert, vec!["R1", "R2"]);
}

#[test]
fn replacement_with_one_replaced_applied_keeps_the_other() {
    let m = replacement();
    let rows = vec![key("main", "R1")];
    assert_eq!(plan_names(&m, &whole(PlanType::Apply), &rows).unwrap(), vec!["R2"]);
}

#[test]
fn replacement_both_applied_conflicts() {
    let m = replacement();
    let rows = vec![key("main", "S"), key("main", "R1")];
    assert_eq!(plan_names(&m, &whole(PlanType::Apply), &rows), Err(Error::BothMigrationTypeApplied));
}

#[test]
fn targeted_apply() {
    let m = chain();
    let p = Plan::new(PlanType::Apply, Some("main".to_string()), Some("M2".to_string())).unwrap();
    assert_eq!(plan_names(&m, &p, &[]).unwrap(), vec!["M1", "M2"]);
    let p = Plan::new(PlanType::Apply, Some("main".to_string()), Some("M4".to_string())).unwrap();
    assert_eq!(
        plan_names(&m, &p, &[]),
        Err(Error::MigrationNameNotExists { app: "main".to_string(), migration: "M4".to_string() })
    );
    let p = Plan::new(PlanType::Apply, Some("other".to_string()), None).unwrap();
    assert_eq!(plan_names(&m, &p, &[]), Err(Error::AppNameNotExists { app: "other".to_string() }));
}

#[test]
fn targeted_by_app_takes_rightmost_match() {
    let base = mig("base", "B1", vec![]);
    let top = mig("main", "T1", vec![base]);
    let mut m = Migrator::new();
    m.add_migration(&top);
    let p = Plan::new(PlanType::All, Some("base".to_string()), None).unwrap();
    assert_eq!(plan_names(&m, &p, &[]).unwrap(), vec!["B1"]);
    let p = Plan::new(PlanType::All, Some("main".to_string()), None).unwrap();
    assert_eq!(plan_names(&m, &p, &[]).unwrap(), vec!["B1", "T1"]);
}

#[test]
fn targeted_revert_unwinds_through_target() {
    let m = chain();
    let rows = vec![key("main", "M1"), key("main", "M2"), key("main", "M3")];
    let p = Plan::new(PlanType::Revert, Some("main".to_string()), Some("M2".to_string())).unwrap();
    assert_eq!(plan_names(&m, &p, &rows).unwrap(), vec!["M3", "M2"]);
}

#[test]
fn targeted_apply_of_applied_target_is_empty_or_unknown() {
    let m = chain();
    let rows = vec![key("main", "M1"), key("main", "M2")];
    let p = Plan::new(PlanType::Apply, Some("main".to_string()), Some("M3".to_string())).unwrap();
    assert_eq!(plan_names(&m, &p, &rows).unwrap(), vec!["M3"]);
    let p = Plan::new(PlanType::Apply, Some("main".to_string()), Some("M1".to_string())).unwrap();
    assert_eq!(
        plan_names(&m, &p, &rows),
        Err(Error::MigrationNameNotExists { app: "main".to_string(), migration: "M1".to_string() })
    );
}

#[test]
fn plan_new_requires_app_for_migration() {
    assert_eq!(
        Plan::new(PlanType::Apply, None, Some("M1".to_string())).unwrap_err(),
        Error::AppNameRequired
    );
    let p = Plan::new(PlanType::Revert, Some("main".to_string()), None).unwrap();
    assert_eq!(p.plan_type, PlanType::Revert);
    assert_eq!(p.app, Some("main".to_string()));
    assert_eq!(p.migration, None);
}

#[test]
fn apply_on_fresh_equals_list() {
    let m = replacement();
    assert_eq!(
        plan_names(&m, &whole(PlanType::Apply), &[]),
        plan_names(&m, &whole(PlanType::All), &[])
    );
    let c = chain();
    assert_eq!(
        plan_names(&c, &whole(PlanType::Apply), &[]),
        plan_names(&c, &whole(PlanType::All), &[])
    );
}

#[test]
fn apply_with_everything_applied_is_empty() {
    let m = chain();
    let rows = vec![key("main", "M3"), key("main", "M1"), key("main", "M2"), key("x", "unknown")];
    assert_eq!(plan_names(&m, &whole(PlanType::Apply), &rows).unwrap(), Vec::<String>::new());
}

#[test]
fn revert_after_apply_all_is_reverse() {
    let a = || mig("main", "A", vec![]);
    let b = mig("main", "B", vec![a()]);
    let c = mig("main", "C", vec![a()]);
    let d = mig("main", "D", vec![b, c]);
    let mut m = Migrator::new();
    m.add_migration(&d);
    let apply = m.generate_migration_plan(&whole(PlanType::Apply), &vec![]).unwrap();
    let rows: Vec<MigrationKey> = apply
        .iter()
        .map(|&i| key(&m.migrations()[i].app, &m.migrations()[i].name))
        .collect();
    let mut revert = m.generate_migration_plan(&whole(PlanType::Revert), &rows).unwrap();
    revert.reverse();
    assert_eq!(revert, apply);
}

#[test]
fn apply_all_result_excludes_superseded() {
    let m = replacement();
    let rows = vec![key("main", "R1")];
    let plan = m.generate_migration_plan(&whole(PlanType::Apply), &rows).unwrap();
    let mut after: Vec<String> = names(&m, &plan);
    after.push("R1".to_string());
    after.sort();
    assert_eq!(after, vec!["R1", "R2"]);
}

#[test]
fn applied_flags_and_list() {
    let m = chain();
    let rows = vec![key("main", "M3"), key("main", "M1"), key("other", "M2")];
    assert_eq!(m.applied_flags(&rows), vec![true, false, true]);
    assert_eq!(names(&m, &m.list_applied_migrations(&rows)), vec!["M1", "M3"]);
}

#[test]
fn run_before_targets_are_not_registered() {
    let mut y = mig("main", "Y", vec![mig("main", "P", vec![])]);
    y.run_before = vec![key("main", "X")];
    let mut m = Migrator::new();
    m.add_migration(&y);
    let registered = names(&m, &[0, 1]);
    assert_eq!(registered, vec!["P", "Y"]);
    assert_eq!(m.migrations().len(), 2);
}

#[test]
fn registered_identity_is_not_visited_again() {
    let mut m = Migrator::new();
    m.add_migration(&mig("main", "M2", vec![]));
    let m3 = mig("main", "M3", vec![mig("main", "M2", vec![mig("main", "M1", vec![])])]);
    m.add_migration(&m3);
    let all: Vec<String> = m.migrations().iter().map(|n| n.name.clone()).collect();
    assert_eq!(all, vec!["M2", "M3"]);
    m.add_migration(&mig("main", "M3", vec![mig("main", "M9", vec![])]));
    assert_eq!(m.migrations().len(), 2);
}

#[test]
fn nested_declarations_are_recorded() {
    let m = chain();
    let nodes = m.migrations();
    let all: Vec<String> = nodes.iter().map(|n| n.name.clone()).collect();
    assert_eq!(all, vec!["M1", "M2", "M3"]);
    assert_eq!(nodes[1].parents, vec![0]);
    assert_eq!(nodes[2].parents, vec![1]);
}

#[test]
fn request_naming_migration_without_app_is_refused() {
    let m = chain();
    let p = Plan { plan_type: PlanType::Apply, app: None, migration: Some("M2".to_string()) };
    assert_eq!(plan_names(&m, &p, &[]), Err(Error::AppNameRequired));
}

#[test]
fn registered_node_records_its_declaration() {
    let m = replacement();
    let nodes = m.migrations();
    let s = nodes.iter().position(|n| n.name == "S").unwrap();
    let replaced: Vec<String> = nodes[s].replaces.iter().map(|&i| nodes[i].name.clone()).collect();
    assert_eq!(replaced, vec!["R1", "R2"]);
    assert_eq!(nodes[s].operation_count, 1);
    assert!(nodes[s].is_atomic);
}

#[test]
fn add_migrations_in_any_order_gives_same_identities() {
    let list = || vec![mig("main", "M1", vec![]), mig("main", "M2", vec![mig("main", "M1", vec![])])];
    let mut a = Migrator::new();
    a.add_migrations(&list());
    let mut reversed = list();
    reversed.reverse();
    let mut b = Migrator::new();
    b.add_migrations(&reversed);
    let mut ka: Vec<String> = a.migrations().iter().map(|n| n.name.clone()).collect();
    let mut kb: Vec<String> = b.migrations().iter().map(|n| n.name.clone()).collect();
    ka.sort();
    kb.sort();
    assert_eq!(ka, kb);
    assert_eq!(
        plan_names(&a, &whole(PlanType::Apply), &[]).unwrap(),
        plan_names(&b, &whole(PlanType::Apply), &[]).unwrap()
    );
}
