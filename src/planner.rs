//! Plan generation: linearisation, replacement resolution, the filter of
//! the plan type, and truncation at a requested target.
use vstd::prelude::*;

use crate::error::Error;
use crate::graph::{linearization, linearize, lemma_linearization_valid, valid_order};
use crate::migration::{MigrationNode, registry_wf, contains_index, str_eq};
use crate::plan::{Plan, PlanType};

verus! {

/// Some migration replaced by `m` is applied.
pub open spec fn replaced_applied(g: Seq<MigrationNode>, applied: Seq<bool>, m: int) -> bool {
    exists|t: int| 0 <= t < g[m].replaces@.len() && applied[#[trigger] g[m].replaces@[t] as int]
}

/// `x` leaves the plan through replacement: it replaces an applied
/// migration, or a replacer of it has none of its replaced migrations applied.
pub open spec fn superseded(g: Seq<MigrationNode>, applied: Seq<bool>, x: int) -> bool {
    replaced_applied(g, applied, x) || exists|m: int|
        0 <= m < g.len() && #[trigger] g[m].replaces@.contains(x as usize) && !replaced_applied(
            g,
            applied,
            m,
        )
}

/// A replacer and one of the migrations it replaces are both applied.
pub open spec fn conflict(g: Seq<MigrationNode>, applied: Seq<bool>) -> bool {
    exists|m: int| 0 <= m < g.len() && applied[m] && #[trigger] replaced_applied(g, applied, m)
}

/// Whether a plan type keeps a migration with the given applied state.
pub open spec fn wanted(ty: PlanType, is_applied: bool) -> bool {
    match ty {
        PlanType::All => true,
        PlanType::Apply => !is_applied,
        PlanType::Revert => is_applied,
    }
}

/// `x` stays in a plan of type `ty`.
pub open spec fn selected(g: Seq<MigrationNode>, applied: Seq<bool>, ty: PlanType, x: int) -> bool {
    !superseded(g, applied, x) && wanted(ty, applied[x])
}

/// The elements of `s` that stay in a plan of type `ty`, in order.
pub open spec fn select(g: Seq<MigrationNode>, applied: Seq<bool>, ty: PlanType, s: Seq<usize>) -> Seq<usize>
    decreases s.len(),
{
    if s.len() == 0 {
        s
    } else {
        let r = select(g, applied, ty, s.drop_last());
        if selected(g, applied, ty, s.last() as int) {
            r.push(s.last())
        } else {
            r
        }
    }
}

/// Revert plans run most recent first.
pub open spec fn arrange(ty: PlanType, s: Seq<usize>) -> Seq<usize> {
    if ty == PlanType::Revert {
        s.reverse()
    } else {
        s
    }
}

/// The migration at position `x` is in the requested app and, when a name
/// is requested, has that name.
pub open spec fn target_matches(g: Seq<MigrationNode>, x: usize, app: String, name: Option<String>) -> bool {
    &&& g[x as int].app@ == app@
    &&& (name matches Some(nm) ==> g[x as int].name@ == nm@)
}

/// Index of the rightmost element of `s` matching the target, or -1.
pub open spec fn last_target(g: Seq<MigrationNode>, s: Seq<usize>, app: String, name: Option<String>) -> int
    decreases s.len(),
{
    if s.len() == 0 {
        -1
    } else if target_matches(g, s.last(), app, name) {
        s.len() - 1
    } else {
        last_target(g, s.drop_last(), app, name)
    }
}

/// Some element of `s` belongs to the app.
pub open spec fn app_present(g: Seq<MigrationNode>, s: Seq<usize>, app: String) -> bool {
    exists|j: int| 0 <= j < s.len() && g[#[trigger] s[j] as int].app@ == app@
}

/// Truncation of a plan after its rightmost element matching the target.
pub open spec fn truncate(g: Seq<MigrationNode>, s: Seq<usize>, app: Option<String>, name: Option<String>) -> Result<Seq<usize>, Error> {
    match app {
        None => Ok(s),
        Some(a) => {
            let k = last_target(g, s, a, name);
            if k >= 0 {
                Ok(s.subrange(0, k + 1))
            } else if name is Some && app_present(g, s, a) {
                Err(Error::MigrationNameNotExists { app: a, migration: name->Some_0 })
            } else {
                Err(Error::AppNameNotExists { app: a })
            }
        },
    }
}

/// The plan for a request, given which registry positions are applied. A
/// request that names a migration without its app is refused first.
pub open spec fn plan_of(g: Seq<MigrationNode>, applied: Seq<bool>, plan: Plan) -> Result<Seq<usize>, Error> {
    if !plan.wf() {
        Err(Error::AppNameRequired)
    } else {
        match linearization(g) {
        None => Err(Error::FailedToCreateMigrationPlan),
        Some(lin) => if conflict(g, applied) {
            Err(Error::BothMigrationTypeApplied)
        } else {
            truncate(
                g,
                arrange(plan.plan_type, select(g, applied, plan.plan_type, lin)),
                plan.app,
                plan.migration,
            )
        },
        }
    }
}

/// The view of a plan result.
pub open spec fn result_view(r: Result<Vec<usize>, Error>) -> Result<Seq<usize>, Error> {
    match r {
        Ok(v) => Ok(v@),
        Err(e) => Err(e),
    }
}

fn replaced_applied_flags(g: &Vec<MigrationNode>, applied: &Vec<bool>) -> (r: Vec<bool>)
    requires
        registry_wf(g@),
        applied@.len() == g@.len(),
    ensures
        r@.len() == g@.len(),
        forall|m: int| 0 <= m < g@.len() ==> #[trigger] r@[m] == replaced_applied(g@, applied@, m),
{
    let mut r: Vec<bool> = Vec::new();
    let mut m: usize = 0;
    while m < g.len()
        invariant
            registry_wf(g@),
            applied@.len() == g@.len(),
            m <= g@.len(),
            r@.len() == m,
            forall|u: int| 0 <= u < m ==> #[trigger] r@[u] == replaced_applied(g@, applied@, u),
        decreases g.len() - m,
    {
        let node = &g[m];
        let mut found = false;
        let mut t: usize = 0;
        while t < node.replaces.len()
            invariant
                registry_wf(g@),
                applied@.len() == g@.len(),
                m < g@.len(),
                *node == g@[m as int],
                t <= node.replaces@.len(),
                found == exists|u: int| 0 <= u < t && applied@[#[trigger] node.replaces@[u] as int],
            decreases node.replaces.len() - t,
        {
            let x = node.replaces[t];
            assert(x < g@.len());
            if applied[x] {
                found = true;
            }
            t += 1;
        }
        r.push(found);
        m += 1;
    }
    r
}

fn superseded_flags(g: &Vec<MigrationNode>, applied: &Vec<bool>, ra: &Vec<bool>) -> (r: Vec<bool>)
    requires
        registry_wf(g@),
        applied@.len() == g@.len(),
        ra@.len() == g@.len(),
        forall|m: int| 0 <= m < g@.len() ==> #[trigger] ra@[m] == replaced_applied(g@, applied@, m),
    ensures
        r@.len() == g@.len(),
        forall|x: int| 0 <= x < g@.len() ==> #[trigger] r@[x] == superseded(g@, applied@, x),
{
    let mut r: Vec<bool> = Vec::new();
    let mut x: usize = 0;
    while x < g.len()
        invariant
            registry_wf(g@),
            applied@.len() == g@.len(),
            ra@.len() == g@.len(),
            forall|m: int| 0 <= m < g@.len() ==> #[trigger] ra@[m] == replaced_applied(g@, applied@, m),
            x <= g@.len(),
            r@.len() == x,
            forall|u: int| 0 <= u < x ==> #[trigger] r@[u] == superseded(g@, applied@, u),
        decreases g.len() - x,
    {
        let mut gone = ra[x];
        let mut m: usize = 0;
        while m < g.len()
            invariant
                registry_wf(g@),
                applied@.len() == g@.len(),
                ra@.len() == g@.len(),
                forall|m: int| 0 <= m < g@.len() ==> #[trigger] ra@[m] == replaced_applied(g@, applied@, m),
                x < g@.len(),
                m <= g@.len(),
                gone == (replaced_applied(g@, applied@, x as int) || exists|v: int|
                    0 <= v < m && #[trigger] g@[v].replaces@.contains(x) && !replaced_applied(
                        g@,
                        applied@,
                        v,
                    )),
            decreases g.len() - m,
        {
            if !ra[m] && contains_index(&g[m].replaces, x) {
                gone = true;
            }
            m += 1;
        }
        assert(gone == superseded(g@, applied@, x as int)) by {
            if superseded(g@, applied@, x as int) && !replaced_applied(g@, applied@, x as int) {
                let v = choose|v: int|
                    0 <= v < g@.len() && #[trigger] g@[v].replaces@.contains((x as int) as usize)
                        && !replaced_applied(g@, applied@, v);
                assert(g@[v].replaces@.contains(x));
            }
            if gone && !replaced_applied(g@, applied@, x as int) {
                let v = choose|v: int|
                    0 <= v < g@.len() && #[trigger] g@[v].replaces@.contains(x) && !replaced_applied(
                        g@,
                        applied@,
                        v,
                    );
                assert(g@[v].replaces@.contains((x as int) as usize));
            }
        }
        r.push(gone);
        x += 1;
    }
    r
}

fn has_conflict(g: &Vec<MigrationNode>, applied: &Vec<bool>, ra: &Vec<bool>) -> (r: bool)
    requires
        applied@.len() == g@.len(),
        ra@.len() == g@.len(),
        forall|m: int| 0 <= m < g@.len() ==> #[trigger] ra@[m] == replaced_applied(g@, applied@, m),
    ensures
        r == conflict(g@, applied@),
{
    let mut m: usize = 0;
    while m < g.len()
        invariant
            applied@.len() == g@.len(),
            ra@.len() == g@.len(),
            forall|m: int| 0 <= m < g@.len() ==> #[trigger] ra@[m] == replaced_applied(g@, applied@, m),
            m <= g@.len(),
            forall|u: int| 0 <= u < m ==> !(applied@[u] && #[trigger] replaced_applied(g@, applied@, u)),
        decreases g.len() - m,
    {
        if applied[m] && ra[m] {
            return true;
        }
        m += 1;
    }
    false
}

fn is_wanted(ty: PlanType, is_applied: bool) -> (r: bool)
    ensures
        r == wanted(ty, is_applied),
{
    match ty {
        PlanType::All => true,
        PlanType::Apply => !is_applied,
        PlanType::Revert => is_applied,
    }
}

fn select_plan(
    g: &Vec<MigrationNode>,
    applied: &Vec<bool>,
    ty: PlanType,
    lin: &Vec<usize>,
    sup: &Vec<bool>,
) -> (r: Vec<usize>)
    requires
        applied@.len() == g@.len(),
        sup@.len() == g@.len(),
        forall|x: int| 0 <= x < g@.len() ==> #[trigger] sup@[x] == superseded(g@, applied@, x),
        forall|k: int| 0 <= k < lin@.len() ==> #[trigger] lin@[k] < g@.len(),
    ensures
        r@ == select(g@, applied@, ty, lin@),
{
    let mut r: Vec<usize> = Vec::new();
    let mut i: usize = 0;
    while i < lin.len()
        invariant
            applied@.len() == g@.len(),
            sup@.len() == g@.len(),
            forall|x: int| 0 <= x < g@.len() ==> #[trigger] sup@[x] == superseded(g@, applied@, x),
            forall|k: int| 0 <= k < lin@.len() ==> #[trigger] lin@[k] < g@.len(),
            i <= lin@.len(),
            r@ == select(g@, applied@, ty, lin@.subrange(0, i as int)),
        decreases lin.len() - i,
    {
        let x = lin[i];
        assert(lin@.subrange(0, i + 1).drop_last() =~= lin@.subrange(0, i as int));
        if !sup[x] && is_wanted(ty, applied[x]) {
            r.push(x);
        }
        i += 1;
    }
    assert(lin@.subrange(0, lin@.len() as int) =~= lin@);
    r
}

fn reversed(v: Vec<usize>) -> (r: Vec<usize>)
    ensures
        r@ == v@.reverse(),
{
    let mut r: Vec<usize> = Vec::new();
    let mut i: usize = v.len();
    while i > 0
        invariant
            i <= v@.len(),
            r@.len() == v@.len() - i,
            forall|k: int| 0 <= k < r@.len() ==> #[trigger] r@[k] == v@[v@.len() - 1 - k],
        decreases i,
    {
        r.push(v[i - 1]);
        i -= 1;
    }
    assert(r@ =~= v@.reverse());
    r
}

fn arranged(ty: PlanType, v: Vec<usize>) -> (r: Vec<usize>)
    ensures
        r@ == arrange(ty, v@),
{
    match ty {
        PlanType::Revert => reversed(v),
        _ => v,
    }
}

fn matches_target(node: &MigrationNode, app: &String, name: &Option<String>) -> (r: bool)
    ensures
        r == (node.app@ == app@ && (name matches Some(nm) ==> node.name@ == nm@)),
{
    if !str_eq(&node.app, app) {
        return false;
    }
    match name {
        Some(nm) => str_eq(&node.name, nm),
        None => true,
    }
}

fn prefix(s: &Vec<usize>, len: usize) -> (r: Vec<usize>)
    requires
        len <= s@.len(),
    ensures
        r@ == s@.subrange(0, len as int),
{
    let mut r: Vec<usize> = Vec::new();
    let mut i: usize = 0;
    while i < len
        invariant
            len <= s@.len(),
            i <= len,
            r@ == s@.subrange(0, i as int),
        decreases len - i,
    {
        r.push(s[i]);
        assert(s@.subrange(0, i + 1) =~= s@.subrange(0, i as int).push(s@[i as int]));
        i += 1;
    }
    r
}

fn truncate_plan(g: &Vec<MigrationNode>, s: Vec<usize>, app: &Option<String>, name: &Option<String>) -> (r: Result<
    Vec<usize>,
    Error,
>)
    requires
        forall|k: int| 0 <= k < s@.len() ==> #[trigger] s@[k] < g@.len(),
    ensures
        result_view(r) == truncate(g@, s@, *app, *name),
{
    let a = match app {
        None => {
            return Ok(s);
        },
        Some(a) => a,
    };
    assert(*app == Some::<String>(*a));
    let mut i: usize = s.len();
    let mut in_app = false;
    assert(s@.subrange(0, s@.len() as int) =~= s@);
    while i > 0
        invariant
            forall|k: int| 0 <= k < s@.len() ==> #[trigger] s@[k] < g@.len(),
            *app == Some::<String>(*a),
            i <= s@.len(),
            last_target(g@, s@, *a, *name) == last_target(g@, s@.subrange(0, i as int), *a, *name),
            in_app == exists|j: int| i <= j < s@.len() && g@[#[trigger] s@[j] as int].app@ == a@,
        decreases i,
    {
        let x = s[i - 1];
        assert(s@.subrange(0, i as int).drop_last() =~= s@.subrange(0, i - 1));
        assert(s@.subrange(0, i as int).last() == x);
        if matches_target(&g[x], a, name) {
            assert(target_matches(g@, x, *a, *name));
            assert(last_target(g@, s@.subrange(0, i as int), *a, *name) == i - 1);
            return Ok(prefix(&s, i));
        }
        if str_eq(&g[x].app, a) {
            in_app = true;
        }
        i -= 1;
    }
    match name {
        Some(nm) => {
            if in_app {
                return Err(Error::MigrationNameNotExists { app: a.clone(), migration: nm.clone() });
            }
        },
        None => {},
    }
    Err(Error::AppNameNotExists { app: a.clone() })
}

/// The plan for a request, given the applied state of every registry
/// position: exactly `plan_of`. Positions in the result index the registry.
pub fn resolve_plan(g: &Vec<MigrationNode>, applied: &Vec<bool>, plan: &Plan) -> (r: Result<
    Vec<usize>,
    Error,
>)
    requires
        registry_wf(g@),
        applied@.len() == g@.len(),
    ensures
        result_view(r) == plan_of(g@, applied@, *plan),
{
    if plan.migration.is_some() && plan.app.is_none() {
        return Err(Error::AppNameRequired);
    }
    let lin = match linearize(g) {
        None => {
            return Err(Error::FailedToCreateMigrationPlan);
        },
        Some(lin) => lin,
    };
    proof {
        lemma_linearization_valid(g@);
    }
    let ra = replaced_applied_flags(g, applied);
    if has_conflict(g, applied, &ra) {
        return Err(Error::BothMigrationTypeApplied);
    }
    let sup = superseded_flags(g, applied, &ra);
    let chosen = select_plan(g, applied, plan.plan_type, &lin, &sup);
    proof {
        lemma_select_in_range(g@, applied@, plan.plan_type, lin@);
    }
    let ordered = arranged(plan.plan_type, chosen);
    truncate_plan(g, ordered, &plan.app, &plan.migration)
}

/// Selection keeps only elements of its input.
pub proof fn lemma_select_in_range(g: Seq<MigrationNode>, applied: Seq<bool>, ty: PlanType, s: Seq<usize>)
    ensures
        forall|k: int| 0 <= k < select(g, applied, ty, s).len() ==> s.contains(
            #[trigger] select(g, applied, ty, s)[k],
        ),
        select(g, applied, ty, s).len() <= s.len(),
    decreases s.len(),
{
    if s.len() > 0 {
        lemma_select_in_range(g, applied, ty, s.drop_last());
        let r = select(g, applied, ty, s.drop_last());
        assert forall|k: int| 0 <= k < select(g, applied, ty, s).len() implies s.contains(
            #[trigger] select(g, applied, ty, s)[k],
        ) by {
            if k < r.len() {
                let w = choose|w: int| 0 <= w < s.drop_last().len() && s.drop_last()[w] == r[k];
                assert(s[w] == r[k]);
            } else {
                assert(s[s.len() - 1] == s.last());
            }
        }
    }
}

} // verus!
