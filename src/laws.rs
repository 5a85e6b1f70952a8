//! Properties relating plans of different types and the applied state
//! before and after executing them.
use vstd::prelude::*;

use crate::error::Error;
use crate::graph::{
    linearization, lemma_linearization_valid, lemma_distinct_positions, lemma_linearization_complete,
    lemma_cycle_fails, is_cycle, precedes,
};
use crate::migration::{MigrationNode, registry_wf};
use crate::plan::{Plan, PlanType};
use crate::planner::{plan_of, select, selected, superseded, replaced_applied, conflict};

verus! {

/// A request for a whole plan of the given type, with no target.
pub open spec fn whole(ty: PlanType) -> Plan {
    Plan { plan_type: ty, app: None, migration: None }
}

/// No migration applied.
pub open spec fn none_applied(n: nat) -> Seq<bool> {
    Seq::new(n, |x: int| false)
}

/// Every migration applied.
pub open spec fn all_applied(n: nat) -> Seq<bool> {
    Seq::new(n, |x: int| true)
}

/// The applied state after the migrations of `plan` are applied.
pub open spec fn after_apply(applied: Seq<bool>, plan: Seq<usize>) -> Seq<bool> {
    Seq::new(applied.len(), |x: int| applied[x] || plan.contains(x as usize))
}

/// The applied state after the migrations of `plan` are reverted.
pub open spec fn after_revert(applied: Seq<bool>, plan: Seq<usize>) -> Seq<bool> {
    Seq::new(applied.len(), |x: int| applied[x] && !plan.contains(x as usize))
}

/// An element is in a selection exactly when it is in the input and selected.
pub proof fn lemma_select_members(g: Seq<MigrationNode>, applied: Seq<bool>, ty: PlanType, s: Seq<usize>)
    ensures
        forall|x: usize| #[trigger] select(g, applied, ty, s).contains(x) <==> (s.contains(x) && selected(
            g,
            applied,
            ty,
            x as int,
        )),
    decreases s.len(),
{
    if s.len() > 0 {
        let d = s.drop_last();
        lemma_select_members(g, applied, ty, d);
        let r = select(g, applied, ty, d);
        assert forall|x: usize| #[trigger] select(g, applied, ty, s).contains(x) <==> (s.contains(x)
            && selected(g, applied, ty, x as int)) by {
            if s.contains(x) && x != s.last() {
                let w = choose|w: int| 0 <= w < s.len() && s[w] == x;
                assert(d[w] == x);
            }
            if d.contains(x) {
                let w = choose|w: int| 0 <= w < d.len() && d[w] == x;
                assert(s[w] == x);
            }
            if selected(g, applied, ty, s.last() as int) {
                assert(r.push(s.last())[r.len() as int] == s.last());
                if r.contains(x) {
                    let w = choose|w: int| 0 <= w < r.len() && r[w] == x;
                    assert(r.push(s.last())[w] == x);
                }
                if r.push(s.last()).contains(x) && x != s.last() {
                    let w = choose|w: int| 0 <= w < r.len() + 1 && r.push(s.last())[w] == x;
                    assert(r[w] == x);
                }
            }
            assert(s[s.len() - 1] == s.last());
        }
    }
}

/// Two selections agree when each element of the input is selected by both
/// or by neither.
pub proof fn lemma_select_ext(
    g: Seq<MigrationNode>,
    a1: Seq<bool>,
    t1: PlanType,
    a2: Seq<bool>,
    t2: PlanType,
    s: Seq<usize>,
)
    requires
        forall|k: int| 0 <= k < s.len() ==> selected(g, a1, t1, #[trigger] s[k] as int) == selected(
            g,
            a2,
            t2,
            s[k] as int,
        ),
    ensures
        select(g, a1, t1, s) == select(g, a2, t2, s),
    decreases s.len(),
{
    if s.len() > 0 {
        assert(s[s.len() - 1] == s.last());
        lemma_select_ext(g, a1, t1, a2, t2, s.drop_last());
    }
}

/// A linearisation holds every position of the registry.
proof fn lemma_full(g: Seq<MigrationNode>)
    requires
        registry_wf(g),
        linearization(g) is Some,
    ensures
        forall|x: usize| (x as int) < g.len() ==> #[trigger] linearization(g)->Some_0.contains(x),
        forall|k: int| 0 <= k < linearization(g)->Some_0.len() ==> #[trigger] linearization(g)->Some_0[k] < g.len(),
{
    lemma_linearization_valid(g);
    lemma_distinct_positions(linearization(g)->Some_0, g.len());
}

/// A selection that keeps every element is its input.
proof fn lemma_select_all(g: Seq<MigrationNode>, applied: Seq<bool>, ty: PlanType, s: Seq<usize>)
    requires
        forall|k: int| 0 <= k < s.len() ==> selected(g, applied, ty, #[trigger] s[k] as int),
    ensures
        select(g, applied, ty, s) == s,
    decreases s.len(),
{
    if s.len() > 0 {
        assert(s[s.len() - 1] == s.last());
        lemma_select_all(g, applied, ty, s.drop_last());
        assert(s.drop_last().push(s.last()) =~= s);
    }
}

/// For a registry without cycles and without replacements, the listing
/// holds every registered migration exactly once, each after all of its
/// parents and after every migration that runs before it.
pub proof fn lemma_list_plan(g: Seq<MigrationNode>, applied: Seq<bool>)
    requires
        registry_wf(g),
        applied.len() == g.len(),
        forall|c: Seq<int>| !#[trigger] is_cycle(g, c),
        forall|m: int| 0 <= m < g.len() ==> (#[trigger] g[m]).replaces@.len() == 0,
    ensures
        plan_of(g, applied, whole(PlanType::All)) is Ok,
        plan_of(g, applied, whole(PlanType::All)) matches Ok(p) && {
            &&& p.len() == g.len()
            &&& p.no_duplicates()
            &&& forall|x: usize| (x as int) < g.len() ==> p.contains(x)
            &&& forall|j: int, k: int|
                0 <= j < p.len() && 0 <= k < p.len() && #[trigger] precedes(g, p[j] as int, p[k] as int)
                    ==> j < k
        },
{
    lemma_linearization_complete(g);
    let lin = linearization(g)->Some_0;
    lemma_full(g);
    assert forall|m: int| 0 <= m < g.len() implies !#[trigger] replaced_applied(g, applied, m) by {
        assert(g[m].replaces@.len() == 0);
    }
    assert(!conflict(g, applied));
    assert forall|k: int| 0 <= k < lin.len() implies selected(g, applied, PlanType::All, #[trigger] lin[k] as int) by {
        let x = lin[k] as int;
        assert forall|m: int| 0 <= m < g.len() implies !(#[trigger] g[m].replaces@.contains(x as usize)) by {
            assert(g[m].replaces@.len() == 0);
        }
    }
    lemma_select_all(g, applied, PlanType::All, lin);
}

/// When the precedence relation has a cycle, every valid plan request
/// fails with the plan-construction error.
pub proof fn lemma_cycle_plan_fails(g: Seq<MigrationNode>, c: Seq<int>, applied: Seq<bool>, plan: Plan)
    requires
        registry_wf(g),
        is_cycle(g, c),
        plan.wf(),
    ensures
        plan_of(g, applied, plan) == Err::<Seq<usize>, Error>(Error::FailedToCreateMigrationPlan),
{
    lemma_cycle_fails(g, c);
}

/// With nothing applied, the apply plan is the whole listing.
pub proof fn lemma_apply_fresh_is_list(g: Seq<MigrationNode>)
    requires
        registry_wf(g),
    ensures
        plan_of(g, none_applied(g.len()), whole(PlanType::Apply)) == plan_of(
            g,
            none_applied(g.len()),
            whole(PlanType::All),
        ),
{
    if let Some(lin) = linearization(g) {
        lemma_full(g);
        lemma_select_ext(g, none_applied(g.len()), PlanType::Apply, none_applied(g.len()), PlanType::All, lin);
    }
}

/// With everything applied, the apply plan is empty whenever it succeeds.
pub proof fn lemma_apply_when_all_applied(g: Seq<MigrationNode>)
    requires
        registry_wf(g),
    ensures
        plan_of(g, all_applied(g.len()), whole(PlanType::Apply)) matches Ok(p) ==> p.len() == 0,
{
    if let Some(lin) = linearization(g) {
        let a = all_applied(g.len());
        lemma_full(g);
        lemma_select_members(g, a, PlanType::Apply, lin);
        let p = select(g, a, PlanType::Apply, lin);
        if p.len() > 0 {
            assert(p.contains(p[0]));
        }
    }
}

/// Replacement: when none of the migrations that `m` replaces is applied,
/// the apply plan leaves all of them out, and holds `m` itself when `m` is
/// unapplied and replaced by nothing; when one of them is applied and `m`
/// is not, the apply plan leaves `m` out and holds each unapplied one that
/// replaces nothing applied and that no other migration replaces; when `m`
/// and one of them are both applied, planning fails.
pub proof fn lemma_replacement(g: Seq<MigrationNode>, applied: Seq<bool>, m: int)
    requires
        registry_wf(g),
        applied.len() == g.len(),
        0 <= m < g.len(),
    ensures
        !replaced_applied(g, applied, m) ==> (plan_of(g, applied, whole(PlanType::Apply)) matches Ok(p) ==> (
            forall|t: int| 0 <= t < g[m].replaces@.len() ==> !p.contains(#[trigger] g[m].replaces@[t]))),
        !replaced_applied(g, applied, m) && !applied[m] && (forall|v: int| 0 <= v < g.len() ==> !(#[trigger] g[v].replaces@.contains(m as usize))) ==> (
            plan_of(g, applied, whole(PlanType::Apply)) matches Ok(p) ==> p.contains(m as usize)),
        replaced_applied(g, applied, m) && !applied[m] ==> (plan_of(g, applied, whole(PlanType::Apply)) matches Ok(p) ==> !p.contains(m as usize)),
        replaced_applied(g, applied, m) && !applied[m] ==> (plan_of(g, applied, whole(PlanType::Apply)) matches Ok(p) ==> (
            forall|t: int|
                0 <= t < g[m].replaces@.len() && !applied[#[trigger] g[m].replaces@[t] as int]
                    && !replaced_applied(g, applied, g[m].replaces@[t] as int) && (forall|v: int|
                    0 <= v < g.len() && v != m ==> !g[v].replaces@.contains(g[m].replaces@[t]))
                    ==> p.contains(g[m].replaces@[t]))),
        replaced_applied(g, applied, m) && applied[m] ==> plan_of(g, applied, whole(PlanType::Apply)) is Err,
        replaced_applied(g, applied, m) && applied[m] && linearization(g) is Some ==> plan_of(
            g,
            applied,
            whole(PlanType::Apply),
        ) == Err::<Seq<usize>, Error>(Error::BothMigrationTypeApplied),
{
    if let Some(lin) = linearization(g) {
        lemma_full(g);
        lemma_select_members(g, applied, PlanType::Apply, lin);
        assert forall|t: int| 0 <= t < g[m].replaces@.len() && !replaced_applied(g, applied, m) implies !selected(
            g,
            applied,
            PlanType::Apply,
            #[trigger] g[m].replaces@[t] as int,
        ) by {
            assert(g[m].replaces@.contains(g[m].replaces@[t]));
            assert(g[m].replaces@[t] < g.len());
            assert(g[m].replaces@.contains((g[m].replaces@[t] as int) as usize));
        }
        assert(lin.contains(m as usize));
        assert forall|t: int|
            0 <= t < g[m].replaces@.len() && replaced_applied(g, applied, m) && !applied[#[trigger] g[m].replaces@[t] as int]
                && !replaced_applied(g, applied, g[m].replaces@[t] as int) && (forall|v: int|
                0 <= v < g.len() && v != m ==> !g[v].replaces@.contains(g[m].replaces@[t]))
                implies select(g, applied, PlanType::Apply, lin).contains(g[m].replaces@[t]) by {
            let r = g[m].replaces@[t];
            assert(r < g.len());
            assert((r as int) as usize == r);
            assert(lin.contains(r));
            assert(!superseded(g, applied, r as int));
        }
    }
}

/// After a fresh apply-all, the revert plan is the apply plan reversed, and
/// executing it returns to the state with nothing applied.
pub proof fn lemma_apply_then_revert(g: Seq<MigrationNode>)
    requires
        registry_wf(g),
    ensures
        plan_of(g, none_applied(g.len()), whole(PlanType::Apply)) matches Ok(a) ==> ({
            let applied = after_apply(none_applied(g.len()), a);
            &&& plan_of(g, applied, whole(PlanType::Revert)) == Ok::<Seq<usize>, Error>(a.reverse())
            &&& after_revert(applied, a.reverse()) == none_applied(g.len())
        }),
{
    let a0 = none_applied(g.len());
    if let Some(lin) = linearization(g) {
        lemma_full(g);
        if !conflict(g, a0) {
            let a = select(g, a0, PlanType::Apply, lin);
            lemma_select_members(g, a0, PlanType::Apply, lin);
            let a1 = after_apply(a0, a);
            assert forall|x: int| 0 <= x < g.len() implies #[trigger] a1[x] == !superseded(g, a0, x) by {
                assert(lin.contains(x as usize));
            }
            assert forall|x: int| 0 <= x < g.len() && a1[x] implies !#[trigger] replaced_applied(g, a1, x) by {
                assert forall|t: int| 0 <= t < g[x].replaces@.len() implies !a1[#[trigger] g[x].replaces@[t] as int] by {
                    assert(g[x].replaces@.contains(g[x].replaces@[t]));
                    assert(g[x].replaces@[t] < g.len());
                    assert(g[x].replaces@.contains((g[x].replaces@[t] as int) as usize));
                    assert(!replaced_applied(g, a0, x));
                }
            }
            assert(!conflict(g, a1));
            assert forall|k: int| 0 <= k < lin.len() implies selected(g, a1, PlanType::Revert, #[trigger] lin[k] as int)
                == selected(g, a0, PlanType::Apply, lin[k] as int) by {
                let x = lin[k] as int;
                assert(0 <= x < g.len());
                if a1[x] {
                    assert(!replaced_applied(g, a1, x));
                    assert forall|v: int| 0 <= v < g.len() implies !(#[trigger] g[v].replaces@.contains(x as usize) && !replaced_applied(g, a1, v)) by {
                        assert(!replaced_applied(g, a0, v));
                    }
                }
            }
            lemma_select_ext(g, a1, PlanType::Revert, a0, PlanType::Apply, lin);
            assert forall|x: int| 0 <= x < g.len() implies !(#[trigger] after_revert(a1, a.reverse())[x]) by {
                if a1[x] {
                    assert(a.contains(x as usize));
                    let w = choose|w: int| 0 <= w < a.len() && a[w] == x as usize;
                    assert(a.reverse()[a.len() - 1 - w] == x as usize);
                }
            }
            assert(after_revert(a1, a.reverse()) =~= a0);
        }
    }
}

/// After a successful apply-all, the applied migrations are those applied
/// before together with every migration that replacement does not drop.
pub proof fn lemma_apply_all_result(g: Seq<MigrationNode>, applied: Seq<bool>)
    requires
        registry_wf(g),
        applied.len() == g.len(),
    ensures
        plan_of(g, applied, whole(PlanType::Apply)) matches Ok(p) ==> after_apply(applied, p) == Seq::new(
            g.len(),
            |x: int| applied[x] || !superseded(g, applied, x),
        ),
{
    if let Some(lin) = linearization(g) {
        lemma_full(g);
        lemma_select_members(g, applied, PlanType::Apply, lin);
        let p = select(g, applied, PlanType::Apply, lin);
        assert forall|x: int| 0 <= x < g.len() implies #[trigger] after_apply(applied, p)[x] == (applied[x] || !superseded(g, applied, x)) by {
            assert(lin.contains(x as usize));
        }
        assert(after_apply(applied, p) =~= Seq::new(g.len(), |x: int| applied[x] || !superseded(g, applied, x)));
    }
}

} // verus!
