//! The registry of migrations and the planning entry points over it.
use vstd::prelude::*;

use crate::error::Error;
use crate::migration::{
    Migration, MigrationKey, MigrationNode, registry_wf, same_key, str_eq, has_key, declares,
    declares_some, declares_below, describes, lemma_declares_unfold, is_sub, lemma_sub_self,
    lemma_sub_step,
};
use crate::plan::Plan;
use crate::planner::{plan_of, resolve_plan, result_view};

verus! {

/// A migration with this identity is registered.
pub open spec fn registered(g: Seq<MigrationNode>, app: Seq<char>, name: Seq<char>) -> bool {
    exists|i: int| 0 <= i < g.len() && #[trigger] g[i].app@ == app && g[i].name@ == name
}

/// `g` keeps `old` as its beginning.
pub open spec fn extends(g: Seq<MigrationNode>, old: Seq<MigrationNode>) -> bool {
    g.len() >= old.len() && g.subrange(0, old.len() as int) == old
}

/// Every node with the identity of `m` records the declaration `m`.
pub open spec fn records(g: Seq<MigrationNode>, m: Migration) -> bool {
    forall|r: int|
        0 <= r < g.len() && (#[trigger] g[r]).app@ == m.app@ && g[r].name@ == m.name@ ==> describes(
            g,
            r,
            m,
        )
}

/// The node at position `q` records a declaration reached from `m`.
pub open spec fn introduced(g: Seq<MigrationNode>, q: int, m: Migration) -> bool {
    exists|d: Migration| is_sub(d, m) && #[trigger] describes(g, q, d)
}

/// The node at position `q` records a declaration reached from one of the
/// first `n` migrations of `ms`.
pub open spec fn introduced_by_some(g: Seq<MigrationNode>, q: int, ms: Seq<Migration>, n: int) -> bool {
    exists|k: int| 0 <= k < n && #[trigger] introduced(g, q, ms[k])
}

/// The identity of `a` stands before the identity of `b` in `g`.
pub open spec fn stands_before(g: Seq<MigrationNode>, a: Migration, b: Migration) -> bool {
    forall|r1: int, r2: int|
        0 <= r1 < g.len() && 0 <= r2 < g.len() && (#[trigger] g[r1]).app@ == a.app@ && g[r1].name@
            == a.name@ && (#[trigger] g[r2]).app@ == b.app@ && g[r2].name@ == b.name@ ==> r1 < r2
}

/// The `k`-th listed migration brings a new identity that neither the
/// registry before, nor an earlier listed migration, nor its own
/// declarations below it hold.
pub open spec fn listed_new(old: Seq<MigrationNode>, ms: Seq<Migration>, k: int) -> bool {
    &&& 0 <= k < ms.len()
    &&& !registered(old, ms[k].app@, ms[k].name@)
    &&& !declares_some(ms, k, ms[k].app@, ms[k].name@)
    &&& !declares_below(ms[k], ms[k].app@, ms[k].name@)
}

/// Which registry positions a set of tracking rows marks as applied.
pub open spec fn applied_of(g: Seq<MigrationNode>, rows: Seq<MigrationKey>) -> Seq<bool> {
    Seq::new(
        g.len(),
        |i: int| exists|t: int| 0 <= t < rows.len() && #[trigger] same_key(g[i], rows[t]),
    )
}

/// Position of the migration with the given identity, if registered.
fn find_node(g: &Vec<MigrationNode>, app: &String, name: &String) -> (r: Option<usize>)
    ensures
        r matches Some(i) ==> i < g@.len() && g@[i as int].app@ == app@ && g@[i as int].name@
            == name@,
        r is None ==> !registered(g@, app@, name@),
{
    let mut i: usize = 0;
    while i < g.len()
        invariant
            i <= g@.len(),
            forall|j: int| 0 <= j < i ==> !(#[trigger] g@[j].app@ == app@ && g@[j].name@ == name@),
        decreases g.len() - i,
    {
        if str_eq(&g[i].app, app) && str_eq(&g[i].name, name) {
            return Some(i);
        }
        i += 1;
    }
    None
}

fn copy_key(k: &MigrationKey) -> (r: MigrationKey)
    ensures
        r.app@ == k.app@,
        r.name@ == k.name@,
{
    MigrationKey { app: k.app.clone(), name: k.name.clone() }
}

fn copy_keys(ks: &Vec<MigrationKey>) -> (r: Vec<MigrationKey>)
    ensures
        r@.len() == ks@.len(),
        forall|t: int| 0 <= t < ks@.len() ==> (#[trigger] r@[t]).app@ == ks@[t].app@ && r@[t].name@
            == ks@[t].name@,
{
    let mut r: Vec<MigrationKey> = Vec::new();
    let mut t: usize = 0;
    while t < ks.len()
        invariant
            t <= ks@.len(),
            r@.len() == t,
            forall|u: int| 0 <= u < t ==> (#[trigger] r@[u]).app@ == ks@[u].app@ && r@[u].name@
                == ks@[u].name@,
        decreases ks.len() - t,
    {
        r.push(copy_key(&ks[t]));
        t += 1;
    }
    r
}

proof fn lemma_extends_refl(a: Seq<MigrationNode>)
    ensures
        extends(a, a),
{
    assert(a.subrange(0, a.len() as int) =~= a);
}

proof fn lemma_records_kept(a: Seq<MigrationNode>, b: Seq<MigrationNode>, m: Migration)
    requires
        registry_wf(a),
        registry_wf(b),
        extends(b, a),
        records(a, m),
        registered(a, m.app@, m.name@),
    ensures
        records(b, m),
{
    lemma_extends_index(a, b);
    let q = choose|q: int| 0 <= q < a.len() && #[trigger] a[q].app@ == m.app@ && a[q].name@ == m.name@;
    assert(describes(a, q, m));
    assert forall|r: int|
        0 <= r < b.len() && (#[trigger] b[r]).app@ == m.app@ && b[r].name@ == m.name@ implies describes(b, r, m) by {
        assert(b[q] == a[q]);
        if r != q {
            assert(b[r].app@ == b[q].app@);
        }
        assert forall|k: int| 0 <= k < m.parents@.len() implies b[#[trigger] b[r].parents@[k] as int].app@
            == m.parents@[k].app@ && b[b[r].parents@[k] as int].name@ == m.parents@[k].name@ by {
            assert(a[q].parents@[k] < a.len());
            assert(b[a[q].parents@[k] as int] == a[a[q].parents@[k] as int]);
        }
        assert forall|k: int| 0 <= k < m.replaces@.len() implies b[#[trigger] b[r].replaces@[k] as int].app@
            == m.replaces@[k].app@ && b[b[r].replaces@[k] as int].name@ == m.replaces@[k].name@ by {
            assert(a[q].replaces@[k] < a.len());
            assert(b[a[q].replaces@[k] as int] == a[a[q].replaces@[k] as int]);
        }
    }
}

proof fn lemma_position_kept(a: Seq<MigrationNode>, b: Seq<MigrationNode>, app: Seq<char>, name: Seq<char>)
    requires
        registry_wf(b),
        extends(b, a),
        registered(a, app, name),
    ensures
        forall|r: int| 0 <= r < b.len() && (#[trigger] b[r]).app@ == app && b[r].name@ == name ==> r < a.len(),
{
    lemma_extends_index(a, b);
    let q = choose|q: int| 0 <= q < a.len() && #[trigger] a[q].app@ == app && a[q].name@ == name;
    assert(b[q] == a[q]);
    assert forall|r: int| 0 <= r < b.len() && (#[trigger] b[r]).app@ == app && b[r].name@ == name implies r < a.len() by {
        if r != q {
            assert(b[r].app@ == b[q].app@);
        }
    }
}

proof fn lemma_extends_registered(a: Seq<MigrationNode>, b: Seq<MigrationNode>)
    requires
        extends(b, a),
    ensures
        forall|app: Seq<char>, name: Seq<char>| #[trigger] registered(a, app, name) ==> registered(b, app, name),
{
    assert forall|app: Seq<char>, name: Seq<char>| #[trigger] registered(a, app, name) implies registered(b, app, name) by {
        let j = choose|j: int| 0 <= j < a.len() && #[trigger] a[j].app@ == app && a[j].name@ == name;
        assert(b.subrange(0, a.len() as int)[j] == a[j]);
        assert(b[j].app@ == app);
    }
}

proof fn lemma_describes_kept(a: Seq<MigrationNode>, b: Seq<MigrationNode>, q: int, d: Migration)
    requires
        registry_wf(a),
        extends(b, a),
        describes(a, q, d),
    ensures
        describes(b, q, d),
{
    lemma_extends_index(a, b);
    assert(b[q] == a[q]);
    assert forall|k: int| 0 <= k < d.parents@.len() implies b[#[trigger] b[q].parents@[k] as int].app@
        == d.parents@[k].app@ && b[b[q].parents@[k] as int].name@ == d.parents@[k].name@ by {
        assert(a[q].parents@[k] < a.len());
        assert(b[a[q].parents@[k] as int] == a[a[q].parents@[k] as int]);
    }
    assert forall|k: int| 0 <= k < d.replaces@.len() implies b[#[trigger] b[q].replaces@[k] as int].app@
        == d.replaces@[k].app@ && b[b[q].replaces@[k] as int].name@ == d.replaces@[k].name@ by {
        assert(a[q].replaces@[k] < a.len());
        assert(b[a[q].replaces@[k] as int] == a[a[q].replaces@[k] as int]);
    }
}

/// Nodes that record declarations reached from a parent or a replaced
/// migration of `m` keep doing so as the registry grows, and record
/// declarations reached from `m`.
proof fn lemma_introduced_step(
    start: Seq<MigrationNode>,
    before: Seq<MigrationNode>,
    after: Seq<MigrationNode>,
    m: Migration,
    child: Migration,
)
    requires
        registry_wf(before),
        extends(after, before),
        before.len() >= start.len(),
        forall|q: int| start.len() <= q < before.len() ==> #[trigger] introduced(before, q, m),
        forall|q: int| before.len() <= q < after.len() ==> #[trigger] introduced(after, q, child),
        forall|d: Migration| is_sub(d, child) ==> is_sub(d, m),
    ensures
        forall|q: int| start.len() <= q < after.len() ==> #[trigger] introduced(after, q, m),
{
    assert forall|q: int| start.len() <= q < after.len() implies #[trigger] introduced(after, q, m) by {
        if q < before.len() {
            assert(introduced(before, q, m));
            let d = choose|d: Migration| is_sub(d, m) && #[trigger] describes(before, q, d);
            lemma_describes_kept(before, after, q, d);
            assert(describes(after, q, d));
        } else {
            assert(introduced(after, q, child));
            let d = choose|d: Migration| is_sub(d, child) && #[trigger] describes(after, q, d);
            assert(is_sub(d, m));
        }
    }
}

proof fn lemma_extends_trans(a: Seq<MigrationNode>, b: Seq<MigrationNode>, c: Seq<MigrationNode>)
    requires
        extends(b, a),
        extends(c, b),
    ensures
        extends(c, a),
{
    assert(c.subrange(0, a.len() as int) =~= b.subrange(0, a.len() as int));
}

proof fn lemma_extends_index(a: Seq<MigrationNode>, b: Seq<MigrationNode>)
    requires
        extends(b, a),
    ensures
        forall|j: int| 0 <= j < a.len() ==> #[trigger] b[j] == a[j],
{
    assert forall|j: int| 0 <= j < a.len() implies #[trigger] b[j] == a[j] by {
        assert(b.subrange(0, a.len() as int)[j] == a[j]);
    }
}

/// Registers `m` unless its identity is already registered, in which case
/// nothing is visited. Otherwise its parents and replaced migrations are
/// registered first, each in the same way, then `m` itself if no
/// declaration below it carried its identity. Returns the position of
/// `m`'s identity.
fn add_node(g: &mut Vec<MigrationNode>, m: &Migration) -> (r: usize)
    requires
        registry_wf(old(g)@),
    ensures
        registry_wf(final(g)@),
        extends(final(g)@, old(g)@),
        r < final(g)@.len(),
        final(g)@[r as int].app@ == m.app@,
        final(g)@[r as int].name@ == m.name@,
        registered(old(g)@, m.app@, m.name@) ==> final(g)@ == old(g)@,
        forall|app: Seq<char>, name: Seq<char>|
            #[trigger] registered(final(g)@, app, name) ==> (registered(old(g)@, app, name)
                || declares(*m, app, name)),
        forall|q: int| old(g)@.len() <= q < final(g)@.len() ==> #[trigger] introduced(final(g)@, q, *m),
        !registered(old(g)@, m.app@, m.name@) && !declares_below(*m, m.app@, m.name@) ==> describes(
            final(g)@,
            r as int,
            *m,
        ) && r == final(g)@.len() - 1,
    decreases m,
{
    let ghost start = g@;
    proof {
        lemma_extends_refl(g@);
    }
    match find_node(g, &m.app, &m.name) {
        Some(i) => {
            assert(registered(g@, m.app@, m.name@));
            return i;
        },
        None => {},
    }
    let mut parents: Vec<usize> = Vec::new();
    let mut i: usize = 0;
    while i < m.parents.len()
        invariant
            registry_wf(g@),
            extends(g@, start),
            i <= m.parents@.len(),
            parents@.len() == i,
            forall|k: int|
                0 <= k < i ==> #[trigger] parents@[k] < g@.len() && g@[parents@[k] as int].app@
                    == m.parents@[k].app@ && g@[parents@[k] as int].name@ == m.parents@[k].name@,
            forall|app: Seq<char>, name: Seq<char>|
                #[trigger] registered(g@, app, name) ==> (registered(start, app, name)
                    || declares_some(m.parents@, i as int, app, name)),
            forall|q: int| start.len() <= q < g@.len() ==> #[trigger] introduced(g@, q, *m),
        decreases m.parents.len() - i,
    {
        let ghost before = g@;
        let ghost old_ps = parents@;
        let p = add_node(g, &m.parents[i]);
        parents.push(p);
        proof {
            lemma_extends_trans(start, before, g@);
            lemma_extends_index(before, g@);
            assert forall|k: int|
                0 <= k < i + 1 implies #[trigger] parents@[k] < g@.len() && g@[parents@[k] as int].app@
                == m.parents@[k].app@ && g@[parents@[k] as int].name@ == m.parents@[k].name@ by {
                if k < i {
                    assert(parents@[k] == old_ps[k]);
                    assert(g@[old_ps[k] as int] == before[old_ps[k] as int]);
                }
            }
            lemma_extends_registered(before, g@);
            assert forall|d: Migration| is_sub(d, m.parents@[i as int]) implies is_sub(d, *m) by {
                lemma_sub_step(*m, d);
            }
            lemma_introduced_step(start, before, g@, *m, m.parents@[i as int]);
            assert forall|app: Seq<char>, name: Seq<char>|
                #[trigger] registered(g@, app, name) ==> (registered(start, app, name)
                    || declares_some(m.parents@, i + 1, app, name)) by {
                if declares_some(m.parents@, i + 1, app, name) && !declares_some(m.parents@, i as int, app, name) {
                    let k = choose|k: int| 0 <= k < i + 1 && #[trigger] declares(m.parents@[k], app, name);
                    assert(k == i);
                }
                if declares(m.parents@[i as int], app, name) {
                    assert(declares_some(m.parents@, i + 1, app, name));
                }
                if declares_some(m.parents@, i as int, app, name) {
                    let k = choose|k: int| 0 <= k < i && #[trigger] declares(m.parents@[k], app, name);
                    assert(declares_some(m.parents@, i + 1, app, name));
                }
                assert(registered(before, app, name) ==> registered(g@, app, name));
            }
        }
        i += 1;
    }
    let ghost after_parents = g@;
    proof {
        lemma_extends_refl(after_parents);
    }
    let mut replaces: Vec<usize> = Vec::new();
    let mut i: usize = 0;
    while i < m.replaces.len()
        invariant
            registry_wf(g@),
            extends(g@, start),
            extends(g@, after_parents),
            i <= m.replaces@.len(),
            parents@.len() == m.parents@.len(),
            replaces@.len() == i,
            forall|k: int|
                0 <= k < m.parents@.len() ==> #[trigger] parents@[k] < after_parents.len()
                    && after_parents[parents@[k] as int].app@ == m.parents@[k].app@
                    && after_parents[parents@[k] as int].name@ == m.parents@[k].name@,
            forall|k: int|
                0 <= k < i ==> #[trigger] replaces@[k] < g@.len() && g@[replaces@[k] as int].app@
                    == m.replaces@[k].app@ && g@[replaces@[k] as int].name@ == m.replaces@[k].name@,
            forall|app: Seq<char>, name: Seq<char>|
                #[trigger] registered(g@, app, name) ==> (registered(start, app, name)
                    || declares_some(m.parents@, m.parents@.len() as int, app, name)
                    || declares_some(m.replaces@, i as int, app, name)),
            forall|q: int| start.len() <= q < g@.len() ==> #[trigger] introduced(g@, q, *m),
        decreases m.replaces.len() - i,
    {
        let ghost before = g@;
        let ghost old_rs = replaces@;
        let p = add_node(g, &m.replaces[i]);
        replaces.push(p);
        proof {
            lemma_extends_trans(start, before, g@);
            lemma_extends_trans(after_parents, before, g@);
            lemma_extends_index(before, g@);
            assert forall|k: int|
                0 <= k < i + 1 implies #[trigger] replaces@[k] < g@.len() && g@[replaces@[k] as int].app@
                == m.replaces@[k].app@ && g@[replaces@[k] as int].name@ == m.replaces@[k].name@ by {
                if k < i {
                    assert(replaces@[k] == old_rs[k]);
                    assert(g@[old_rs[k] as int] == before[old_rs[k] as int]);
                }
            }
            lemma_extends_registered(before, g@);
            assert forall|d: Migration| is_sub(d, m.replaces@[i as int]) implies is_sub(d, *m) by {
                lemma_sub_step(*m, d);
            }
            lemma_introduced_step(start, before, g@, *m, m.replaces@[i as int]);
            assert forall|app: Seq<char>, name: Seq<char>|
                #[trigger] registered(g@, app, name) ==> (registered(start, app, name)
                    || declares_some(m.parents@, m.parents@.len() as int, app, name)
                    || declares_some(m.replaces@, i + 1, app, name)) by {
                if declares_some(m.replaces@, i + 1, app, name) && !declares_some(m.replaces@, i as int, app, name) {
                    let k = choose|k: int| 0 <= k < i + 1 && #[trigger] declares(m.replaces@[k], app, name);
                    assert(k == i);
                }
                if declares(m.replaces@[i as int], app, name) {
                    assert(declares_some(m.replaces@, i + 1, app, name));
                }
                if declares_some(m.replaces@, i as int, app, name) {
                    let k = choose|k: int| 0 <= k < i && #[trigger] declares(m.replaces@[k], app, name);
                    assert(declares_some(m.replaces@, i + 1, app, name));
                }
                assert(registered(before, app, name) ==> registered(g@, app, name));
            }
        }
        i += 1;
    }
    proof {
        lemma_extends_index(after_parents, g@);
        assert forall|app: Seq<char>, name: Seq<char>|
            declares(*m, app, name) <==> ((m.app@ == app && m.name@ == name) || declares_below(*m, app, name)) by {
            lemma_declares_unfold(*m, app, name);
        }
    }
    match find_node(g, &m.app, &m.name) {
        Some(i) => {
            assert(registered(g@, m.app@, m.name@));
            return i;
        },
        None => {},
    }
    let ghost ps = parents@;
    let ghost rs = replaces@;
    let run_before = copy_keys(&m.run_before);
    let node = MigrationNode {
        app: m.app.clone(),
        name: m.name.clone(),
        parents,
        replaces,
        run_before,
        operation_count: m.operation_count,
        is_atomic: m.is_atomic,
    };
    let ghost mid = g@;
    g.push(node);
    proof {
        assert(g@.subrange(0, mid.len() as int) =~= mid);
        assert(extends(g@, mid));
        lemma_extends_index(mid, g@);
        lemma_extends_trans(start, mid, g@);
        assert forall|app: Seq<char>, name: Seq<char>|
            #[trigger] registered(g@, app, name) implies (registered(start, app, name) || declares(*m, app, name)) by {
            let j = choose|j: int| 0 <= j < g@.len() && #[trigger] g@[j].app@ == app && g@[j].name@ == name;
            if j < mid.len() {
                assert(registered(mid, app, name));
            }
        }
        assert forall|a: int, b: int|
            0 <= a < g@.len() && 0 <= b < g@.len() && a != b implies !(#[trigger] g@[a].app@
            == #[trigger] g@[b].app@ && g@[a].name@ == g@[b].name@) by {
            if a < mid.len() && b < mid.len() {
                assert(g@[a] == mid[a]);
                assert(g@[b] == mid[b]);
            } else if a < mid.len() {
                assert(g@[a] == mid[a]);
            } else if b < mid.len() {
                assert(g@[b] == mid[b]);
            }
        }
        assert forall|a: int, k: int|
            0 <= a < g@.len() && 0 <= k < g@[a].parents@.len() implies #[trigger] g@[a].parents@[k]
            < g@.len() by {
            if a < mid.len() {
                assert(g@[a] == mid[a]);
                assert(mid[a].parents@[k] < mid.len());
            } else {
                assert(g@[a].parents@ == ps);
                assert(ps[k] < after_parents.len());
            }
        }
        assert forall|a: int, k: int|
            0 <= a < g@.len() && 0 <= k < g@[a].replaces@.len() implies #[trigger] g@[a].replaces@[k]
            < g@.len() by {
            if a < mid.len() {
                assert(g@[a] == mid[a]);
                assert(mid[a].replaces@[k] < mid.len());
            } else {
                assert(g@[a].replaces@ == rs);
                assert(rs[k] < mid.len());
            }
        }
        let r = mid.len() as int;
        assert forall|k: int| 0 <= k < m.parents@.len() implies g@[#[trigger] g@[r].parents@[k] as int].app@
            == m.parents@[k].app@ && g@[g@[r].parents@[k] as int].name@ == m.parents@[k].name@ by {
            assert(g@[r].parents@[k] == ps[k]);
            assert(g@[ps[k] as int] == after_parents[ps[k] as int]);
        }
        assert forall|k: int| 0 <= k < m.replaces@.len() implies g@[#[trigger] g@[r].replaces@[k] as int].app@
            == m.replaces@[k].app@ && g@[g@[r].replaces@[k] as int].name@ == m.replaces@[k].name@ by {
            assert(g@[r].replaces@[k] == rs[k]);
            assert(g@[rs[k] as int] == mid[rs[k] as int]);
        }
        assert(describes(g@, r, *m));
        lemma_sub_self(*m);
        assert forall|q: int| start.len() <= q < g@.len() implies #[trigger] introduced(g@, q, *m) by {
            if q < mid.len() {
                assert(introduced(mid, q, *m));
                let d = choose|d: Migration| is_sub(d, *m) && #[trigger] describes(mid, q, d);
                lemma_describes_kept(mid, g@, q, d);
                assert(describes(g@, q, d));
            } else {
                assert(describes(g@, q, *m));
            }
        }
    }
    g.len() - 1
}

/// The registry of migrations known to the engine, in registration order.
pub struct Migrator {
    migrations: Vec<MigrationNode>,
}

impl View for Migrator {
    type V = Seq<MigrationNode>;

    closed spec fn view(&self) -> Seq<MigrationNode> {
        self.migrations@
    }
}

impl Migrator {
    #[verifier::type_invariant]
    spec fn inv(&self) -> bool {
        registry_wf(self.migrations@)
    }

    /// An empty registry.
    pub fn new() -> (r: Self)
        ensures
            r@ == Seq::<MigrationNode>::empty(),
    {
        Migrator { migrations: Vec::new() }
    }

    /// The registered migrations, in registration order.
    pub fn migrations(&self) -> (r: &Vec<MigrationNode>)
        ensures
            r@ == self@,
            registry_wf(self@),
    {
        proof {
            use_type_invariant(self);
        }
        &self.migrations
    }

    /// Registers a migration. When its identity is already registered the
    /// registry is left as it is, and its parents and replaced migrations
    /// are not visited. Otherwise its parents and replaced migrations are
    /// registered first, each in the same way, then the migration itself;
    /// every node added records a declaration reached from the migration.
    pub fn add_migration(&mut self, migration: &Migration)
        ensures
            extends(final(self)@, old(self)@),
            registered(final(self)@, migration.app@, migration.name@),
            registered(old(self)@, migration.app@, migration.name@) ==> final(self)@ == old(self)@,
            forall|app: Seq<char>, name: Seq<char>|
                #[trigger] registered(final(self)@, app, name) ==> (registered(old(self)@, app, name)
                    || declares(*migration, app, name)),
            forall|q: int|
                old(self)@.len() <= q < final(self)@.len() ==> #[trigger] introduced(
                    final(self)@,
                    q,
                    *migration,
                ),
            !registered(old(self)@, migration.app@, migration.name@) && !declares_below(
                *migration,
                migration.app@,
                migration.name@,
            ) ==> records(final(self)@, *migration) && final(self)@.last().app@ == migration.app@
                && final(self)@.last().name@ == migration.name@,
    {
        proof {
            use_type_invariant(&*self);
        }
        let mut nodes: Vec<MigrationNode> = Vec::new();
        std::mem::swap(&mut nodes, &mut self.migrations);
        let r = add_node(&mut nodes, migration);
        proof {
            assert(registered(nodes@, migration.app@, migration.name@)) by {
                assert(nodes@[r as int].app@ == migration.app@);
            }
            if !registered(old(self)@, migration.app@, migration.name@) && !declares_below(
                *migration,
                migration.app@,
                migration.name@,
            ) {
                assert(describes(nodes@, r as int, *migration));
                assert forall|q: int|
                    0 <= q < nodes@.len() && (#[trigger] nodes@[q]).app@ == migration.app@
                        && nodes@[q].name@ == migration.name@ implies describes(nodes@, q, *migration) by {
                    if q != r as int {
                        assert(nodes@[q].app@ == nodes@[r as int].app@);
                    }
                }
            }
        }
        self.migrations = nodes;
    }

    /// Registers each migration in turn, as `add_migration` does.
    pub fn add_migrations(&mut self, migrations: &Vec<Migration>)
        ensures
            extends(final(self)@, old(self)@),
            forall|k: int|
                0 <= k < migrations@.len() ==> registered(
                    final(self)@,
                    (#[trigger] migrations@[k]).app@,
                    migrations@[k].name@,
                ),
            forall|app: Seq<char>, name: Seq<char>|
                #[trigger] registered(final(self)@, app, name) ==> (registered(old(self)@, app, name)
                    || declares_some(migrations@, migrations@.len() as int, app, name)),
            forall|q: int|
                old(self)@.len() <= q < final(self)@.len() ==> #[trigger] introduced_by_some(
                    final(self)@,
                    q,
                    migrations@,
                    migrations@.len() as int,
                ),
            forall|k: int|
                listed_new(old(self)@, migrations@, k) ==> records(final(self)@, #[trigger] migrations@[k]),
            forall|j: int, k: int|
                0 <= j < k < migrations@.len() && listed_new(old(self)@, migrations@, j) && listed_new(
                    old(self)@,
                    migrations@,
                    k,
                ) ==> #[trigger] stands_before(final(self)@, migrations@[j], migrations@[k]),
    {
        let ghost start = self@;
        proof {
            lemma_extends_refl(start);
            use_type_invariant(&*self);
        }
        let mut i: usize = 0;
        while i < migrations.len()
            invariant
                i <= migrations@.len(),
                extends(self@, start),
                registry_wf(self@),
                forall|k: int|
                    0 <= k < i ==> registered(self@, (#[trigger] migrations@[k]).app@, migrations@[k].name@),
                forall|app: Seq<char>, name: Seq<char>|
                    #[trigger] registered(self@, app, name) ==> (registered(start, app, name)
                        || declares_some(migrations@, i as int, app, name)),
                forall|q: int|
                    start.len() <= q < self@.len() ==> #[trigger] introduced_by_some(self@, q, migrations@, i as int),
                forall|k: int|
                    0 <= k < i && listed_new(start, migrations@, k) ==> records(self@, #[trigger] migrations@[k]),
                forall|j: int, k: int|
                    0 <= j < k < i && listed_new(start, migrations@, j) && listed_new(start, migrations@, k)
                        ==> #[trigger] stands_before(self@, migrations@[j], migrations@[k]),
            decreases migrations.len() - i,
        {
            let ghost before = self@;
            self.add_migration(&migrations[i]);
            proof {
                use_type_invariant(&*self);
                lemma_extends_trans(start, before, self@);
                lemma_extends_registered(before, self@);
                assert forall|k: int|
                    0 <= k < i + 1 implies registered(self@, (#[trigger] migrations@[k]).app@, migrations@[k].name@) by {
                    if k < i {
                        assert(registered(before, migrations@[k].app@, migrations@[k].name@));
                    }
                }
                assert forall|q: int|
                    start.len() <= q < self@.len() implies #[trigger] introduced_by_some(self@, q, migrations@, i + 1) by {
                    if q < before.len() {
                        assert(introduced_by_some(before, q, migrations@, i as int));
                        let k = choose|k: int| 0 <= k < i && #[trigger] introduced(before, q, migrations@[k]);
                        let d = choose|d: Migration| is_sub(d, migrations@[k]) && #[trigger] describes(before, q, d);
                        lemma_describes_kept(before, self@, q, d);
                        assert(introduced(self@, q, migrations@[k]));
                    } else {
                        assert(introduced(self@, q, migrations@[i as int]));
                    }
                }
                assert forall|k: int|
                    0 <= k < i + 1 && listed_new(start, migrations@, k) implies records(self@, #[trigger] migrations@[k]) by {
                    let mk = migrations@[k];
                    if k < i {
                        assert(records(before, mk));
                        assert(registered(before, mk.app@, mk.name@));
                        lemma_records_kept(before, self@, mk);
                    } else {
                        assert(!registered(before, mk.app@, mk.name@));
                    }
                }
                assert forall|j: int, k: int|
                    0 <= j < k < i + 1 && listed_new(start, migrations@, j) && listed_new(start, migrations@, k)
                        implies #[trigger] stands_before(self@, migrations@[j], migrations@[k]) by {
                    let mj = migrations@[j];
                    let mk = migrations@[k];
                    assert(registered(before, mj.app@, mj.name@));
                    lemma_position_kept(before, self@, mj.app@, mj.name@);
                    if k < i {
                        assert(registered(before, mk.app@, mk.name@));
                        lemma_position_kept(before, self@, mk.app@, mk.name@);
                        lemma_extends_index(before, self@);
                        assert(stands_before(before, mj, mk));
                        assert forall|r1: int, r2: int|
                            0 <= r1 < self@.len() && 0 <= r2 < self@.len() && (#[trigger] self@[r1]).app@
                                == mj.app@ && self@[r1].name@ == mj.name@ && (#[trigger] self@[r2]).app@
                                == mk.app@ && self@[r2].name@ == mk.name@ implies r1 < r2 by {
                            assert(self@[r1] == before[r1]);
                            assert(self@[r2] == before[r2]);
                        }
                    } else {
                        assert(!registered(before, mk.app@, mk.name@));
                        let last = self@.len() - 1;
                        assert(self@[last].app@ == mk.app@);
                        assert forall|r1: int, r2: int|
                            0 <= r1 < self@.len() && 0 <= r2 < self@.len() && (#[trigger] self@[r1]).app@
                                == mj.app@ && self@[r1].name@ == mj.name@ && (#[trigger] self@[r2]).app@
                                == mk.app@ && self@[r2].name@ == mk.name@ implies r1 < r2 by {
                            if r2 != last {
                                assert(self@[r2].app@ == self@[last].app@);
                            }
                            if last < before.len() {
                                assert(registered(before, mk.app@, mk.name@)) by {
                                    lemma_extends_index(before, self@);
                                    assert(before[last] == self@[last]);
                                }
                            }
                        }
                    }
                }
                assert forall|app: Seq<char>, name: Seq<char>|
                    #[trigger] registered(self@, app, name) implies (registered(start, app, name)
                        || declares_some(migrations@, i + 1, app, name)) by {
                    if registered(before, app, name) {
                        if declares_some(migrations@, i as int, app, name) {
                            let k = choose|k: int| 0 <= k < i && #[trigger] declares(migrations@[k], app, name);
                            assert(declares_some(migrations@, i + 1, app, name));
                        }
                    } else {
                        assert(declares(migrations@[i as int], app, name));
                        assert(declares_some(migrations@, i + 1, app, name));
                    }
                }
            }
            i += 1;
        }
    }

    /// Which registered migrations the tracking rows mark as applied.
    pub fn applied_flags(&self, rows: &Vec<MigrationKey>) -> (r: Vec<bool>)
        ensures
            r@ == applied_of(self@, rows@),
    {
        let g = self.migrations();
        let mut r: Vec<bool> = Vec::new();
        let mut i: usize = 0;
        while i < g.len()
            invariant
                g@ == self@,
                i <= g@.len(),
                r@.len() == i,
                forall|u: int| 0 <= u < i ==> #[trigger] r@[u] == applied_of(self@, rows@)[u],
            decreases g.len() - i,
        {
            let mut found = false;
            let mut t: usize = 0;
            while t < rows.len()
                invariant
                    g@ == self@,
                    i < g@.len(),
                    t <= rows@.len(),
                    found == exists|v: int| 0 <= v < t && #[trigger] same_key(g@[i as int], rows@[v]),
                decreases rows.len() - t,
            {
                if has_key(&g[i], &rows[t]) {
                    found = true;
                }
                t += 1;
            }
            r.push(found);
            i += 1;
        }
        assert(r@ =~= applied_of(self@, rows@));
        r
    }

    /// Positions of the registered migrations that the tracking rows mark
    /// as applied, in registration order.
    pub fn list_applied_migrations(&self, rows: &Vec<MigrationKey>) -> (r: Vec<usize>)
        ensures
            forall|k: int| 0 <= k < r@.len() ==> #[trigger] r@[k] < self@.len(),
            forall|k: int| 0 <= k < r@.len() ==> applied_of(self@, rows@)[#[trigger] r@[k] as int],
            forall|i: int| 0 <= i < self@.len() && #[trigger] applied_of(self@, rows@)[i] ==> r@.contains(i as usize),
            forall|j: int, k: int| 0 <= j < k < r@.len() ==> r@[j] < r@[k],
    {
        let flags = self.applied_flags(rows);
        let mut r: Vec<usize> = Vec::new();
        let mut i: usize = 0;
        while i < flags.len()
            invariant
                flags@ == applied_of(self@, rows@),
                i <= flags@.len(),
                forall|k: int| 0 <= k < r@.len() ==> #[trigger] r@[k] < i,
                forall|k: int| 0 <= k < r@.len() ==> flags@[#[trigger] r@[k] as int],
                forall|u: int| 0 <= u < i && #[trigger] flags@[u] ==> r@.contains(u as usize),
                forall|j: int, k: int| 0 <= j < k < r@.len() ==> r@[j] < r@[k],
            decreases flags.len() - i,
        {
            if flags[i] {
                let ghost prev = r@;
                r.push(i);
                assert forall|u: int| 0 <= u < i + 1 && #[trigger] flags@[u] implies r@.contains(u as usize) by {
                    if u == i {
                        assert(r@[r@.len() - 1] == i);
                    } else {
                        let w = choose|w: int| 0 <= w < prev.len() && prev[w] == u as usize;
                        assert(r@[w] == u as usize);
                    }
                }
            }
            i += 1;
        }
        r
    }

    /// Generates the plan for a request against the applied migrations that
    /// the tracking rows record: exactly `plan_of` over the registry.
    pub fn generate_migration_plan(&self, plan: &Plan, rows: &Vec<MigrationKey>) -> (r: Result<
        Vec<usize>,
        Error,
    >)
        ensures
            result_view(r) == plan_of(self@, applied_of(self@, rows@), *plan),
    {
        let applied = self.applied_flags(rows);
        resolve_plan(self.migrations(), &applied, plan)
    }
}

} // verus!
