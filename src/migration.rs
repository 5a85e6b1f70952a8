//! The data model: migration identities, declarations and registered nodes.
use vstd::prelude::*;

verus! {

/// Identity of a migration: its app (a namespace) and its name within the app.
#[derive(Debug, Clone, PartialEq, Eq)]
pub struct MigrationKey {
    pub app: String,
    pub name: String,
}

/// A migration as its author declares it. Parents and replaced migrations
/// are declared in full and are registered together with it; `run_before`
/// names migrations that this one must precede, which are not registered
/// through it.
#[derive(Debug)]
pub struct Migration {
    pub app: String,
    pub name: String,
    pub parents: Vec<Migration>,
    pub replaces: Vec<Migration>,
    pub run_before: Vec<MigrationKey>,
    /// Number of operations; they run in order on apply, in reverse on revert.
    pub operation_count: usize,
    /// Whether the operations and the tracking row share one transaction.
    pub is_atomic: bool,
}

/// A registered migration. Parents and replaced migrations are positions
/// in the registry.
#[derive(Debug, Clone)]
pub struct MigrationNode {
    pub app: String,
    pub name: String,
    pub parents: Vec<usize>,
    pub replaces: Vec<usize>,
    pub run_before: Vec<MigrationKey>,
    pub operation_count: usize,
    pub is_atomic: bool,
}

/// One of the migrations of `ms` declares the identity within `depth`
/// levels: it is the migration's own, or one that its parents or replaced
/// migrations declare within one level less. Migrations that a migration
/// runs before are not followed.
pub open spec fn declares_in(ms: Seq<Migration>, app: Seq<char>, name: Seq<char>, depth: int) -> bool
    decreases depth, ms.len(),
{
    if depth <= 0 || ms.len() == 0 {
        false
    } else {
        let m = ms.last();
        (m.app@ == app && m.name@ == name) || declares_in(m.parents@, app, name, depth - 1)
            || declares_in(m.replaces@, app, name, depth - 1) || declares_in(
            ms.drop_last(),
            app,
            name,
            depth,
        )
    }
}

/// `m` declares the identity: it is `m`'s own, or one that a parent or a
/// replaced migration of `m` declares, at any depth.
pub open spec fn declares(m: Migration, app: Seq<char>, name: Seq<char>) -> bool {
    exists|depth: int| #[trigger] declares_in(seq![m], app, name, depth)
}

proof fn lemma_declares_in_some(ms: Seq<Migration>, app: Seq<char>, name: Seq<char>, depth: int)
    ensures
        declares_in(ms, app, name, depth) <==> exists|k: int|
            0 <= k < ms.len() && #[trigger] declares_in(seq![ms[k]], app, name, depth),
    decreases ms.len(),
{
    if ms.len() > 0 {
        let d = ms.drop_last();
        lemma_declares_in_some(d, app, name, depth);
        let last = ms.last();
        assert(seq![last].last() == last);
        assert(seq![last].drop_last() =~= Seq::<Migration>::empty());
        assert(ms[ms.len() - 1] == last);
        assert(!declares_in(seq![last].drop_last(), app, name, depth));
        assert(declares_in(seq![last], app, name, depth) == (depth > 0 && ((last.app@ == app && last.name@ == name)
            || declares_in(last.parents@, app, name, depth - 1) || declares_in(last.replaces@, app, name, depth - 1))));
        assert(declares_in(ms, app, name, depth) == (depth > 0 && ((last.app@ == app && last.name@ == name)
            || declares_in(last.parents@, app, name, depth - 1) || declares_in(last.replaces@, app, name, depth - 1)
            || declares_in(d, app, name, depth))));
        if exists|k: int| 0 <= k < ms.len() && #[trigger] declares_in(seq![ms[k]], app, name, depth) {
            let k = choose|k: int| 0 <= k < ms.len() && #[trigger] declares_in(seq![ms[k]], app, name, depth);
            if k < ms.len() - 1 {
                assert(d[k] == ms[k]);
            }
        }
        if exists|k: int| 0 <= k < d.len() && #[trigger] declares_in(seq![d[k]], app, name, depth) {
            let k = choose|k: int| 0 <= k < d.len() && #[trigger] declares_in(seq![d[k]], app, name, depth);
            assert(d[k] == ms[k]);
        }
    }
}

/// `m` declares exactly its own identity and those declared below it.
pub proof fn lemma_declares_unfold(m: Migration, app: Seq<char>, name: Seq<char>)
    ensures
        declares(m, app, name) <==> ((m.app@ == app && m.name@ == name) || declares_below(m, app, name)),
{
    let s = seq![m];
    assert(s.last() == m);
    assert(s.drop_last() =~= Seq::<Migration>::empty());
    if declares(m, app, name) && !(m.app@ == app && m.name@ == name) {
        let d = choose|d: int| #[trigger] declares_in(s, app, name, d);
        assert(d > 0);
        assert(s.len() == 1);
        assert(declares_in(s, app, name, d) == ((m.app@ == app && m.name@ == name) || declares_in(m.parents@, app, name, d - 1) || declares_in(m.replaces@, app, name, d - 1) || declares_in(s.drop_last(), app, name, d)));
        assert(!declares_in(s.drop_last(), app, name, d));
        lemma_declares_in_some(m.parents@, app, name, d - 1);
        lemma_declares_in_some(m.replaces@, app, name, d - 1);
        if declares_in(m.parents@, app, name, d - 1) {
            let k = choose|k: int| 0 <= k < m.parents@.len() && #[trigger] declares_in(seq![m.parents@[k]], app, name, d - 1);
            assert(declares(m.parents@[k], app, name));
        } else {
            let k = choose|k: int| 0 <= k < m.replaces@.len() && #[trigger] declares_in(seq![m.replaces@[k]], app, name, d - 1);
            assert(declares(m.replaces@[k], app, name));
        }
    }
    if m.app@ == app && m.name@ == name {
        assert(declares_in(s, app, name, 1));
    }
    if declares_some(m.parents@, m.parents@.len() as int, app, name) {
        let k = choose|k: int| 0 <= k < m.parents@.len() && #[trigger] declares(m.parents@[k], app, name);
        let d = choose|d: int| #[trigger] declares_in(seq![m.parents@[k]], app, name, d);
        lemma_declares_in_some(m.parents@, app, name, d);
        assert(declares_in(s, app, name, d + 1));
    }
    if declares_some(m.replaces@, m.replaces@.len() as int, app, name) {
        let k = choose|k: int| 0 <= k < m.replaces@.len() && #[trigger] declares(m.replaces@[k], app, name);
        let d = choose|d: int| #[trigger] declares_in(seq![m.replaces@[k]], app, name, d);
        lemma_declares_in_some(m.replaces@, app, name, d);
        assert(declares_in(s, app, name, d + 1));
    }
}

/// `d` is one of the migrations of `ms` or lies below one of them, within
/// `depth` levels of parents and replaced migrations.
pub open spec fn sub_in(ms: Seq<Migration>, d: Migration, depth: int) -> bool
    decreases depth, ms.len(),
{
    if depth <= 0 || ms.len() == 0 {
        false
    } else {
        let m = ms.last();
        m == d || sub_in(m.parents@, d, depth - 1) || sub_in(m.replaces@, d, depth - 1) || sub_in(
            ms.drop_last(),
            d,
            depth,
        )
    }
}

/// `d` is `m` or a declaration reached from `m` through parents and
/// replaced migrations.
pub open spec fn is_sub(d: Migration, m: Migration) -> bool {
    exists|depth: int| #[trigger] sub_in(seq![m], d, depth)
}

proof fn lemma_sub_in_some(ms: Seq<Migration>, d: Migration, depth: int)
    ensures
        (exists|k: int| 0 <= k < ms.len() && #[trigger] sub_in(seq![ms[k]], d, depth)) ==> sub_in(ms, d, depth),
    decreases ms.len(),
{
    if ms.len() > 0 {
        let dl = ms.drop_last();
        lemma_sub_in_some(dl, d, depth);
        let last = ms.last();
        assert(ms[ms.len() - 1] == last);
        assert(!sub_in(seq![last].drop_last(), d, depth));
        assert(sub_in(seq![last], d, depth) == (depth > 0 && (last == d || sub_in(last.parents@, d, depth - 1)
            || sub_in(last.replaces@, d, depth - 1))));
        assert(sub_in(ms, d, depth) == (depth > 0 && (last == d || sub_in(last.parents@, d, depth - 1)
            || sub_in(last.replaces@, d, depth - 1) || sub_in(dl, d, depth))));
        if exists|k: int| 0 <= k < ms.len() && #[trigger] sub_in(seq![ms[k]], d, depth) {
            let k = choose|k: int| 0 <= k < ms.len() && #[trigger] sub_in(seq![ms[k]], d, depth);
            if k < ms.len() - 1 {
                assert(dl[k] == ms[k]);
            }
        }
    }
}

/// A migration is reached from itself.
pub proof fn lemma_sub_self(m: Migration)
    ensures
        is_sub(m, m),
{
    assert(seq![m].last() == m);
    assert(sub_in(seq![m], m, 1));
}

/// What a parent or a replaced migration of `m` reaches, `m` reaches.
pub proof fn lemma_sub_step(m: Migration, d: Migration)
    ensures
        (exists|k: int| 0 <= k < m.parents@.len() && #[trigger] is_sub(d, m.parents@[k])) ==> is_sub(d, m),
        (exists|k: int| 0 <= k < m.replaces@.len() && #[trigger] is_sub(d, m.replaces@[k])) ==> is_sub(d, m),
{
    let s = seq![m];
    assert(s.last() == m);
    assert(s.drop_last() =~= Seq::<Migration>::empty());
    if exists|k: int| 0 <= k < m.parents@.len() && #[trigger] is_sub(d, m.parents@[k]) {
        let k = choose|k: int| 0 <= k < m.parents@.len() && #[trigger] is_sub(d, m.parents@[k]);
        let t = choose|t: int| #[trigger] sub_in(seq![m.parents@[k]], d, t);
        lemma_sub_in_some(m.parents@, d, t);
        assert(sub_in(m.parents@, d, t));
        assert(t > 0);
        assert(sub_in(s, d, t + 1));
    }
    if exists|k: int| 0 <= k < m.replaces@.len() && #[trigger] is_sub(d, m.replaces@[k]) {
        let k = choose|k: int| 0 <= k < m.replaces@.len() && #[trigger] is_sub(d, m.replaces@[k]);
        let t = choose|t: int| #[trigger] sub_in(seq![m.replaces@[k]], d, t);
        lemma_sub_in_some(m.replaces@, d, t);
        assert(sub_in(m.replaces@, d, t));
        assert(t > 0);
        assert(sub_in(s, d, t + 1));
    }
}

/// One of the first `n` migrations of `ms` declares the identity.
pub open spec fn declares_some(ms: Seq<Migration>, n: int, app: Seq<char>, name: Seq<char>) -> bool {
    exists|k: int| 0 <= k < n && #[trigger] declares(ms[k], app, name)
}

/// A parent or a replaced migration of `m`, or one further down, declares
/// the identity.
pub open spec fn declares_below(m: Migration, app: Seq<char>, name: Seq<char>) -> bool {
    declares_some(m.parents@, m.parents@.len() as int, app, name) || declares_some(
        m.replaces@,
        m.replaces@.len() as int,
        app,
        name,
    )
}

/// The node at position `r` records the declaration `m`: its identity, the
/// positions of its parents and replaced migrations in declared order,
/// its run-before identities, its operation count and its atomicity.
pub open spec fn describes(g: Seq<MigrationNode>, r: int, m: Migration) -> bool {
    &&& 0 <= r < g.len()
    &&& g[r].app@ == m.app@
    &&& g[r].name@ == m.name@
    &&& g[r].parents@.len() == m.parents@.len()
    &&& forall|k: int|
        0 <= k < m.parents@.len() ==> g[#[trigger] g[r].parents@[k] as int].app@ == m.parents@[k].app@
            && g[g[r].parents@[k] as int].name@ == m.parents@[k].name@
    &&& g[r].replaces@.len() == m.replaces@.len()
    &&& forall|k: int|
        0 <= k < m.replaces@.len() ==> g[#[trigger] g[r].replaces@[k] as int].app@
            == m.replaces@[k].app@ && g[g[r].replaces@[k] as int].name@ == m.replaces@[k].name@
    &&& g[r].run_before@.len() == m.run_before@.len()
    &&& forall|t: int|
        0 <= t < m.run_before@.len() ==> (#[trigger] g[r].run_before@[t]).app@ == m.run_before@[t].app@
            && g[r].run_before@[t].name@ == m.run_before@[t].name@
    &&& g[r].operation_count == m.operation_count
    &&& g[r].is_atomic == m.is_atomic
}

/// The node has the given identity.
pub open spec fn same_key(node: MigrationNode, key: MigrationKey) -> bool {
    node.app@ == key.app@ && node.name@ == key.name@
}

/// A registry: positions of parents and replaced migrations are in range and
/// no two nodes share an identity.
pub open spec fn registry_wf(g: Seq<MigrationNode>) -> bool {
    &&& g.len() <= usize::MAX
    &&& forall|i: int, k: int|
        0 <= i < g.len() && 0 <= k < g[i].parents@.len() ==> #[trigger] g[i].parents@[k] < g.len()
    &&& forall|i: int, k: int|
        0 <= i < g.len() && 0 <= k < g[i].replaces@.len() ==> #[trigger] g[i].replaces@[k]
            < g.len()
    &&& forall|i: int, j: int|
        0 <= i < g.len() && 0 <= j < g.len() && i != j ==> !(#[trigger] g[i].app@ == #[trigger] g[j].app@
            && g[i].name@ == g[j].name@)
}

/// Whether two strings hold the same characters.
pub fn str_eq(a: &String, b: &String) -> (r: bool)
    ensures
        r == (a@ == b@),
{
    *a == *b
}

/// Whether the node has the given identity.
pub fn has_key(node: &MigrationNode, key: &MigrationKey) -> (r: bool)
    ensures
        r == same_key(*node, *key),
{
    str_eq(&node.app, &key.app) && str_eq(&node.name, &key.name)
}

/// Whether a list of positions holds `x`.
pub fn contains_index(v: &Vec<usize>, x: usize) -> (r: bool)
    ensures
        r == v@.contains(x),
{
    let mut i: usize = 0;
    while i < v.len()
        invariant
            i <= v.len(),
            forall|j: int| 0 <= j < i ==> v@[j] != x,
        decreases v.len() - i,
    {
        if v[i] == x {
            assert(v@[i as int] == x);
            return true;
        }
        i += 1;
    }
    false
}

} // verus!
