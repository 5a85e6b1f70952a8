//! Linearisation of the registry: repeated passes that append every
//! migration whose predecessors are already placed.
use vstd::prelude::*;
use vstd::seq_lib::seq_to_set_is_finite;
use vstd::set_lib::{lemma_len_subset, lemma_subset_equality};

use crate::migration::{MigrationNode, same_key, registry_wf, has_key, contains_index};

verus! {

/// `a` must stand before `b`: `a` is a parent of `b`, or `a` names `b`
/// among the migrations it runs before.
pub open spec fn precedes(g: Seq<MigrationNode>, a: int, b: int) -> bool {
    &&& 0 <= a < g.len()
    &&& 0 <= b < g.len()
    &&& (g[b].parents@.contains(a as usize) || exists|t: int|
        0 <= t < g[a].run_before@.len() && #[trigger] same_key(g[b], g[a].run_before@[t]))
}

/// Every predecessor of `i` is already in `plan`.
pub open spec fn ready(g: Seq<MigrationNode>, plan: Seq<usize>, i: int) -> bool {
    forall|a: int| #[trigger] precedes(g, a, i) ==> plan.contains(a as usize)
}

/// One pass over the registry from position `i` on, in registry order,
/// appending each unplaced migration that is ready at that moment.
pub open spec fn pass(g: Seq<MigrationNode>, plan: Seq<usize>, i: int) -> Seq<usize>
    decreases g.len() - i,
{
    if i < 0 || i >= g.len() {
        plan
    } else {
        let next = if !plan.contains(i as usize) && ready(g, plan, i) {
            plan.push(i as usize)
        } else {
            plan
        };
        pass(g, next, i + 1)
    }
}

/// Passes repeated until every migration is placed; `None` when a pass
/// places nothing new.
pub open spec fn linearize_from(g: Seq<MigrationNode>, plan: Seq<usize>) -> Option<Seq<usize>>
    decreases g.len() - plan.len(),
{
    if plan.len() >= g.len() {
        Some(plan)
    } else {
        let next = pass(g, plan, 0);
        if next.len() <= plan.len() {
            None
        } else if next.len() >= g.len() {
            Some(next)
        } else {
            linearize_from(g, next)
        }
    }
}

/// The linear order of the whole registry, if one is found.
pub open spec fn linearization(g: Seq<MigrationNode>) -> Option<Seq<usize>> {
    linearize_from(g, Seq::empty())
}

/// `c` is a closed walk along the precedence relation.
pub open spec fn is_cycle(g: Seq<MigrationNode>, c: Seq<int>) -> bool {
    &&& c.len() >= 1
    &&& forall|k: int| 0 <= k < c.len() - 1 ==> #[trigger] precedes(g, c[k], c[k + 1])
    &&& precedes(g, c[c.len() - 1], c[0])
}

/// Positions in range, no repeats, and each element preceded by all of its
/// predecessors.
pub open spec fn valid_order(g: Seq<MigrationNode>, p: Seq<usize>) -> bool {
    &&& p.no_duplicates()
    &&& forall|k: int| 0 <= k < p.len() ==> #[trigger] p[k] < g.len()
    &&& forall|k: int, a: int|
        0 <= k < p.len() && #[trigger] precedes(g, a, p[k] as int) ==> p.subrange(0, k).contains(
            a as usize,
        )
}

/// The positions below `n`.
pub open spec fn below(n: nat) -> Set<usize> {
    Set::new(|x: usize| (x as int) < n)
}

proof fn lemma_below(n: nat)
    requires
        n <= usize::MAX + 1,
    ensures
        below(n).finite(),
        below(n).len() == n,
    decreases n,
{
    if n == 0 {
        assert(below(0) =~= Set::empty());
    } else {
        lemma_below((n - 1) as nat);
        assert(below((n - 1) as nat).insert((n - 1) as usize) =~= below(n));
    }
}

/// A sequence of distinct positions below `n` has at most `n` elements, and
/// holds every position below `n` when it has exactly `n`.
pub proof fn lemma_distinct_positions(p: Seq<usize>, n: nat)
    requires
        p.no_duplicates(),
        forall|k: int| 0 <= k < p.len() ==> (#[trigger] p[k] as int) < n,
        n <= usize::MAX + 1,
    ensures
        p.len() <= n,
        p.len() == n ==> forall|x: usize| (x as int) < n ==> p.contains(x),
        (forall|x: usize| (x as int) < n ==> p.contains(x)) ==> p.len() == n,
{
    lemma_below(n);
    p.unique_seq_to_set();
    seq_to_set_is_finite(p);
    if forall|x: usize| (x as int) < n ==> p.contains(x) {
        assert(below(n).subset_of(p.to_set()));
        lemma_len_subset(below(n), p.to_set());
    }
    assert(p.to_set().subset_of(below(n))) by {
        assert forall|x: usize| p.to_set().contains(x) implies below(n).contains(x) by {
            let k = choose|k: int| 0 <= k < p.len() && p[k] == x;
            assert(p[k] < n);
        }
    }
    lemma_len_subset(p.to_set(), below(n));
    if p.len() == n {
        lemma_subset_equality(p.to_set(), below(n));
        assert forall|x: usize| (x as int) < n implies p.contains(x) by {
            assert(below(n).contains(x));
            assert(p.to_set().contains(x));
        }
    }
}

/// Whether `a` runs before `b`.
fn runs_before(a: &MigrationNode, b: &MigrationNode) -> (r: bool)
    ensures
        r == exists|t: int| 0 <= t < a.run_before@.len() && #[trigger] same_key(*b, a.run_before@[t]),
{
    let mut t: usize = 0;
    while t < a.run_before.len()
        invariant
            t <= a.run_before@.len(),
            forall|u: int| 0 <= u < t ==> !#[trigger] same_key(*b, a.run_before@[u]),
        decreases a.run_before.len() - t,
    {
        if has_key(b, &a.run_before[t]) {
            return true;
        }
        t += 1;
    }
    false
}

/// `placed` marks exactly the positions in `plan`.
pub open spec fn marks(plan: Seq<usize>, placed: Seq<bool>, n: int) -> bool {
    &&& placed.len() == n
    &&& forall|k: int| 0 <= k < n ==> #[trigger] placed[k] == plan.contains(k as usize)
}

fn is_ready(g: &Vec<MigrationNode>, placed: &Vec<bool>, i: usize, Ghost(plan): Ghost<Seq<usize>>) -> (r: bool)
    requires
        registry_wf(g@),
        i < g.len(),
        marks(plan, placed@, g@.len() as int),
    ensures
        r == ready(g@, plan, i as int),
{
    let node = &g[i];
    let mut k: usize = 0;
    while k < node.parents.len()
        invariant
            registry_wf(g@),
            i < g.len(),
            *node == g@[i as int],
            marks(plan, placed@, g@.len() as int),
            k <= node.parents@.len(),
            forall|u: int| 0 <= u < k ==> plan.contains(#[trigger] node.parents@[u]),
        decreases node.parents.len() - k,
    {
        let p = node.parents[k];
        assert(p < g@.len());
        if !placed[p] {
            assert(node.parents@.contains(p)) by {
                assert(node.parents@[k as int] == p);
            }
            assert(precedes(g@, p as int, i as int));
            return false;
        }
        k += 1;
    }
    let mut j: usize = 0;
    while j < g.len()
        invariant
            registry_wf(g@),
            i < g.len(),
            *node == g@[i as int],
            marks(plan, placed@, g@.len() as int),
            j <= g@.len(),
            forall|u: int| 0 <= u < node.parents@.len() ==> plan.contains(#[trigger] node.parents@[u]),
            forall|a: int| 0 <= a < j && #[trigger] precedes(g@, a, i as int) ==> plan.contains(a as usize),
        decreases g.len() - j,
    {
        let rb = runs_before(&g[j], node);
        if !placed[j] && rb {
            assert(precedes(g@, j as int, i as int));
            return false;
        }
        proof {
            if precedes(g@, j as int, i as int) {
                if g@[i as int].parents@.contains(j) {
                    let u = choose|u: int| 0 <= u < node.parents@.len() && node.parents@[u] == j;
                    assert(plan.contains(node.parents@[u]));
                }
            }
        }
        j += 1;
    }
    assert forall|a: int| #[trigger] precedes(g@, a, i as int) implies plan.contains(a as usize) by {
        assert(0 <= a < j);
    }
    true
}

/// The linear order of the registry: `None` exactly when some pass places
/// nothing new, which happens exactly when the precedence relation has a cycle.
pub fn linearize(g: &Vec<MigrationNode>) -> (r: Option<Vec<usize>>)
    requires
        registry_wf(g@),
    ensures
        r.is_none() == linearization(g@).is_none(),
        r.is_some() ==> linearization(g@) == Some(r->Some_0@),
{
    let n = g.len();
    let mut plan: Vec<usize> = Vec::new();
    let mut placed: Vec<bool> = Vec::new();
    let mut z: usize = 0;
    while z < n
        invariant
            z <= n,
            placed@.len() == z,
            forall|k: int| 0 <= k < z ==> !#[trigger] placed@[k],
        decreases n - z,
    {
        placed.push(false);
        z += 1;
    }
    assert(marks(plan@, placed@, n as int));
    while plan.len() < n
        invariant
            n == g@.len(),
            registry_wf(g@),
            marks(plan@, placed@, n as int),
            plan@.no_duplicates(),
            forall|k: int| 0 <= k < plan@.len() ==> #[trigger] plan@[k] < n,
            linearize_from(g@, plan@) == linearization(g@),
        decreases n - plan.len(),
    {
        let ghost start = plan@;
        let before = plan.len();
        let mut i: usize = 0;
        while i < n
            invariant
                n == g@.len(),
                registry_wf(g@),
                i <= n,
                marks(plan@, placed@, n as int),
                plan@.no_duplicates(),
                forall|k: int| 0 <= k < plan@.len() ==> #[trigger] plan@[k] < n,
                pass(g@, plan@, i as int) == pass(g@, start, 0),
                plan@.len() >= before,
                before == start.len(),
            decreases n - i,
        {
            let ready_now = !placed[i] && is_ready(g, &placed, i, Ghost(plan@));
            if ready_now {
                let ghost old_plan = plan@;
                plan.push(i);
                placed.set(i, true);
                assert forall|k: int| 0 <= k < n implies #[trigger] placed@[k] == plan@.contains(k as usize) by {
                    if k == i {
                        assert(plan@[plan@.len() - 1] == i);
                    } else {
                        assert(old_plan.contains(k as usize) ==> plan@.contains(k as usize)) by {
                            if old_plan.contains(k as usize) {
                                let w = choose|w: int| 0 <= w < old_plan.len() && old_plan[w] == k as usize;
                                assert(plan@[w] == k as usize);
                            }
                        }
                        assert(plan@.contains(k as usize) ==> old_plan.contains(k as usize)) by {
                            if plan@.contains(k as usize) {
                                let w = choose|w: int| 0 <= w < plan@.len() && plan@[w] == k as usize;
                                assert(w < old_plan.len());
                                assert(old_plan[w] == k as usize);
                            }
                        }
                    }
                }
            }
            i += 1;
        }
        proof {
            lemma_distinct_positions(plan@, n as nat);
        }
        if plan.len() == before {
            return None;
        }
    }
    Some(plan)
}

/// Appending a ready, unplaced position keeps an order valid.
proof fn lemma_push_valid(g: Seq<MigrationNode>, plan: Seq<usize>, i: int)
    requires
        registry_wf(g),
        valid_order(g, plan),
        0 <= i < g.len(),
        !plan.contains(i as usize),
        ready(g, plan, i),
    ensures
        valid_order(g, plan.push(i as usize)),
{
    let q = plan.push(i as usize);
    assert forall|a: int, b: int| 0 <= a < q.len() && 0 <= b < q.len() && a != b implies q[a] != q[b] by {
        if a == plan.len() {
            assert(plan[b] != i as usize);
        } else if b == plan.len() {
            assert(plan[a] != i as usize);
        }
    }
    assert forall|k: int, a: int|
        0 <= k < q.len() && #[trigger] precedes(g, a, q[k] as int) implies q.subrange(0, k).contains(
        a as usize,
    ) by {
        if k == plan.len() {
            assert(q[k] as int == i);
            assert(precedes(g, a, i));
            assert(q.subrange(0, k) =~= plan);
        } else {
            assert(q.subrange(0, k) =~= plan.subrange(0, k));
        }
    }
}

/// A pass keeps an order valid and never shrinks it; when it adds nothing,
/// no unplaced position from `i` on is ready.
proof fn lemma_pass(g: Seq<MigrationNode>, plan: Seq<usize>, i: int)
    requires
        registry_wf(g),
        valid_order(g, plan),
        0 <= i,
    ensures
        valid_order(g, pass(g, plan, i)),
        pass(g, plan, i).len() >= plan.len(),
        pass(g, plan, i).len() == plan.len() ==> forall|j: int|
            i <= j < g.len() ==> plan.contains(j as usize) || !ready(g, plan, j),
    decreases g.len() - i,
{
    if i < g.len() {
        if !plan.contains(i as usize) && ready(g, plan, i) {
            lemma_push_valid(g, plan, i);
            lemma_pass(g, plan.push(i as usize), i + 1);
        } else {
            lemma_pass(g, plan, i + 1);
        }
    }
}

/// When no unplaced position is ready, a walk backwards from an unplaced
/// position: each step goes to an unplaced predecessor of the last.
pub open spec fn back_walk(g: Seq<MigrationNode>, plan: Seq<usize>, x: int, k: nat) -> int
    decreases k,
{
    if k == 0 {
        x
    } else {
        let y = back_walk(g, plan, x, (k - 1) as nat);
        choose|a: int| #[trigger] precedes(g, a, y) && !plan.contains(a as usize)
    }
}

proof fn lemma_back_walk(g: Seq<MigrationNode>, plan: Seq<usize>, x: int, k: nat)
    requires
        0 <= x < g.len(),
        !plan.contains(x as usize),
        forall|j: int| 0 <= j < g.len() ==> plan.contains(j as usize) || !ready(g, plan, j),
    ensures
        0 <= back_walk(g, plan, x, k) < g.len(),
        !plan.contains(back_walk(g, plan, x, k) as usize),
        k > 0 ==> precedes(g, back_walk(g, plan, x, k), back_walk(g, plan, x, (k - 1) as nat)),
    decreases k,
{
    if k > 0 {
        lemma_back_walk(g, plan, x, (k - 1) as nat);
        let y = back_walk(g, plan, x, (k - 1) as nat);
        assert(!ready(g, plan, y));
    }
}

/// When no unplaced position is ready and some position is unplaced, the
/// precedence relation has a cycle.
proof fn lemma_stuck_has_cycle(g: Seq<MigrationNode>, plan: Seq<usize>, x: int) -> (c: Seq<int>)
    requires
        registry_wf(g),
        0 <= x < g.len(),
        !plan.contains(x as usize),
        forall|j: int| 0 <= j < g.len() ==> plan.contains(j as usize) || !ready(g, plan, j),
    ensures
        is_cycle(g, c),
{
    let n = g.len();
    let w = Seq::new(n + 1, |k: int| back_walk(g, plan, x, k as nat) as usize);
    assert forall|k: int| 0 <= k < w.len() implies (#[trigger] w[k] as int) < n by {
        lemma_back_walk(g, plan, x, k as nat);
    }
    if w.no_duplicates() {
        lemma_distinct_positions(w, n);
    }
    assert(!w.no_duplicates());
    let (i0, j0) = choose|i: int, j: int| 0 <= i < w.len() && 0 <= j < w.len() && i != j && w[i] == w[j];
    let i = if i0 < j0 { i0 } else { j0 };
    let j = if i0 < j0 { j0 } else { i0 };
    lemma_back_walk(g, plan, x, i as nat);
    lemma_back_walk(g, plan, x, j as nat);
    let c = Seq::new((j - i) as nat, |t: int| back_walk(g, plan, x, (j - t) as nat));
    assert forall|t: int| 0 <= t < c.len() - 1 implies #[trigger] precedes(g, c[t], c[t + 1]) by {
        lemma_back_walk(g, plan, x, (j - t) as nat);
        assert((j - t - 1) as nat == ((j - t) as nat - 1) as nat);
    }
    lemma_back_walk(g, plan, x, (i + 1) as nat);
    assert(back_walk(g, plan, x, j as nat) == back_walk(g, plan, x, i as nat));
    assert(c[c.len() - 1] == back_walk(g, plan, x, (i + 1) as nat));
    c
}

proof fn lemma_linearize_from(g: Seq<MigrationNode>, plan: Seq<usize>)
    requires
        registry_wf(g),
        valid_order(g, plan),
    ensures
        linearize_from(g, plan) matches Some(p) ==> valid_order(g, p) && p.len() == g.len(),
        (forall|c: Seq<int>| !#[trigger] is_cycle(g, c)) ==> linearize_from(g, plan).is_some(),
    decreases g.len() - plan.len(),
{
    lemma_distinct_positions(plan, g.len());
    if plan.len() < g.len() {
        let next = pass(g, plan, 0);
        lemma_pass(g, plan, 0);
        lemma_distinct_positions(next, g.len());
        if next.len() <= plan.len() {
            if !(forall|x: usize| (x as int) < g.len() ==> plan.contains(x)) {
                let x = choose|x: usize| (x as int) < g.len() && !plan.contains(x);
                let c = lemma_stuck_has_cycle(g, plan, x as int);
                assert(is_cycle(g, c));
            }
        } else if next.len() < g.len() {
            lemma_linearize_from(g, next);
        }
    }
}

/// A linearisation, when found, is a valid order of every position.
pub proof fn lemma_linearization_valid(g: Seq<MigrationNode>)
    requires
        registry_wf(g),
    ensures
        linearization(g) matches Some(p) ==> valid_order(g, p) && p.len() == g.len(),
{
    assert(valid_order(g, Seq::empty()));
    lemma_linearize_from(g, Seq::empty());
}

/// In a valid order holding every position, each predecessor stands earlier.
proof fn lemma_order_respects(g: Seq<MigrationNode>, p: Seq<usize>)
    requires
        valid_order(g, p),
    ensures
        forall|j: int, k: int|
            0 <= j < p.len() && 0 <= k < p.len() && #[trigger] precedes(g, p[j] as int, p[k] as int)
                ==> j < k,
{
    assert forall|j: int, k: int|
        0 <= j < p.len() && 0 <= k < p.len() && #[trigger] precedes(g, p[j] as int, p[k] as int)
            implies j < k by {
        assert(p.subrange(0, k).contains(p[j]));
        let w = choose|w: int| 0 <= w < k && p.subrange(0, k)[w] == p[j];
        assert(p[w] == p[j]);
    }
}

/// For a registry whose precedence relation has no cycle, the linearisation exists, holds every migration exactly once,
/// and places each migration after its parents and after every migration
/// that runs before it.
pub proof fn lemma_linearization_complete(g: Seq<MigrationNode>)
    requires
        registry_wf(g),
        forall|c: Seq<int>| !#[trigger] is_cycle(g, c),
    ensures
        linearization(g) is Some,
        linearization(g)->Some_0.len() == g.len(),
        linearization(g)->Some_0.no_duplicates(),
        forall|x: usize| (x as int) < g.len() ==> linearization(g)->Some_0.contains(x),
        forall|j: int, k: int|
            0 <= j < g.len() && 0 <= k < g.len() && #[trigger] precedes(
                g,
                linearization(g)->Some_0[j] as int,
                linearization(g)->Some_0[k] as int,
            ) ==> j < k,
{
    assert(valid_order(g, Seq::empty()));
    lemma_linearize_from(g, Seq::empty());
    let p = linearization(g)->Some_0;
    lemma_distinct_positions(p, g.len());
    lemma_order_respects(g, p);
}

/// A registry whose precedence relation has a cycle has no linearisation.
pub proof fn lemma_cycle_fails(g: Seq<MigrationNode>, c: Seq<int>)
    requires
        registry_wf(g),
        is_cycle(g, c),
    ensures
        linearization(g) is None,
{
    assert(valid_order(g, Seq::empty()));
    lemma_linearize_from(g, Seq::empty());
    if linearization(g) is Some {
        let p = linearization(g)->Some_0;
        lemma_distinct_positions(p, g.len());
        lemma_order_respects(g, p);
        let pos = |x: int| choose|j: int| 0 <= j < p.len() && p[j] as int == x;
        assert forall|k: int| 0 <= k < c.len() implies 0 <= #[trigger] pos(c[k]) < p.len()
            && p[pos(c[k])] as int == c[k] by {
            if k < c.len() - 1 {
                assert(precedes(g, c[k], c[k + 1]));
            } else {
                assert(precedes(g, c[c.len() - 1], c[0]));
            }
            assert(0 <= c[k] < g.len());
            assert(p.contains(c[k] as usize));
            let w = choose|w: int| 0 <= w < p.len() && p[w] == c[k] as usize;
            assert(p[w] as int == c[k]);
        }
        assert forall|k: int| 0 <= k < c.len() implies pos(c[0]) <= #[trigger] pos(c[k]) by {
            lemma_chain(g, p, c, pos, k);
        }
        let last = c.len() - 1;
        assert(precedes(g, p[pos(c[last])] as int, p[pos(c[0])] as int));
    }
}

proof fn lemma_chain(g: Seq<MigrationNode>, p: Seq<usize>, c: Seq<int>, pos: spec_fn(int) -> int, k: int)
    requires
        is_cycle(g, c),
        0 <= k < c.len(),
        forall|j: int, k: int|
            0 <= j < p.len() && 0 <= k < p.len() && #[trigger] precedes(g, p[j] as int, p[k] as int)
                ==> j < k,
        forall|k: int| 0 <= k < c.len() ==> 0 <= #[trigger] pos(c[k]) < p.len()
            && p[pos(c[k])] as int == c[k],
    ensures
        pos(c[0]) <= pos(c[k]),
    decreases k,
{
    if k > 0 {
        lemma_chain(g, p, c, pos, k - 1);
        assert(pos(c[k - 1]) < p.len());
        assert(pos(c[k]) < p.len());
        assert(precedes(g, c[k - 1], c[(k - 1) + 1]));
        assert(precedes(g, p[pos(c[k - 1])] as int, p[pos(c[k])] as int));
    }
}

} // verus!
