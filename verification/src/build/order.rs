//! Topological order of the modules of a workspace (Kahn's algorithm).
use super::BuildError;
use crate::domain::Module;
use crate::seqs::{lemma_contains_concat, lemma_contains_push};
use crate::text::str_eq;
use vstd::prelude::*;

verus! {

/// The workspace dependency names of a module, as character sequences.
pub open spec fn deps_of(m: Module) -> Seq<Seq<char>> {
    m.workspace_dependencies@.map_values(|s: String| s@)
}

/// Index of the last module called `name` in `modules`, or -1 when there is none.
pub open spec fn last_index_named(modules: Seq<Module>, name: Seq<char>) -> int
    decreases modules.len(),
{
    if modules.len() == 0 {
        -1
    } else if modules.last().name@ == name {
        modules.len() - 1
    } else {
        last_index_named(modules.drop_last(), name)
    }
}

/// Dependency `j` of module `i` names no module of the workspace.
pub open spec fn is_unknown(modules: Seq<Module>, i: int, j: int) -> bool {
    last_index_named(modules, deps_of(modules[i])[j]) < 0
}

/// Every dependency name of every module names a module.
pub open spec fn all_known(modules: Seq<Module>) -> bool {
    forall|i: int, j: int|
        0 <= i < modules.len() && 0 <= j < deps_of(modules[i]).len() ==> !is_unknown(modules, i, j)
}

/// `(i, j)` is the first unknown dependency, modules and their dependencies taken in order.
pub open spec fn first_unknown(modules: Seq<Module>, i: int, j: int) -> bool {
    &&& 0 <= i < modules.len()
    &&& 0 <= j < deps_of(modules[i]).len()
    &&& is_unknown(modules, i, j)
    &&& forall|a: int, b: int|
        0 <= a < modules.len() && 0 <= b < deps_of(modules[a]).len() && (a < i || (a == i && b < j))
            ==> !is_unknown(modules, a, b)
}

/// Edges `(dependency, dependent)` contributed by module `i`, one per declared name.
pub open spec fn edges_of_module(modules: Seq<Module>, i: int) -> Seq<(int, int)> {
    deps_of(modules[i]).map_values(|d: Seq<char>| (last_index_named(modules, d), i))
}

/// Edges contributed by the first `n` modules, in declaration order.
pub open spec fn edges_upto(modules: Seq<Module>, n: int) -> Seq<(int, int)>
    decreases n,
{
    if n <= 0 {
        Seq::empty()
    } else {
        edges_upto(modules, n - 1) + edges_of_module(modules, n - 1)
    }
}

/// All dependency edges `(dependency, dependent)` of the workspace.
pub open spec fn dependency_edges(modules: Seq<Module>) -> Seq<(int, int)> {
    edges_upto(modules, modules.len() as int)
}

/// Indices `< n` of modules that declare no workspace dependency, ascending.
pub open spec fn roots_upto(modules: Seq<Module>, n: int) -> Seq<int>
    decreases n,
{
    if n <= 0 {
        Seq::empty()
    } else if deps_of(modules[n - 1]).len() == 0 {
        roots_upto(modules, n - 1).push(n - 1)
    } else {
        roots_upto(modules, n - 1)
    }
}

/// Lowers the pending count of every dependent of `x` along `edges` (in order),
/// queueing each one whose count drops to zero.
pub open spec fn release(edges: Seq<(int, int)>, x: int, deg: Seq<int>, queue: Seq<int>) -> (Seq<int>, Seq<int>)
    decreases edges.len(),
{
    if edges.len() == 0 {
        (deg, queue)
    } else {
        let (d, q) = release(edges.drop_last(), x, deg, queue);
        let e = edges.last();
        if e.0 == x {
            let d2 = d.update(e.1, d[e.1] - 1);
            if d2[e.1] == 0 {
                (d2, q.push(e.1))
            } else {
                (d2, q)
            }
        } else {
            (d, q)
        }
    }
}

/// State of Kahn's algorithm: pending counts, FIFO queue, order emitted so far.
pub type KahnState = (Seq<int>, Seq<int>, Seq<int>);

/// One step: emit the head of the queue and release its dependents.
pub open spec fn kahn_step(edges: Seq<(int, int)>, s: KahnState) -> KahnState {
    if s.1.len() == 0 {
        s
    } else {
        let x = s.1[0];
        let (d, q) = release(edges, x, s.0, s.1.drop_first());
        (d, q, s.2.push(x))
    }
}

pub open spec fn kahn_iter(edges: Seq<(int, int)>, s: KahnState, k: nat) -> KahnState
    decreases k,
{
    if k == 0 {
        s
    } else {
        kahn_step(edges, kahn_iter(edges, s, (k - 1) as nat))
    }
}

/// Initial state: every module pending on its number of declared dependencies.
pub open spec fn kahn_init(modules: Seq<Module>) -> KahnState {
    (
        Seq::new(modules.len(), |i: int| deps_of(modules[i]).len() as int),
        roots_upto(modules, modules.len() as int),
        Seq::empty(),
    )
}

/// The order Kahn's algorithm (FIFO queue, dependents released in declaration
/// order) emits; it holds every module exactly when the dependencies are acyclic.
pub open spec fn kahn_order(modules: Seq<Module>) -> Seq<int> {
    kahn_iter(dependency_edges(modules), kahn_init(modules), modules.len()).2
}

/// Names of the modules that `order` does not hold, in index order.
pub open spec fn left_out_upto(modules: Seq<Module>, order: Seq<int>, n: int) -> Seq<Seq<char>>
    decreases n,
{
    if n <= 0 {
        Seq::empty()
    } else if order.contains(n - 1) {
        left_out_upto(modules, order, n - 1)
    } else {
        left_out_upto(modules, order, n - 1).push(modules[n - 1].name@)
    }
}

fn find_last_named(modules: &[Module], name: &String) -> (res: Option<usize>)
    ensures
        match res {
            Some(k) => k as int == last_index_named(modules@, name@) && k < modules@.len(),
            None => last_index_named(modules@, name@) < 0,
        },
{
    let mut k = modules.len();
    proof {
        assert(modules@.take(modules@.len() as int) =~= modules@);
    }
    while k > 0
        invariant
            k <= modules@.len(),
            last_index_named(modules@, name@) == last_index_named(modules@.take(k as int), name@),
        decreases k,
    {
        proof {
            assert(modules@.take(k as int).drop_last() =~= modules@.take(k - 1));
        }
        if str_eq(modules[k - 1].name.as_str(), name.as_str()) {
            return Some(k - 1);
        }
        k = k - 1;
    }
    None
}

} // verus!

verus! {

/// Number of edges into `i` whose source is not in `done`.
pub open spec fn pending(edges: Seq<(int, int)>, done: Seq<int>, i: int) -> nat
    decreases edges.len(),
{
    if edges.len() == 0 {
        0
    } else {
        pending(edges.drop_last(), done, i) + if edges.last().1 == i && !done.contains(edges.last().0) {
            1nat
        } else {
            0nat
        }
    }
}

/// Number of edges `(x, i)`.
pub open spec fn count_edge(edges: Seq<(int, int)>, x: int, i: int) -> nat
    decreases edges.len(),
{
    if edges.len() == 0 {
        0
    } else {
        count_edge(edges.drop_last(), x, i) + if edges.last() == (x, i) {
            1nat
        } else {
            0nat
        }
    }
}

pub open spec fn ints(s: Seq<usize>) -> Seq<int> {
    s.map_values(|x: usize| x as int)
}

pub open spec fn int_edges(s: Seq<(usize, usize)>) -> Seq<(int, int)> {
    s.map_values(|p: (usize, usize)| (p.0 as int, p.1 as int))
}

proof fn lemma_pending_split(edges: Seq<(int, int)>, done: Seq<int>, x: int, i: int)
    requires
        !done.contains(x),
    ensures
        pending(edges, done, i) == pending(edges, done.push(x), i) + count_edge(edges, x, i),
    decreases edges.len(),
{
    if edges.len() > 0 {
        lemma_pending_split(edges.drop_last(), done, x, i);
        let e = edges.last();
        assert(done.push(x).contains(e.0) == (done.contains(e.0) || e.0 == x)) by {
            if e.0 == x {
                assert(done.push(x)[done.len() as int] == x);
            }
            if done.contains(e.0) {
                let k = choose|k: int| 0 <= k < done.len() && done[k] == e.0;
                assert(done.push(x)[k] == e.0);
            }
        }
    }
}

proof fn lemma_count_prefix(edges: Seq<(int, int)>, e: int, x: int, i: int)
    requires
        0 <= e <= edges.len(),
    ensures
        count_edge(edges.take(e), x, i) <= count_edge(edges, x, i),
    decreases edges.len(),
{
    if e < edges.len() {
        assert(edges.drop_last().take(e) =~= edges.take(e));
        lemma_count_prefix(edges.drop_last(), e, x, i);
    } else {
        assert(edges.take(e) =~= edges);
    }
}

proof fn lemma_pending_zero(edges: Seq<(int, int)>, done: Seq<int>, i: int)
    requires
        pending(edges, done, i) == 0,
    ensures
        forall|k: int| 0 <= k < edges.len() && #[trigger] edges[k].1 == i ==> done.contains(edges[k].0),
    decreases edges.len(),
{
    if edges.len() > 0 {
        lemma_pending_zero(edges.drop_last(), done, i);
        assert forall|k: int| 0 <= k < edges.len() && #[trigger] edges[k].1 == i implies done.contains(edges[k].0) by {
            if k < edges.len() - 1 {
                assert(edges.drop_last()[k] == edges[k]);
            }
        }
    }
}

proof fn lemma_pending_positive(edges: Seq<(int, int)>, done: Seq<int>, i: int)
    requires
        pending(edges, done, i) > 0,
    ensures
        exists|k: int| 0 <= k < edges.len() && #[trigger] edges[k].1 == i && !done.contains(edges[k].0),
    decreases edges.len(),
{
    let e = edges.last();
    if e.1 == i && !done.contains(e.0) {
        assert(edges[edges.len() - 1].1 == i);
    } else {
        lemma_pending_positive(edges.drop_last(), done, i);
        let k = choose|k: int| 0 <= k < edges.drop_last().len() && #[trigger] edges.drop_last()[k].1 == i
            && !done.contains(edges.drop_last()[k].0);
        assert(edges[k] == edges.drop_last()[k]);
    }
}

proof fn lemma_pending_concat(a: Seq<(int, int)>, b: Seq<(int, int)>, done: Seq<int>, i: int)
    ensures
        pending(a + b, done, i) == pending(a, done, i) + pending(b, done, i),
    decreases b.len(),
{
    if b.len() == 0 {
        assert(a + b =~= a);
    } else {
        assert((a + b).drop_last() =~= a + b.drop_last());
        lemma_pending_concat(a, b.drop_last(), done, i);
    }
}

proof fn lemma_pending_module(modules: Seq<Module>, m: int, i: int)
    ensures
        pending(edges_of_module(modules, m), Seq::empty(), i) == if m == i {
            deps_of(modules[m]).len()
        } else {
            0
        },
    decreases deps_of(modules[m]).len(),
{
    let s = edges_of_module(modules, m);
    lemma_pending_const(s, m, i);
}

proof fn lemma_pending_const(s: Seq<(int, int)>, m: int, i: int)
    requires
        forall|k: int| 0 <= k < s.len() ==> (#[trigger] s[k]).1 == m,
    ensures
        pending(s, Seq::empty(), i) == if m == i {
            s.len()
        } else {
            0
        },
    decreases s.len(),
{
    if s.len() > 0 {
        lemma_pending_const(s.drop_last(), m, i);
        assert(s.last() == s[s.len() - 1]);
    }
}

proof fn lemma_pending_initial(modules: Seq<Module>, n: int, i: int)
    requires
        0 <= n <= modules.len(),
    ensures
        pending(edges_upto(modules, n), Seq::empty(), i) == if 0 <= i < n {
            deps_of(modules[i]).len()
        } else {
            0
        },
    decreases n,
{
    if n > 0 {
        lemma_pending_initial(modules, n - 1, i);
        lemma_pending_concat(edges_upto(modules, n - 1), edges_of_module(modules, n - 1), Seq::empty(), i);
        lemma_pending_module(modules, n - 1, i);
    }
}

proof fn lemma_roots(modules: Seq<Module>, n: int)
    requires
        0 <= n <= modules.len(),
    ensures
        roots_upto(modules, n).no_duplicates(),
        forall|k: int| 0 <= k < roots_upto(modules, n).len() ==> 0 <= #[trigger] roots_upto(modules, n)[k] < n,
        forall|i: int| 0 <= i < n ==> (roots_upto(modules, n).contains(i) <==> deps_of(modules[i]).len() == 0),
    decreases n,
{
    if n > 0 {
        lemma_roots(modules, n - 1);
        let r = roots_upto(modules, n - 1);
        lemma_contains_push(r, n - 1);
        if deps_of(modules[n - 1]).len() != 0 {
            assert(!r.contains(n - 1)) by {
                if r.contains(n - 1) {
                    let k = choose|k: int| 0 <= k < r.len() && #[trigger] r[k] == n - 1;
                }
            }
        }
    }
}

/// A duplicate-free sequence of indices below `n` has at most `n` elements, holds every
/// index when it has exactly `n`, and misses one when it has fewer.
pub proof fn lemma_index_count(s: Seq<int>, n: int)
    requires
        0 <= n,
        s.no_duplicates(),
        forall|k: int| 0 <= k < s.len() ==> 0 <= #[trigger] s[k] < n,
    ensures
        s.len() <= n,
        s.len() == n ==> forall|i: int| 0 <= i < n ==> s.contains(i),
        s.len() < n ==> exists|i: int| 0 <= i < n && !s.contains(i),
{
    s.unique_seq_to_set();
    vstd::set_lib::lemma_int_range(0, n);
    let r = vstd::set_lib::set_int_range(0, n);
    assert(s.to_set().subset_of(r));
    vstd::set_lib::lemma_len_subset(s.to_set(), r);
    if s.len() == n {
        vstd::set_lib::lemma_subset_equality(s.to_set(), r);
        assert forall|i: int| 0 <= i < n implies s.contains(i) by {
            assert(r.contains(i));
            assert(s.to_set().contains(i));
        }
    }
    if s.len() < n {
        if forall|i: int| 0 <= i < n ==> s.contains(i) {
            assert(r.subset_of(s.to_set()));
            vstd::set_lib::lemma_len_subset(r, s.to_set());
        }
    }
}

proof fn lemma_fixed_point(edges: Seq<(int, int)>, s: KahnState, k: nat, m: nat)
    requires
        k <= m,
        kahn_iter(edges, s, k).1.len() == 0,
    ensures
        kahn_iter(edges, s, m) == kahn_iter(edges, s, k),
    decreases m,
{
    if m > k {
        lemma_fixed_point(edges, s, k, (m - 1) as nat);
    }
}

/// Some edge of `edges` goes from `j` to `i`.
pub open spec fn has_edge(edges: Seq<(int, int)>, i: int, j: int) -> bool {
    exists|k: int| 0 <= k < edges.len() && #[trigger] edges[k] == (j, i)
}

/// Module `i` depends on module `j`: some dependency edge goes from `j` to `i`.
pub open spec fn depends_on(modules: Seq<Module>, i: int, j: int) -> bool {
    has_edge(dependency_edges(modules), i, j)
}

/// `p` is a cycle of workspace dependencies: modules of the workspace, each
/// depending on the next, the last one being the first.
pub open spec fn dependency_cycle(modules: Seq<Module>, p: Seq<int>) -> bool {
    &&& p.len() >= 2
    &&& p[0] == p.last()
    &&& forall|t: int| 0 <= t < p.len() ==> 0 <= #[trigger] p[t] < modules.len()
    &&& forall|t: int| 0 <= t < p.len() - 1 ==> #[trigger] depends_on(modules, p[t], p[t + 1])
}

proof fn lemma_last_index_below(ms: Seq<Module>, name: Seq<char>)
    ensures
        last_index_named(ms, name) < ms.len(),
    decreases ms.len(),
{
    if ms.len() > 0 && ms.last().name@ != name {
        lemma_last_index_below(ms.drop_last(), name);
    }
}

proof fn lemma_edges_upto_range(ms: Seq<Module>, m: int)
    requires
        all_known(ms),
        0 <= m <= ms.len(),
    ensures
        forall|k: int|
            0 <= k < edges_upto(ms, m).len() ==> 0 <= (#[trigger] edges_upto(ms, m)[k]).0 < ms.len() && 0
                <= edges_upto(ms, m)[k].1 < m,
    decreases m,
{
    if m > 0 {
        lemma_edges_upto_range(ms, m - 1);
        let prev = edges_upto(ms, m - 1);
        let mine = edges_of_module(ms, m - 1);
        assert(edges_upto(ms, m) == prev + mine);
        assert forall|k: int| 0 <= k < edges_upto(ms, m).len() implies 0 <= (#[trigger] edges_upto(ms, m)[k]).0
            < ms.len() && 0 <= edges_upto(ms, m)[k].1 < m by {
            if k >= prev.len() {
                let j = k - prev.len();
                assert(edges_upto(ms, m)[k] == mine[j]);
                assert(mine[j] == (last_index_named(ms, deps_of(ms[m - 1])[j]), m - 1));
                assert(!is_unknown(ms, m - 1, j));
                lemma_last_index_below(ms, deps_of(ms[m - 1])[j]);
            } else {
                assert(edges_upto(ms, m)[k] == prev[k]);
            }
        }
    }
}

/// A module of `[0, n)` left out of `order`.
pub open spec fn left_out(order: Seq<int>, n: int, i: int) -> bool {
    0 <= i < n && !order.contains(i)
}

/// A walk of length `len` backwards along `edges`, through left-out modules only.
pub open spec fn left_out_walk(edges: Seq<(int, int)>, order: Seq<int>, n: int, p: Seq<int>) -> bool {
    &&& forall|t: int| 0 <= t < p.len() ==> #[trigger] left_out(order, n, p[t])
    &&& forall|t: int| 0 <= t < p.len() - 1 ==> #[trigger] has_edge(edges, p[t], p[t + 1])
}

proof fn lemma_left_out_chain(edges: Seq<(int, int)>, order: Seq<int>, n: int, len: nat, i0: int)
    requires
        len >= 1,
        forall|k: int| 0 <= k < edges.len() ==> 0 <= (#[trigger] edges[k]).0 < n,
        left_out(order, n, i0),
        forall|i: int|
            left_out(order, n, i) ==> exists|k: int|
                0 <= k < edges.len() && #[trigger] edges[k].1 == i && !order.contains(edges[k].0),
    ensures
        exists|p: Seq<int>| p.len() == len && p[0] == i0 && #[trigger] left_out_walk(edges, order, n, p),
    decreases len,
{
    if len == 1 {
        let p = seq![i0];
        assert(left_out_walk(edges, order, n, p));
    } else {
        lemma_left_out_chain(edges, order, n, (len - 1) as nat, i0);
        let p = choose|p: Seq<int>| p.len() == len - 1 && p[0] == i0 && #[trigger] left_out_walk(edges, order, n, p);
        let x = p.last();
        assert(left_out(order, n, x));
        let k = choose|k: int| 0 <= k < edges.len() && #[trigger] edges[k].1 == x && !order.contains(edges[k].0);
        let y = edges[k].0;
        assert(edges[k] == (y, x));
        let q = p.push(y);
        assert forall|t: int| 0 <= t < q.len() implies #[trigger] left_out(order, n, q[t]) by {
            if t < p.len() {
                assert(q[t] == p[t]);
            }
        }
        assert forall|t: int| 0 <= t < q.len() - 1 implies #[trigger] has_edge(edges, q[t], q[t + 1]) by {
            if t < p.len() - 1 {
                assert(q[t] == p[t] && q[t + 1] == p[t + 1]);
            } else {
                assert(q[t] == x && q[t + 1] == y);
            }
        }
        assert(q[0] == i0);
        assert(left_out_walk(edges, order, n, q));
    }
}

/// Kahn's order leaves modules out only on a cycle: when `module_order` reports a
/// cycle (every module of the workspace named, some left out, each left-out one
/// depending on a left-out one), the workspace dependencies do contain a cycle. So
/// a workspace whose dependencies are known and acyclic is always ordered.
pub proof fn law_unordered_modules_lie_on_a_cycle(modules: Seq<Module>)
    requires
        all_known(modules),
        exists|i: int| 0 <= i < modules.len() && !kahn_order(modules).contains(i),
        forall|i: int|
            0 <= i < modules.len() && !kahn_order(modules).contains(i) ==> exists|k: int|
                0 <= k < dependency_edges(modules).len() && #[trigger] dependency_edges(modules)[k].1 == i
                    && !kahn_order(modules).contains(dependency_edges(modules)[k].0),
    ensures
        exists|p: Seq<int>| dependency_cycle(modules, p),
{
    let n = modules.len() as int;
    let edges = dependency_edges(modules);
    let order = kahn_order(modules);
    lemma_edges_upto_range(modules, n);
    assert forall|i: int| left_out(order, n, i) implies exists|k: int|
        0 <= k < edges.len() && #[trigger] edges[k].1 == i && !order.contains(edges[k].0) by {
    }
    let i0 = choose|i: int| 0 <= i < modules.len() && !kahn_order(modules).contains(i);
    assert(left_out(order, n, i0));
    lemma_left_out_chain(edges, order, n, (n + 1) as nat, i0);
    let p = choose|p: Seq<int>| p.len() == n + 1 && p[0] == i0 && #[trigger] left_out_walk(edges, order, n, p);
    if p.no_duplicates() {
        assert forall|k: int| 0 <= k < p.len() implies 0 <= #[trigger] p[k] < n by {
            assert(left_out(order, n, p[k]));
        }
        lemma_index_count(p, n);
        assert(false);
    }
    let (a0, b0) = choose|a: int, b: int| 0 <= a < p.len() && 0 <= b < p.len() && a != b && p[a] == p[b];
    let a = if a0 < b0 { a0 } else { b0 };
    let b = if a0 < b0 { b0 } else { a0 };
    let c = p.subrange(a, b + 1);
    assert(c[0] == p[a] && c.last() == p[b]);
    assert forall|t: int| 0 <= t < c.len() implies 0 <= #[trigger] c[t] < modules.len() by {
        assert(c[t] == p[a + t]);
        assert(left_out(order, n, p[a + t]));
    }
    assert forall|t: int| 0 <= t < c.len() - 1 implies #[trigger] depends_on(modules, c[t], c[t + 1]) by {
        assert(c[t] == p[a + t] && c[t + 1] == p[a + t + 1]);
        assert(has_edge(edges, p[a + t], p[a + t + 1]));
    }
    assert(dependency_cycle(modules, c));
}

/// `p` is a walk along `edges` from `i` through `[0, n)`: each element depends on
/// the next.
pub open spec fn walk_in(edges: Seq<(int, int)>, n: int, i: int, p: Seq<int>) -> bool {
    &&& p.len() >= 1
    &&& p[0] == i
    &&& forall|t: int| 0 <= t < p.len() ==> 0 <= #[trigger] p[t] < n
    &&& forall|t: int| 0 <= t < p.len() - 1 ==> #[trigger] has_edge(edges, p[t], p[t + 1])
}

/// Module `i` lies on a cycle of workspace dependencies, or depends (directly or
/// not) on a module that does: some walk along the dependencies from it meets a
/// module twice.
pub open spec fn reaches_cycle(modules: Seq<Module>, i: int) -> bool {
    exists|p: Seq<int>| #[trigger] walk_in(dependency_edges(modules), modules.len() as int, i, p) && !p.no_duplicates()
}

/// The position of `x` in `order`.
pub open spec fn position(order: Seq<int>, x: int) -> int {
    choose|j: int| 0 <= j < order.len() && order[j] == x
}

proof fn lemma_walk_descends(edges: Seq<(int, int)>, order: Seq<int>, n: int, i: int, p: Seq<int>, t: int)
    requires
        walk_in(edges, n, i, p),
        order.contains(i),
        order.no_duplicates(),
        forall|q: int, k: int|
            0 <= q < order.len() && 0 <= k < edges.len() && #[trigger] edges[k].1 == order[q] ==> #[trigger] order.take(
                q,
            ).contains(edges[k].0),
        0 <= t < p.len(),
    ensures
        forall|s: int| 0 <= s <= t ==> #[trigger] order.contains(p[s]),
        forall|s: int| 0 <= s <= t ==> order[position(order, p[s])] == p[s] && 0 <= position(order, p[s]) < order.len(),
        forall|a: int, b: int| 0 <= a < b <= t ==> position(order, #[trigger] p[b]) < position(order, #[trigger] p[a]),
    decreases t,
{
    if t == 0 {
        assert(order.contains(p[0]));
    } else {
        lemma_walk_descends(edges, order, n, i, p, t - 1);
        let x = p[t - 1];
        let y = p[t];
        let q = position(order, x);
        assert(has_edge(edges, p[t - 1], p[t - 1 + 1]));
        assert(p[t - 1 + 1] == y);
        let k = choose|k: int| 0 <= k < edges.len() && #[trigger] edges[k] == (y, x);
        assert(order[q] == x);
        assert(edges[k].1 == order[q]);
        assert(order.take(q).contains(edges[k].0));
        assert(order.take(q).contains(y));
        let j = choose|j: int| 0 <= j < order.take(q).len() && order.take(q)[j] == y;
        assert(order[j] == y);
        assert(order.contains(y));
        let pj = position(order, y);
        assert(pj == j) by {
            if pj != j {
                assert(order[pj] == order[j]);
            }
        }
        assert forall|a: int, b: int| 0 <= a < b <= t implies position(order, #[trigger] p[b]) < position(
            order,
            #[trigger] p[a],
        ) by {
            if b == t && a < t - 1 {
                assert(position(order, p[t - 1]) < position(order, p[a]));
            }
        }
    }
}

/// The modules that Kahn's order leaves out are exactly those that lie on a cycle
/// of workspace dependencies or depend, directly or not, on one.
proof fn lemma_left_out_iff_cycle(edges: Seq<(int, int)>, order: Seq<int>, n: int, i: int)
    requires
        0 <= i < n,
        forall|k: int| 0 <= k < edges.len() ==> 0 <= (#[trigger] edges[k]).0 < n,
        order.no_duplicates(),
        forall|q: int, k: int|
            0 <= q < order.len() && 0 <= k < edges.len() && #[trigger] edges[k].1 == order[q] ==> #[trigger] order.take(
                q,
            ).contains(edges[k].0),
        forall|j: int|
            left_out(order, n, j) ==> exists|k: int|
                0 <= k < edges.len() && #[trigger] edges[k].1 == j && !order.contains(edges[k].0),
    ensures
        !order.contains(i) <==> exists|p: Seq<int>| #[trigger] walk_in(edges, n, i, p) && !p.no_duplicates(),
{
    if !order.contains(i) {
        assert(left_out(order, n, i));
        lemma_left_out_chain(edges, order, n, (n + 1) as nat, i);
        let p = choose|p: Seq<int>| p.len() == n + 1 && p[0] == i && #[trigger] left_out_walk(edges, order, n, p);
        assert forall|t: int| 0 <= t < p.len() implies 0 <= #[trigger] p[t] < n by {
            assert(left_out(order, n, p[t]));
        }
        if p.no_duplicates() {
            lemma_index_count(p, n);
            assert(false);
        }
        assert(walk_in(edges, n, i, p));
    } else {
        if exists|p: Seq<int>| #[trigger] walk_in(edges, n, i, p) && !p.no_duplicates() {
            let p = choose|p: Seq<int>| #[trigger] walk_in(edges, n, i, p) && !p.no_duplicates();
            lemma_walk_descends(edges, order, n, i, p, p.len() - 1);
            let (a0, b0) = choose|a: int, b: int| 0 <= a < p.len() && 0 <= b < p.len() && a != b && p[a] == p[b];
            if a0 < b0 {
                assert(position(order, p[b0]) < position(order, p[a0]));
            } else {
                assert(position(order, p[a0]) < position(order, p[b0]));
            }
        }
    }
}

} // verus!

verus! {

pub(crate) fn collect_edges(modules: &[Module]) -> (res: Result<(Vec<(usize, usize)>, Vec<usize>), BuildError>)
    ensures
        match res {
            Ok((edges, in_degree)) => {
                &&& all_known(modules@)
                &&& int_edges(edges@) == dependency_edges(modules@)
                &&& in_degree@.len() == modules@.len()
                &&& forall|a: int| 0 <= a < modules@.len() ==> in_degree@[a] as int == deps_of(modules@[a]).len()
                &&& forall|k: int| 0 <= k < edges@.len() ==> (#[trigger] edges@[k]).0 < modules@.len() && edges@[k].1
                    < modules@.len()
            },
            Err(BuildError::UnknownWorkspaceModule { module, dependency }) => exists|i: int, j: int|
                #![trigger deps_of(modules@[i])[j]]
                first_unknown(modules@, i, j) && module@ == modules@[i].name@ && dependency@
                    == deps_of(modules@[i])[j],
            Err(_) => false,
        },
{
    let n = modules.len();
    let ghost ms = modules@;
    let mut edges: Vec<(usize, usize)> = Vec::new();
    let mut in_degree: Vec<usize> = Vec::new();
    let mut i: usize = 0;
    while i < n
        invariant
            n == ms.len(),
            ms == modules@,
            i <= n,
            int_edges(edges@) == edges_upto(ms, i as int),
            in_degree@.len() == i,
            forall|a: int| 0 <= a < i ==> in_degree@[a] as int == deps_of(ms[a]).len(),
            forall|a: int, b: int| 0 <= a < i && 0 <= b < deps_of(ms[a]).len() ==> !is_unknown(ms, a, b),
            forall|k: int| 0 <= k < edges@.len() ==> (#[trigger] edges@[k]).0 < n && edges@[k].1 < n,
        decreases n - i,
    {
        let deps = &modules[i].workspace_dependencies;
        let mut j: usize = 0;
        while j < deps.len()
            invariant
                n == ms.len(),
                ms == modules@,
                i < n,
                j <= deps@.len(),
                deps@ == ms[i as int].workspace_dependencies@,
                int_edges(edges@) == edges_upto(ms, i as int) + edges_of_module(ms, i as int).take(j as int),
                forall|a: int, b: int| 0 <= a < i && 0 <= b < deps_of(ms[a]).len() ==> !is_unknown(ms, a, b),
                forall|b: int| 0 <= b < j ==> !is_unknown(ms, i as int, b),
                forall|k: int| 0 <= k < edges@.len() ==> (#[trigger] edges@[k]).0 < n && edges@[k].1 < n,
            decreases deps@.len() - j,
        {
            match find_last_named(modules, &deps[j]) {
                Some(k) => {
                    let ghost old_edges = edges@;
                    edges.push((k, i));
                    proof {
                        assert(edges_of_module(ms, i as int)[j as int] == (k as int, i as int)) by {
                            assert(deps_of(ms[i as int])[j as int] == deps@[j as int]@);
                        }
                        assert(int_edges(edges@) =~= int_edges(old_edges).push((k as int, i as int)));
                        assert(int_edges(edges@) =~= edges_upto(ms, i as int) + edges_of_module(
                            ms,
                            i as int,
                        ).take(j + 1));
                    }
                },
                None => {
                    let module = modules[i].name.clone();
                    let dependency = deps[j].clone();
                    proof {
                        assert(deps_of(ms[i as int])[j as int] == deps@[j as int]@);
                        assert(first_unknown(ms, i as int, j as int));
                    }
                    return Err(BuildError::UnknownWorkspaceModule { module, dependency });
                },
            }
            j = j + 1;
        }
        proof {
            assert(edges_of_module(ms, i as int).take(j as int) =~= edges_of_module(ms, i as int));
        }
        in_degree.push(deps.len());
        i = i + 1;
    }
    Ok((edges, in_degree))
}

/// Emits-side half of one Kahn step: `x` has just been emitted; lower the pending
/// count of each of its dependents and queue those that reach zero.
fn release_dependents(
    edges: &Vec<(usize, usize)>,
    x: usize,
    in_degree: &mut Vec<usize>,
    queue: &mut Vec<usize>,
    head: usize,
    Ghost(n): Ghost<int>,
    Ghost(d0): Ghost<Seq<int>>,
)
    requires
        0 <= n,
        x < n,
        forall|k: int| 0 <= k < edges@.len() ==> (#[trigger] edges@[k]).0 < n && edges@[k].1 < n,
        old(in_degree)@.len() == n,
        head <= old(queue)@.len(),
        forall|k: int| 0 <= k < old(queue)@.len() ==> (#[trigger] old(queue)@[k]) < n,
        !d0.contains(x as int),
        forall|k: int| 0 <= k < d0.len() ==> 0 <= #[trigger] d0[k] < n,
        forall|a: int| 0 <= a < n ==> ints(old(in_degree)@)[a] == pending(int_edges(edges@), d0, a),
        forall|a: int| 0 <= a < n ==> (#[trigger] old(in_degree)@[a] == 0 <==> (d0.push(x as int).contains(a) || ints(
            old(queue)@,
        ).skip(head as int).contains(a))),
        (d0.push(x as int) + ints(old(queue)@).skip(head as int)).no_duplicates(),
    ensures
        release(int_edges(edges@), x as int, ints(old(in_degree)@), ints(old(queue)@).skip(head as int)) == (
            ints(final(in_degree)@),
            ints(final(queue)@).skip(head as int),
        ),
        final(in_degree)@.len() == n,
        head <= final(queue)@.len(),
        forall|k: int| 0 <= k < final(queue)@.len() ==> (#[trigger] final(queue)@[k]) < n,
        forall|a: int| 0 <= a < n ==> ints(final(in_degree)@)[a] == pending(
            int_edges(edges@),
            d0.push(x as int),
            a,
        ),
        forall|a: int| 0 <= a < n ==> (#[trigger] final(in_degree)@[a] == 0 <==> (d0.push(x as int).contains(a) || ints(
            final(queue)@,
        ).skip(head as int).contains(a))),
        (d0.push(x as int) + ints(final(queue)@).skip(head as int)).no_duplicates(),
        d0.len() + 1 + ints(final(queue)@).skip(head as int).len() <= n,
{
    let ghost es = int_edges(edges@);
    let ghost d1 = d0.push(x as int);
    let ghost deg0 = ints(in_degree@);
    let ghost q0 = ints(queue@).skip(head as int);
    proof {
        assert forall|a: int| 0 <= a < n implies pending(es, d0, a) == pending(es, d1, a) + count_edge(
            es,
            x as int,
            a,
        ) by {
            lemma_pending_split(es, d0, x as int, a);
        }
        assert(es.take(0) =~= Seq::<(int, int)>::empty());
    }
    let mut e: usize = 0;
    while e < edges.len()
        invariant
            0 <= n,
            es == int_edges(edges@),
            forall|k: int| 0 <= k < edges@.len() ==> (#[trigger] edges@[k]).0 < n && edges@[k].1 < n,
            e <= edges@.len(),
            in_degree@.len() == n,
            head <= queue@.len(),
            x < n,
            release(es.take(e as int), x as int, deg0, q0) == (ints(in_degree@), ints(queue@).skip(head as int)),
            forall|a: int| 0 <= a < n ==> ints(in_degree@)[a] == pending(es, d0, a) - count_edge(
                es.take(e as int),
                x as int,
                a,
            ),
            forall|a: int| 0 <= a < n ==> pending(es, d0, a) == pending(es, d1, a) + count_edge(es, x as int, a),
            forall|a: int| 0 <= a < n ==> (#[trigger] in_degree@[a] == 0 <==> (d1.contains(a) || ints(queue@).skip(
                head as int,
            ).contains(a))),
            (d1 + ints(queue@).skip(head as int)).no_duplicates(),
            forall|k: int| 0 <= k < queue@.len() ==> (#[trigger] queue@[k]) < n,
        decreases edges@.len() - e,
    {
        let (from, to) = edges[e];
        proof {
            assert(es[e as int] == (from as int, to as int));
            assert(es.take(e + 1).drop_last() =~= es.take(e as int));
            assert(es.take(e + 1).last() == es[e as int]);
        }
        if from == x {
            let ghost q_before = ints(queue@).skip(head as int);
            proof {
                assert forall|a: int| 0 <= a < n implies count_edge(es.take(e + 1), x as int, a) == count_edge(
                    es.take(e as int),
                    x as int,
                    a,
                ) + if a == to as int {
                    1nat
                } else {
                    0nat
                } by {}
                lemma_count_prefix(es, e + 1, x as int, to as int);
                assert(ints(in_degree@)[to as int] == in_degree@[to as int] as int);
                assert(in_degree@[to as int] >= 1);
                assert(!d1.contains(to as int) && !q_before.contains(to as int));
            }
            let ghost deg_before = in_degree@;
            in_degree[to] = in_degree[to] - 1;
            proof {
                assert forall|a: int| 0 <= a < n implies ints(in_degree@)[a] == pending(es, d0, a) - count_edge(
                    es.take(e + 1),
                    x as int,
                    a,
                ) by {
                    assert(ints(in_degree@)[a] == in_degree@[a] as int);
                    assert(ints(deg_before)[a] == deg_before[a] as int);
                }
                assert(ints(in_degree@) =~= ints(deg_before).update(to as int, ints(deg_before)[to as int] - 1));
            }
            if in_degree[to] == 0 {
                queue.push(to);
                proof {
                    assert(ints(queue@).skip(head as int) =~= q_before.push(to as int));
                    lemma_contains_push(q_before, to as int);
                    lemma_contains_concat(d1, q_before);
                    assert(d1 + ints(queue@).skip(head as int) =~= (d1 + q_before).push(to as int));
                }
            }
        } else {
            proof {
                assert forall|a: int| 0 <= a < n implies count_edge(es.take(e + 1), x as int, a) == count_edge(
                    es.take(e as int),
                    x as int,
                    a,
                ) by {}
            }
        }
        e = e + 1;
    }
    proof {
        assert(es.take(e as int) =~= es);
        let all = d1 + ints(queue@).skip(head as int);
        assert forall|k: int| 0 <= k < all.len() implies 0 <= #[trigger] all[k] < n by {
            if k >= d1.len() {
                assert(all[k] == queue@[head + k - d1.len()] as int);
            }
        }
        lemma_index_count(all, n);
    }
}

/// Names of the modules left out of `order`, in index order.
fn left_out_names(modules: &[Module], processed: &Vec<bool>, Ghost(order): Ghost<Seq<int>>) -> (names: Vec<String>)
    requires
        processed@.len() == modules@.len(),
        forall|a: int| 0 <= a < modules@.len() ==> (processed@[a] <==> order.contains(a)),
    ensures
        names@.map_values(|s: String| s@) == left_out_upto(modules@, order, modules@.len() as int),
{
    let n = modules.len();
    let mut names: Vec<String> = Vec::new();
    let mut idx: usize = 0;
    while idx < n
        invariant
            n == modules@.len(),
            idx <= n,
            processed@.len() == n,
            forall|a: int| 0 <= a < n ==> (processed@[a] <==> order.contains(a)),
            names@.map_values(|s: String| s@) == left_out_upto(modules@, order, idx as int),
        decreases n - idx,
    {
        if !processed[idx] {
            names.push(modules[idx].name.clone());
            proof {
                assert(names@.map_values(|s: String| s@) =~= names@.drop_last().map_values(|s: String| s@).push(
                    modules@[idx as int].name@,
                ));
            }
        }
        idx = idx + 1;
    }
    names
}

/// Orders `modules` so that every workspace dependency comes before the modules that
/// depend on it (Kahn's algorithm over `[workspace-dependencies]`), as indices into
/// `modules`. A name that matches several modules refers to the last of them.
#[verifier::rlimit(40)]
pub fn module_order(modules: &[Module]) -> (res: Result<Vec<usize>, BuildError>)
    ensures
        match res {
            Ok(order) => {
                &&& all_known(modules@)
                &&& ints(order@) == kahn_order(modules@)
                &&& order@.len() == modules@.len()
                // every module exactly once
                &&& order@.no_duplicates()
                &&& forall|k: int| 0 <= k < order@.len() ==> #[trigger] order@[k] < modules@.len()
                &&& forall|i: int| 0 <= i < modules@.len() ==> ints(order@).contains(i)
                // every dependency before its dependent
                &&& forall|p: int, k: int|
                    0 <= p < order@.len() && 0 <= k < dependency_edges(modules@).len()
                        && #[trigger] dependency_edges(modules@)[k].1 == order@[p] as int
                        ==> #[trigger] ints(order@).take(p).contains(dependency_edges(modules@)[k].0)
            },
            Err(BuildError::UnknownWorkspaceModule { module, dependency }) => exists|i: int, j: int|
                #![trigger deps_of(modules@[i])[j]]
                first_unknown(modules@, i, j) && module@ == modules@[i].name@ && dependency@
                    == deps_of(modules@[i])[j],
            Err(BuildError::CyclicModuleDependency(names)) => {
                &&& all_known(modules@)
                &&& kahn_order(modules@).len() < modules@.len()
                &&& names@.map_values(|s: String| s@) == left_out_upto(
                    modules@,
                    kahn_order(modules@),
                    modules@.len() as int,
                )
                // some module is left out, and each left-out module depends on a left-out module
                &&& exists|i: int| 0 <= i < modules@.len() && !kahn_order(modules@).contains(i)
                &&& forall|i: int|
                    0 <= i < modules@.len() && !kahn_order(modules@).contains(i) ==> exists|k: int|
                        0 <= k < dependency_edges(modules@).len() && #[trigger] dependency_edges(modules@)[k].1 == i
                            && !kahn_order(modules@).contains(dependency_edges(modules@)[k].0)
                // exactly the modules on a cycle, or depending on one, are left out
                &&& forall|i: int|
                    0 <= i < modules@.len() ==> (!kahn_order(modules@).contains(i) <==> #[trigger] reaches_cycle(
                        modules@,
                        i,
                    ))
            },
            Err(_) => false,
        },
{
    let n = modules.len();
    let ghost ms = modules@;
    let (edges, mut in_degree) = match collect_edges(modules) {
        Ok(found) => found,
        Err(err) => return Err(err),
    };
    let ghost es = dependency_edges(ms);

    let mut queue: Vec<usize> = Vec::new();
    let mut idx: usize = 0;
    while idx < n
        invariant
            n == ms.len(),
            idx <= n,
            in_degree@.len() == n,
            forall|a: int| 0 <= a < n ==> in_degree@[a] as int == deps_of(ms[a]).len(),
            ints(queue@) == roots_upto(ms, idx as int),
        decreases n - idx,
    {
        if in_degree[idx] == 0 {
            queue.push(idx);
            proof {
                assert(ints(queue@) =~= ints(queue@.drop_last()).push(idx as int));
            }
        }
        idx = idx + 1;
    }
    let mut processed: Vec<bool> = Vec::new();
    while processed.len() < n
        invariant
            processed@.len() <= n,
            forall|a: int| 0 <= a < processed@.len() ==> !processed@[a],
        decreases n - processed@.len(),
    {
        processed.push(false);
    }

    let ghost init = kahn_init(ms);
    proof {
        lemma_roots(ms, n as int);
        assert(ints(in_degree@) =~= init.0);
        assert forall|a: int| 0 <= a < n implies ints(in_degree@)[a] == pending(es, Seq::empty(), a) by {
            lemma_pending_initial(ms, n as int, a);
        }
        assert(ints(queue@).skip(0) =~= ints(queue@));
        assert(ints(Seq::<usize>::empty()) =~= Seq::<int>::empty());
        assert forall|k: int| 0 <= k < queue@.len() implies (#[trigger] queue@[k]) < n by {
            assert(ints(queue@)[k] == queue@[k] as int);
        }
        assert(Seq::<int>::empty() + ints(queue@) =~= ints(queue@));
        lemma_index_count(ints(queue@), n as int);
    }
    let mut head: usize = 0;
    let mut order: Vec<usize> = Vec::new();
    let ghost mut steps: nat = 0;
    while head < queue.len()
        invariant
            n == ms.len(),
            es == dependency_edges(ms),
            int_edges(edges@) == es,
            forall|k: int| 0 <= k < edges@.len() ==> (#[trigger] edges@[k]).0 < n && edges@[k].1 < n,
            in_degree@.len() == n,
            processed@.len() == n,
            head <= queue@.len(),
            order@.len() == steps,
            order@.len() + (queue@.len() - head) <= n,
            kahn_iter(es, init, steps) == (ints(in_degree@), ints(queue@).skip(head as int), ints(order@)),
            forall|a: int| 0 <= a < n ==> ints(in_degree@)[a] == pending(es, ints(order@), a),
            forall|a: int| 0 <= a < n ==> (#[trigger] in_degree@[a] == 0 <==> (ints(order@).contains(a) || ints(
                queue@,
            ).skip(head as int).contains(a))),
            forall|a: int| 0 <= a < n ==> (processed@[a] <==> ints(order@).contains(a)),
            (ints(order@) + ints(queue@).skip(head as int)).no_duplicates(),
            forall|k: int| 0 <= k < queue@.len() ==> (#[trigger] queue@[k]) < n,
            forall|k: int| 0 <= k < order@.len() ==> (#[trigger] order@[k]) < n,
            forall|p: int, k: int|
                0 <= p < order@.len() && 0 <= k < es.len() && #[trigger] es[k].1 == order@[p] as int
                    ==> #[trigger] ints(order@).take(p).contains(es[k].0),
        decreases n - order@.len(),
    {
        let x = queue[head];
        let ghost d0 = ints(order@);
        let ghost qold = ints(queue@).skip(head as int);
        let ghost q0 = ints(queue@).skip(head as int + 1);
        let ghost deg0 = ints(in_degree@);
        proof {
            assert(qold[0] == x as int);
            assert(qold =~= seq![x as int] + q0);
            lemma_contains_concat(seq![x as int], q0);
            assert(seq![x as int][0] == x as int);
            assert(qold.contains(x as int));
            assert(deg0[x as int] == in_degree@[x as int] as int);
            assert(in_degree@[x as int] == 0);
            lemma_pending_zero(es, d0, x as int);
            lemma_contains_concat(d0, qold);
            assert((d0 + qold)[d0.len() as int] == x as int);
            assert(!d0.contains(x as int)) by {
                if d0.contains(x as int) {
                    let k = choose|k: int| 0 <= k < d0.len() && #[trigger] d0[k] == x as int;
                    assert((d0 + qold)[k] == x as int);
                }
            }
            lemma_contains_push(d0, x as int);
            assert forall|a: int| qold.contains(a) <==> (a == x as int || q0.contains(a)) by {
                assert(seq![x as int].contains(a) <==> a == x as int) by {
                    if seq![x as int].contains(a) {
                        let k = choose|k: int| 0 <= k < 1 && #[trigger] seq![x as int][k] == a;
                    }
                }
            }
            assert(d0 + qold =~= d0.push(x as int) + q0);
            assert forall|k: int| 0 <= k < d0.len() implies 0 <= #[trigger] d0[k] < n by {
                assert(d0[k] == order@[k] as int);
            }
        }
        head = head + 1;
        order.push(x);
        processed.set(x, true);
        proof {
            assert(ints(order@) =~= d0.push(x as int));
            assert(ints(queue@).skip(head as int) =~= q0);
        }
        release_dependents(&edges, x, &mut in_degree, &mut queue, head, Ghost(n as int), Ghost(d0));
        proof {
            assert(qold.drop_first() =~= q0);
            steps = steps + 1;
            assert forall|p: int, k: int|
                0 <= p < order@.len() && 0 <= k < es.len() && #[trigger] es[k].1 == order@[p] as int
                    implies #[trigger] ints(order@).take(p).contains(es[k].0) by {
                if p < order@.len() - 1 {
                    assert(ints(order@).take(p) =~= d0.take(p));
                    assert(order@[p] as int == d0[p]);
                } else {
                    assert(ints(order@).take(p) =~= d0);
                }
            }
            assert forall|a: int| 0 <= a < n implies (processed@[a] <==> ints(order@).contains(a)) by {}
        }
    }
    proof {
        assert(ints(queue@).skip(head as int).len() == 0);
        assert((ints(order@) + ints(queue@).skip(head as int)) =~= ints(order@));
        assert forall|k: int| 0 <= k < order@.len() implies 0 <= #[trigger] ints(order@)[k] < n by {
            assert(ints(order@)[k] == order@[k] as int);
        }
        lemma_index_count(ints(order@), n as int);
        lemma_fixed_point(es, init, steps, n as nat);
        assert(ints(order@) == kahn_order(ms));
    }
    if order.len() != n {
        let names = left_out_names(modules, &processed, Ghost(ints(order@)));
        proof {
            assert forall|a: int| 0 <= a < n && !ints(order@).contains(a) implies exists|k: int|
                0 <= k < es.len() && #[trigger] es[k].1 == a && !ints(order@).contains(es[k].0) by {
                assert(ints(in_degree@)[a] == in_degree@[a] as int);
                assert(in_degree@[a] != 0);
                lemma_pending_positive(es, ints(order@), a);
            }
            let o = ints(order@);
            lemma_edges_upto_range(ms, n as int);
            assert forall|q: int, k: int|
                0 <= q < o.len() && 0 <= k < es.len() && #[trigger] es[k].1 == o[q] implies #[trigger] o.take(q).contains(
                es[k].0,
            ) by {
                assert(o[q] == order@[q] as int);
            }
            assert forall|j: int| left_out(o, n as int, j) implies exists|k: int|
                0 <= k < es.len() && #[trigger] es[k].1 == j && !o.contains(es[k].0) by {}
            assert forall|i: int| 0 <= i < ms.len() implies (!kahn_order(ms).contains(i) <==> #[trigger] reaches_cycle(
                ms,
                i,
            )) by {
                lemma_left_out_iff_cycle(es, o, n as int, i);
            }
        }
        return Err(BuildError::CyclicModuleDependency(names));
    }
    proof {
        assert(order@.no_duplicates()) by {
            assert forall|a: int, b: int| 0 <= a < order@.len() && 0 <= b < order@.len() && a != b implies order@[a]
                != order@[b] by {
                assert(ints(order@)[a] != ints(order@)[b]);
            }
        }
    }
    Ok(order)
}

} // verus!
