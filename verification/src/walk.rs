//! Walks over the edges of a dependency graph: the breadth-first search behind
//! `jvmfast why`, and the measure that bounds walks that never revisit a node.
use crate::domain::GraphEdge;
use vstd::prelude::*;

verus! {

/// Number of edges whose target is not among `seen`.
pub open spec fn unvisited(edges: Seq<GraphEdge>, seen: Seq<u64>) -> nat
    decreases edges.len(),
{
    if edges.len() == 0 {
        0
    } else {
        unvisited(edges.drop_last(), seen) + if seen.contains(edges.last().to.0) {
            0nat
        } else {
            1nat
        }
    }
}

/// Seeing one more node never adds unvisited edges, and removes at least one when
/// that node is new and some edge leads to it.
pub proof fn lemma_unvisited_push(edges: Seq<GraphEdge>, seen: Seq<u64>, y: u64)
    ensures
        unvisited(edges, seen.push(y)) <= unvisited(edges, seen),
        !seen.contains(y) && (exists|k: int| 0 <= k < edges.len() && #[trigger] edges[k].to.0 == y) ==> unvisited(
            edges,
            seen.push(y),
        ) < unvisited(edges, seen),
    decreases edges.len(),
{
    if edges.len() > 0 {
        let rest = edges.drop_last();
        lemma_unvisited_push(rest, seen, y);
        let x = edges.last().to.0;
        if seen.contains(x) {
            let i = choose|i: int| 0 <= i < seen.len() && seen[i] == x;
            assert(seen.push(y)[i] == x);
        }
        if x == y {
            assert(seen.push(y)[seen.len() as int] == y);
        }
        if !seen.contains(y) && (exists|k: int| 0 <= k < edges.len() && #[trigger] edges[k].to.0 == y) {
            let k = choose|k: int| 0 <= k < edges.len() && #[trigger] edges[k].to.0 == y;
            if k < edges.len() - 1 {
                assert(rest[k].to.0 == y);
            }
        }
        if seen.push(y).contains(x) && x != y {
            let i = choose|i: int| 0 <= i < seen.push(y).len() && seen.push(y)[i] == x;
            assert(seen[i] == x);
        }
    }
}

/// The last node of each path.
pub open spec fn lasts(paths: Seq<Seq<u64>>) -> Seq<u64> {
    paths.map_values(|p: Seq<u64>| p.last())
}

/// `paths` extended, edge by edge, with `p` followed by the target of each edge
/// leaving the end of `p` whose target ends no path yet.
pub open spec fn expand(paths: Seq<Seq<u64>>, p: Seq<u64>, edges: Seq<GraphEdge>) -> Seq<Seq<u64>>
    decreases edges.len(),
{
    if edges.len() == 0 {
        paths
    } else {
        let q = expand(paths, p, edges.drop_last());
        let e = edges.last();
        if e.from.0 == p.last() && !lasts(q).contains(e.to.0) {
            q.push(p.push(e.to.0))
        } else {
            q
        }
    }
}

pub proof fn lemma_lasts_push(paths: Seq<Seq<u64>>, p: Seq<u64>)
    ensures
        lasts(paths.push(p)) == lasts(paths).push(p.last()),
{
    assert(lasts(paths.push(p)) =~= lasts(paths).push(p.last()));
}

/// `x` is `p` followed by the target of an edge leaving the end of `p`.
pub open spec fn extends_by_edge(edges: Seq<GraphEdge>, p: Seq<u64>, x: Seq<u64>) -> bool {
    exists|k: int| 0 <= k < edges.len() && #[trigger] edges[k].from.0 == p.last() && x == p.push(edges[k].to.0)
}

/// What one expansion adds: new paths extend `p` by one edge, the old ones stay
/// in place, every edge leaving the end of `p` leads to the end of some path, and
/// the count of unvisited edges drops by at least the number of new paths.
pub proof fn lemma_expand(paths: Seq<Seq<u64>>, p: Seq<u64>, edges: Seq<GraphEdge>, all: Seq<GraphEdge>)
    requires
        edges.len() <= all.len(),
        edges == all.take(edges.len() as int),
    ensures
        paths.len() <= expand(paths, p, edges).len(),
        expand(paths, p, edges).take(paths.len() as int) == paths,
        forall|j: int|
            paths.len() <= j < expand(paths, p, edges).len() ==> extends_by_edge(edges, p, #[trigger] expand(paths, p, edges)[j]),
        forall|k: int|
            0 <= k < edges.len() && edges[k].from.0 == p.last() ==> lasts(expand(paths, p, edges)).contains(
                #[trigger] edges[k].to.0,
            ),
        unvisited(all, lasts(expand(paths, p, edges))) + (expand(paths, p, edges).len() - paths.len()) <= unvisited(
            all,
            lasts(paths),
        ),
    decreases edges.len(),
{
    if edges.len() > 0 {
        let rest = edges.drop_last();
        assert(rest =~= all.take(rest.len() as int));
        lemma_expand(paths, p, rest, all);
        let q = expand(paths, p, rest);
        let e = edges.last();
        assert(e == all[edges.len() - 1]);
        if e.from.0 == p.last() && !lasts(q).contains(e.to.0) {
            let r = q.push(p.push(e.to.0));
            lemma_lasts_push(q, p.push(e.to.0));
            lemma_unvisited_push(all, lasts(q), e.to.0);
            assert(all[edges.len() - 1].to.0 == e.to.0);
            assert(r.take(paths.len() as int) =~= q.take(paths.len() as int));
            assert(expand(paths, p, edges) == r);
            assert forall|j: int| paths.len() <= j < r.len() implies extends_by_edge(edges, p, #[trigger] r[j]) by {
                if j < q.len() {
                    assert(extends_by_edge(rest, p, q[j]));
                    let k = choose|k: int| 0 <= k < rest.len() && #[trigger] rest[k].from.0 == p.last() && q[j] == p.push(rest[k].to.0);
                    assert(edges[k] == rest[k]);
                    assert(r[j] == q[j]);
                } else {
                    let k = edges.len() - 1;
                    assert(edges[k].from.0 == p.last());
                    assert(r[j] == p.push(edges[k].to.0));
                }
            }
            assert forall|k: int| 0 <= k < edges.len() && edges[k].from.0 == p.last() implies lasts(r).contains(
                #[trigger] edges[k].to.0,
            ) by {
                if k < rest.len() {
                    assert(rest[k] == edges[k]);
                    assert(lasts(q).contains(rest[k].to.0));
                    let i = choose|i: int| 0 <= i < lasts(q).len() && lasts(q)[i] == rest[k].to.0;
                    assert(lasts(r)[i] == rest[k].to.0);
                } else {
                    assert(lasts(r)[q.len() as int] == e.to.0);
                }
            }
        } else {
            assert(expand(paths, p, edges) == q);
            assert forall|j: int| paths.len() <= j < q.len() implies extends_by_edge(edges, p, #[trigger] q[j]) by {
                assert(extends_by_edge(rest, p, q[j]));
                let k = choose|k: int| 0 <= k < rest.len() && #[trigger] rest[k].from.0 == p.last() && q[j] == p.push(rest[k].to.0);
                assert(edges[k] == rest[k]);
            }
            assert forall|k: int| 0 <= k < edges.len() && edges[k].from.0 == p.last() implies lasts(q).contains(
                #[trigger] edges[k].to.0,
            ) by {
                if k < rest.len() {
                    assert(rest[k] == edges[k]);
                }
            }
        }
    }
}

/// Breadth-first search from the state `(paths, next)`: `paths` are the paths met
/// so far in order, `next` the first one not yet expanded. The first path to be
/// expanded that ends at `target` is the answer.
pub open spec fn bfs(edges: Seq<GraphEdge>, target: u64, paths: Seq<Seq<u64>>, next: nat) -> Option<Seq<u64>>
    decreases unvisited(edges, lasts(paths)), paths.len() - next,
    when next <= paths.len()
{
    if next >= paths.len() {
        None
    } else if paths[next as int].last() == target {
        Some(paths[next as int])
    } else {
        let grown = expand(paths, paths[next as int], edges);
        proof {
            assert(edges.take(edges.len() as int) =~= edges);
            lemma_expand(paths, paths[next as int], edges, edges);
        }
        bfs(edges, target, grown, next + 1)
    }
}

/// The path found by a breadth-first search from `from` to `target`, if any.
pub open spec fn shortest_path_spec(edges: Seq<GraphEdge>, from: u64, target: u64) -> Option<Seq<u64>> {
    bfs(edges, target, seq![seq![from]], 0)
}

/// Some edge leads from `a` to `b`.
pub open spec fn has_edge(edges: Seq<GraphEdge>, a: u64, b: u64) -> bool {
    exists|k: int| 0 <= k < edges.len() && #[trigger] edges[k].from.0 == a && edges[k].to.0 == b
}

/// `q` is a walk along `edges` from `from` to `to`.
pub open spec fn is_walk(edges: Seq<GraphEdge>, q: Seq<u64>, from: u64, to: u64) -> bool {
    &&& q.len() >= 1
    &&& q[0] == from
    &&& q.last() == to
    &&& forall|i: int| 0 <= i < q.len() - 1 ==> has_edge(edges, #[trigger] q[i], q[i + 1])
}

/// Every path met is a walk from `from`, the first being `from` alone.
#[verifier::opaque]
pub open spec fn inv_walks(edges: Seq<GraphEdge>, from: u64, paths: Seq<Seq<u64>>) -> bool {
    &&& paths.len() >= 1
    &&& paths[0] == seq![from]
    &&& forall|j: int| 0 <= j < paths.len() ==> is_walk(edges, #[trigger] paths[j], from, paths[j].last())
}

/// Paths are met in order of length, and none is longer than the next to expand
/// plus one.
#[verifier::opaque]
pub open spec fn inv_layered(paths: Seq<Seq<u64>>, next: nat) -> bool {
    &&& next <= paths.len()
    &&& forall|i: int, j: int| 0 <= i <= j < paths.len() ==> #[trigger] paths[i].len() <= #[trigger] paths[j].len()
    &&& next < paths.len() ==> forall|j: int| 0 <= j < paths.len() ==> #[trigger] paths[j].len() <= paths[next as int].len() + 1
}

/// Every edge leaving the end of an expanded path leads to the end of a path met,
/// at most one step longer.
#[verifier::opaque]
pub open spec fn inv_closed(edges: Seq<GraphEdge>, paths: Seq<Seq<u64>>, next: nat) -> bool {
    forall|i: int, k: int|
        0 <= i < next && 0 <= k < edges.len() && #[trigger] edges[k].from.0 == (#[trigger] paths[i]).last() ==> exists|j: int|
            0 <= j < paths.len() && (#[trigger] paths[j]).last() == edges[k].to.0 && paths[j].len() <= paths[i].len() + 1
}

/// No expanded path ends at `target`.
#[verifier::opaque]
pub open spec fn inv_missed(target: u64, paths: Seq<Seq<u64>>, next: nat) -> bool {
    forall|i: int| 0 <= i < next ==> (#[trigger] paths[i]).last() != target
}

/// The invariant of the search.
pub open spec fn bfs_inv(edges: Seq<GraphEdge>, from: u64, target: u64, paths: Seq<Seq<u64>>, next: nat) -> bool {
    &&& inv_walks(edges, from, paths)
    &&& inv_layered(paths, next)
    &&& inv_closed(edges, paths, next)
    &&& inv_missed(target, paths, next)
}

/// Every walk from `from` reaches its end no sooner than some path met so far,
/// unless it is at least as long as the next path to expand.
proof fn lemma_bfs_reach(edges: Seq<GraphEdge>, from: u64, target: u64, paths: Seq<Seq<u64>>, next: nat, q: Seq<u64>, y: u64)
    requires
        bfs_inv(edges, from, target, paths, next),
        is_walk(edges, q, from, y),
    ensures
        (next < paths.len() && paths[next as int].len() <= q.len()) || exists|j: int|
            0 <= j < paths.len() && (#[trigger] paths[j]).last() == y && paths[j].len() <= q.len(),
    decreases q.len(),
{
    reveal(inv_walks);
    reveal(inv_layered);
    reveal(inv_closed);
    if q.len() == 1 {
        assert(paths[0].last() == from);
    } else {
        let r = q.drop_last();
        let x = r.last();
        assert forall|i: int| 0 <= i < r.len() - 1 implies has_edge(edges, #[trigger] r[i], r[i + 1]) by {
            assert(r[i] == q[i] && r[i + 1] == q[i + 1]);
        }
        lemma_bfs_reach(edges, from, target, paths, next, r, x);
        assert(has_edge(edges, q[q.len() - 2], q[q.len() - 1]));
        let k = choose|k: int| 0 <= k < edges.len() && #[trigger] edges[k].from.0 == x && edges[k].to.0 == y;
        if !(next < paths.len() && paths[next as int].len() <= r.len()) {
            let j = choose|j: int| 0 <= j < paths.len() && (#[trigger] paths[j]).last() == x && paths[j].len() <= r.len();
            if j < next {
                assert(edges[k].from.0 == paths[j].last());
                let j2 = choose|j2: int|
                    0 <= j2 < paths.len() && (#[trigger] paths[j2]).last() == edges[k].to.0 && paths[j2].len()
                        <= paths[j].len() + 1;
                assert(paths[j2].last() == y);
            } else {
                assert(paths[next as int].len() <= paths[j].len());
            }
        }
    }
}

proof fn lemma_step_prefix(paths: Seq<Seq<u64>>, grown: Seq<Seq<u64>>)
    requires
        paths.len() <= grown.len(),
        grown.take(paths.len() as int) == paths,
    ensures
        forall|j: int| 0 <= j < paths.len() ==> #[trigger] grown[j] == paths[j],
{
    assert forall|j: int| 0 <= j < paths.len() implies #[trigger] grown[j] == paths[j] by {
        assert(grown.take(paths.len() as int)[j] == grown[j]);
    }
}

proof fn lemma_step_walks(edges: Seq<GraphEdge>, from: u64, paths: Seq<Seq<u64>>, p: Seq<u64>, grown: Seq<Seq<u64>>)
    requires
        inv_walks(edges, from, paths),
        is_walk(edges, p, from, p.last()),
        paths.len() <= grown.len(),
        forall|j: int| 0 <= j < paths.len() ==> #[trigger] grown[j] == paths[j],
        forall|j: int| paths.len() <= j < grown.len() ==> extends_by_edge(edges, p, #[trigger] grown[j]),
    ensures
        inv_walks(edges, from, grown),
        forall|j: int| paths.len() <= j < grown.len() ==> (#[trigger] grown[j]).len() == p.len() + 1,
{
    reveal(inv_walks);
    assert forall|j: int| paths.len() <= j < grown.len() implies (#[trigger] grown[j]).len() == p.len() + 1 && is_walk(
        edges,
        grown[j],
        from,
        grown[j].last(),
    ) by {
        assert(extends_by_edge(edges, p, grown[j]));
        let k = choose|k: int| 0 <= k < edges.len() && #[trigger] edges[k].from.0 == p.last() && grown[j] == p.push(edges[k].to.0);
        let g = grown[j];
        assert forall|i: int| 0 <= i < g.len() - 1 implies has_edge(edges, #[trigger] g[i], g[i + 1]) by {
            if i < p.len() - 1 {
                assert(g[i] == p[i] && g[i + 1] == p[i + 1]);
            } else {
                assert(g[i] == p.last() && g[i + 1] == edges[k].to.0);
            }
        }
    }
    assert forall|j: int| 0 <= j < grown.len() implies is_walk(edges, #[trigger] grown[j], from, grown[j].last()) by {
        if j < paths.len() {
            assert(grown[j] == paths[j]);
        }
    }
    assert(grown[0] == paths[0]);
}

proof fn lemma_step_layered(paths: Seq<Seq<u64>>, next: nat, grown: Seq<Seq<u64>>)
    requires
        inv_layered(paths, next),
        next < paths.len(),
        paths.len() <= grown.len(),
        forall|j: int| 0 <= j < paths.len() ==> #[trigger] grown[j] == paths[j],
        forall|j: int| paths.len() <= j < grown.len() ==> (#[trigger] grown[j]).len() == paths[next as int].len() + 1,
    ensures
        inv_layered(grown, next + 1),
{
    reveal(inv_layered);
    let p = paths[next as int];
    let n = paths.len();
    assert forall|i: int, j: int| 0 <= i <= j < grown.len() implies #[trigger] grown[i].len() <= #[trigger] grown[j].len() by {
        if j < n {
            assert(grown[i] == paths[i] && grown[j] == paths[j]);
        } else if i < n {
            assert(grown[i] == paths[i]);
            assert(paths[i].len() <= p.len() + 1);
        }
    }
    if next + 1 < grown.len() {
        assert forall|j: int| 0 <= j < grown.len() implies #[trigger] grown[j].len() <= grown[next + 1int].len() + 1 by {
            assert(grown[next as int] == p);
            assert(grown[next as int].len() <= grown[next + 1int].len());
            if j < n {
                assert(grown[j] == paths[j]);
                assert(paths[j].len() <= p.len() + 1);
            }
        }
    }
}

proof fn lemma_step_closed(edges: Seq<GraphEdge>, paths: Seq<Seq<u64>>, next: nat, grown: Seq<Seq<u64>>)
    requires
        inv_closed(edges, paths, next),
        inv_layered(paths, next),
        next < paths.len(),
        paths.len() <= grown.len(),
        forall|j: int| 0 <= j < paths.len() ==> #[trigger] grown[j] == paths[j],
        forall|j: int| paths.len() <= j < grown.len() ==> (#[trigger] grown[j]).len() == paths[next as int].len() + 1,
        forall|k: int|
            0 <= k < edges.len() && edges[k].from.0 == paths[next as int].last() ==> lasts(grown).contains(
                #[trigger] edges[k].to.0,
            ),
    ensures
        inv_closed(edges, grown, next + 1),
{
    reveal(inv_closed);
    reveal(inv_layered);
    let n = paths.len();
    assert forall|i: int, k: int|
        0 <= i < next + 1 && 0 <= k < edges.len() && #[trigger] edges[k].from.0 == (#[trigger] grown[i]).last() implies exists|j: int|
        0 <= j < grown.len() && (#[trigger] grown[j]).last() == edges[k].to.0 && grown[j].len() <= grown[i].len() + 1 by {
        assert(grown[i] == paths[i]);
        if i < next {
            let j = choose|j: int|
                0 <= j < paths.len() && (#[trigger] paths[j]).last() == edges[k].to.0 && paths[j].len() <= paths[i].len() + 1;
            assert(grown[j] == paths[j]);
        } else {
            assert(lasts(grown).contains(edges[k].to.0));
            let j = choose|j: int| 0 <= j < lasts(grown).len() && lasts(grown)[j] == edges[k].to.0;
            assert(grown[j].last() == edges[k].to.0);
            if j < n {
                assert(grown[j] == paths[j]);
                assert(paths[j].len() <= paths[next as int].len() + 1);
            }
        }
    }
}

/// One expansion keeps the invariant.
proof fn lemma_bfs_step(edges: Seq<GraphEdge>, from: u64, target: u64, paths: Seq<Seq<u64>>, next: nat)
    requires
        bfs_inv(edges, from, target, paths, next),
        next < paths.len(),
        paths[next as int].last() != target,
    ensures
        bfs_inv(edges, from, target, expand(paths, paths[next as int], edges), next + 1),
{
    let p = paths[next as int];
    let grown = expand(paths, p, edges);
    assert(edges.take(edges.len() as int) =~= edges);
    lemma_expand(paths, p, edges, edges);
    lemma_step_prefix(paths, grown);
    assert(is_walk(edges, p, from, p.last())) by {
        reveal(inv_walks);
    }
    lemma_step_walks(edges, from, paths, p, grown);
    lemma_step_layered(paths, next, grown);
    lemma_step_closed(edges, paths, next, grown);
    assert(inv_missed(target, grown, next + 1)) by {
        reveal(inv_missed);
        assert forall|i: int| 0 <= i < next + 1 implies (#[trigger] grown[i]).last() != target by {
            assert(grown[i] == paths[i]);
        }
    }
}

proof fn lemma_bfs_run(edges: Seq<GraphEdge>, from: u64, target: u64, paths: Seq<Seq<u64>>, next: nat)
    requires
        bfs_inv(edges, from, target, paths, next),
    ensures
        match bfs(edges, target, paths, next) {
            Some(p) => is_walk(edges, p, from, target) && forall|q: Seq<u64>|
                is_walk(edges, q, from, target) ==> p.len() <= #[trigger] q.len(),
            None => forall|q: Seq<u64>| !is_walk(edges, q, from, target),
        },
    decreases unvisited(edges, lasts(paths)), paths.len() - next,
{
    reveal(inv_missed);
    reveal(inv_layered);
    reveal(inv_walks);
    if next >= paths.len() {
        assert forall|q: Seq<u64>| !is_walk(edges, q, from, target) by {
            if is_walk(edges, q, from, target) {
                lemma_bfs_reach(edges, from, target, paths, next, q, target);
            }
        }
    } else if paths[next as int].last() == target {
        let p = paths[next as int];
        assert forall|q: Seq<u64>| is_walk(edges, q, from, target) implies p.len() <= #[trigger] q.len() by {
            lemma_bfs_reach(edges, from, target, paths, next, q, target);
            if q.len() < p.len() {
                let j = choose|j: int| 0 <= j < paths.len() && (#[trigger] paths[j]).last() == target && paths[j].len() <= q.len();
                if j >= next {
                    assert(paths[next as int].len() <= paths[j].len());
                }
            }
        }
    } else {
        let grown = expand(paths, paths[next as int], edges);
        assert(edges.take(edges.len() as int) =~= edges);
        lemma_expand(paths, paths[next as int], edges, edges);
        lemma_bfs_step(edges, from, target, paths, next);
        lemma_bfs_run(edges, from, target, grown, next + 1);
    }
}

/// Breadth-first search finds a shortest path: when it returns a path, that path
/// is a walk from `from` to `target` no longer than any other such walk; when it
/// returns nothing, no walk leads from `from` to `target`.
pub proof fn law_shortest_path(edges: Seq<GraphEdge>, from: u64, target: u64)
    ensures
        match shortest_path_spec(edges, from, target) {
            Some(p) => is_walk(edges, p, from, target) && forall|q: Seq<u64>|
                is_walk(edges, q, from, target) ==> p.len() <= #[trigger] q.len(),
            None => forall|q: Seq<u64>| !is_walk(edges, q, from, target),
        },
{
    let paths = seq![seq![from]];
    assert(is_walk(edges, paths[0], from, paths[0].last()));
    reveal(inv_walks);
    reveal(inv_layered);
    reveal(inv_closed);
    reveal(inv_missed);
    assert(bfs_inv(edges, from, target, paths, 0));
    lemma_bfs_run(edges, from, target, paths, 0);
}

pub open spec fn paths_view(v: Seq<Vec<u64>>) -> Seq<Seq<u64>> {
    v.map_values(|p: Vec<u64>| p@)
}

/// A copy of `p` followed by `y`.
fn extend_path(p: &Vec<u64>, y: u64) -> (res: Vec<u64>)
    ensures
        res@ == p@.push(y),
{
    let mut out: Vec<u64> = Vec::new();
    let mut i: usize = 0;
    while i < p.len()
        invariant
            i <= p@.len(),
            out@ == p@.take(i as int),
        decreases p@.len() - i,
    {
        out.push(p[i]);
        proof {
            assert(out@ =~= p@.take(i + 1));
        }
        i = i + 1;
    }
    out.push(y);
    proof {
        assert(p@.take(i as int) =~= p@);
    }
    out
}

/// Whether some path of `paths` ends at `y`.
fn ends_some_path(paths: &Vec<Vec<u64>>, y: u64) -> (res: bool)
    requires
        forall|j: int| 0 <= j < paths@.len() ==> (#[trigger] paths@[j])@.len() >= 1,
    ensures
        res == lasts(paths_view(paths@)).contains(y),
{
    let ghost ls = lasts(paths_view(paths@));
    let mut j: usize = 0;
    while j < paths.len()
        invariant
            ls == lasts(paths_view(paths@)),
            forall|q: int| 0 <= q < paths@.len() ==> (#[trigger] paths@[q])@.len() >= 1,
            j <= paths@.len(),
            forall|q: int| 0 <= q < j ==> ls[q] != y,
        decreases paths@.len() - j,
    {
        let n = paths[j].len();
        proof {
            assert(paths@[j as int]@.len() >= 1);
            assert(ls[j as int] == paths@[j as int]@.last());
        }
        if paths[j][n - 1] == y {
            proof {
                assert(ls[j as int] == y);
            }
            return true;
        }
        j = j + 1;
    }
    false
}

/// Breadth-first search along `edges` from `from` for `target`: paths are met in
/// order, each new node once, and the first path expanded that ends at `target`
/// is returned.
pub fn shortest_path(edges: &Vec<GraphEdge>, from: u64, target: u64) -> (res: Option<Vec<u64>>)
    ensures
        shortest_path_spec(edges@, from, target) == match res {
            Some(p) => Some(p@),
            None => None::<Seq<u64>>,
        },
{
    let mut paths: Vec<Vec<u64>> = Vec::new();
    let mut first: Vec<u64> = Vec::new();
    first.push(from);
    paths.push(first);
    proof {
        assert(paths_view(paths@) =~= seq![seq![from]]);
    }
    let mut h: usize = 0;
    while h < paths.len()
        invariant
            forall|j: int| 0 <= j < paths@.len() ==> (#[trigger] paths@[j])@.len() >= 1,
            h <= paths@.len(),
            bfs(edges@, target, paths_view(paths@), h as nat) == shortest_path_spec(edges@, from, target),
        decreases unvisited(edges@, lasts(paths_view(paths@))), paths@.len() - h,
    {
        let ghost start = paths_view(paths@);
        let n = paths[h].len();
        proof {
            assert(paths@[h as int]@.len() >= 1);
        }
        let last = paths[h][n - 1];
        let mut cur: Vec<u64> = Vec::new();
        let mut i: usize = 0;
        while i < n
            invariant
                n == paths@[h as int]@.len(),
                h < paths@.len(),
                i <= n,
                cur@ == paths@[h as int]@.take(i as int),
            decreases n - i,
        {
            cur.push(paths[h][i]);
            proof {
                assert(cur@ =~= paths@[h as int]@.take(i + 1));
            }
            i = i + 1;
        }
        proof {
            assert(cur@ =~= start[h as int]);
            assert(last == start[h as int].last());
        }
        if last == target {
            return Some(cur);
        }
        let mut k: usize = 0;
        proof {
            assert(edges@.take(0) =~= Seq::<GraphEdge>::empty());
        }
        while k < edges.len()
            invariant
                h < start.len(),
                cur@ == start[h as int],
                last == cur@.last(),
                cur@.len() >= 1,
                k <= edges@.len(),
                forall|j: int| 0 <= j < paths@.len() ==> (#[trigger] paths@[j])@.len() >= 1,
                paths_view(paths@) == expand(start, cur@, edges@.take(k as int)),
            decreases edges@.len() - k,
        {
            let e = edges[k];
            proof {
                assert(edges@.take(k + 1).drop_last() =~= edges@.take(k as int));
                assert(edges@.take(k + 1).last() == e);
            }
            if e.from.0 == last && !ends_some_path(&paths, e.to.0) {
                let ghost before = paths@;
                paths.push(extend_path(&cur, e.to.0));
                proof {
                    assert(paths_view(paths@) =~= paths_view(before).push(cur@.push(e.to.0)));
                }
            }
            k = k + 1;
        }
        proof {
            assert(edges@.take(k as int) =~= edges@);
            lemma_expand(start, start[h as int], edges@, edges@);
        }
        h = h + 1;
    }
    None
}

} // verus!
