//! Candidate graph of the whole workspace before mediation: every version of every
//! artifact that some module or transitive dependency requests.
use crate::domain::{Dependency, EdgeKind, GraphEdge, Module, NodeId, VersionReq, VersionRequest};
use crate::exclusion::{children_of, is_excluded, seq_has};
use crate::pom::{PomProvider, PomView};
use crate::build::BuildError;
use crate::build::order::{all_known, collect_edges, deps_of, first_unknown};
use crate::text::str_eq;
use vstd::prelude::*;

verus! {

/// Failures of graph construction.
#[derive(Debug, Clone, PartialEq, Eq)]
pub enum GraphError {
    /// A BOM-managed dependency that no BOM gives a version for.
    MissingBomManagedVersion(String),
    /// A `^`/`~` requirement: ranges are not resolved against available versions.
    UnresolvedVersionRange { coordinate: String, requirement: String },
    /// The POM `coordinate:version` could not be fetched; `message` is the provider's.
    Fetch { coordinate: String, version: String, message: String },
    /// A `[workspace-dependencies]` entry of `module` names no module of the workspace.
    UnknownWorkspaceModule { module: String, dependency: String },
}

/// An artifact with every version requested of it, not yet mediated.
#[derive(Debug, Clone, PartialEq, Eq)]
pub struct CandidateNode {
    pub coordinate: String,
    pub requests: Vec<VersionRequest>,
}

/// The graph before mediation. `module_roots` gives each module a synthetic node
/// that is never a candidate and is the source of the module's direct edges.
#[derive(Debug, Clone)]
pub struct CandidateGraph {
    pub candidates: Vec<(NodeId, CandidateNode)>,
    pub edges: Vec<GraphEdge>,
    pub module_roots: Vec<(String, NodeId)>,
}

/// Errors of graph construction as plain values.
pub enum GraphErr {
    Missing(Seq<char>),
    Range(Seq<char>, Seq<char>),
    Fetch(Seq<char>, Seq<char>),
    Unknown(Seq<char>, Seq<char>),
}

/// A pending request of the breadth-first walk, as plain values.
pub struct ItemView {
    pub from: u64,
    pub parent: Option<Seq<char>>,
    pub coordinate: Seq<char>,
    pub version: Seq<char>,
    pub depth: u32,
    pub kind: EdgeKind,
    pub origin: Seq<char>,
}

/// State of the walk: next fresh id, coordinate ids (in creation order), edges,
/// requests `(node, version, origin module, depth)`, expanded `(coordinate, version)`
/// pairs and the FIFO queue.
pub struct GraphState {
    pub next_id: u64,
    pub ids: Seq<(Seq<char>, u64)>,
    pub edges: Seq<GraphEdge>,
    pub reqs: Seq<(u64, Seq<char>, Seq<char>, u32)>,
    pub expanded: Seq<(Seq<char>, Seq<char>)>,
    pub queue: Seq<ItemView>,
}

/// Maven semantics: only `compile`, `runtime` and the default (empty) scope are
/// inherited by dependents.
pub open spec fn propagates(scope: Seq<char>) -> bool {
    scope.len() == 0 || scope == "compile"@ || scope == "runtime"@
}

pub open spec fn is_range(v: Seq<char>) -> bool {
    v.len() > 0 && (v[0] == '^' || v[0] == '~')
}

/// Version of the first entry of `table` keyed `k`.
pub open spec fn table_get(table: Seq<(Seq<char>, Seq<char>)>, k: Seq<char>) -> Option<Seq<char>>
    decreases table.len(),
{
    if table.len() == 0 {
        None
    } else if table[0].0 == k {
        Some(table[0].1)
    } else {
        table_get(table.drop_first(), k)
    }
}

/// The version a declared dependency asks for.
pub open spec fn declared_version(dep: Dependency, bom: Seq<(Seq<char>, Seq<char>)>) -> Result<Seq<char>, GraphErr> {
    match dep.version_req {
        VersionReq::BomManaged => match table_get(bom, dep.coordinate@) {
            Some(v) => Ok(v),
            None => Err(GraphErr::Missing(dep.coordinate@)),
        },
        VersionReq::Explicit(v) => if is_range(v@) {
            Err(GraphErr::Range(dep.coordinate@, v@))
        } else {
            Ok(v@)
        },
    }
}

/// Queue items for the declared dependencies `deps` of the module with root `root`;
/// the first dependency whose version cannot be determined fails.
pub open spec fn declared_items(
    deps: Seq<Dependency>,
    bom: Seq<(Seq<char>, Seq<char>)>,
    root: u64,
    origin: Seq<char>,
) -> Result<Seq<ItemView>, GraphErr>
    decreases deps.len(),
{
    if deps.len() == 0 {
        Ok(Seq::empty())
    } else {
        match declared_items(deps.drop_last(), bom, root, origin) {
            Err(e) => Err(e),
            Ok(items) => match declared_version(deps.last(), bom) {
                Err(e) => Err(e),
                Ok(v) => Ok(
                    items.push(
                        ItemView {
                            from: root,
                            parent: None,
                            coordinate: deps.last().coordinate@,
                            version: v,
                            depth: 1,
                            kind: EdgeKind::ModuleDeclared,
                            origin,
                        },
                    ),
                ),
            },
        }
    }
}

/// Queue items of the modules `ms`; module `i` has the root node `i`.
pub open spec fn initial_items(ms: Seq<Module>, bom: Seq<(Seq<char>, Seq<char>)>) -> Result<Seq<ItemView>, GraphErr>
    decreases ms.len(),
{
    if ms.len() == 0 {
        Ok(Seq::empty())
    } else {
        match initial_items(ms.drop_last(), bom) {
            Err(e) => Err(e),
            Ok(items) => match declared_items(
                ms.last().declared_dependencies@,
                bom,
                (ms.len() - 1) as u64,
                ms.last().name@,
            ) {
                Err(e) => Err(e),
                Ok(more) => Ok(items + more),
            },
        }
    }
}

/// Sets `k -> v` in an association list, replacing an existing entry for `k`.
pub open spec fn assoc_set(t: Seq<(Seq<char>, u64)>, k: Seq<char>, v: u64) -> Seq<(Seq<char>, u64)>
    decreases t.len(),
{
    if t.len() == 0 {
        seq![(k, v)]
    } else if t[0].0 == k {
        t.update(0, (k, v))
    } else {
        seq![t[0]] + assoc_set(t.drop_first(), k, v)
    }
}

/// `module_roots` of the modules `ms`: module `i` has the root node `i`; a name
/// shared by several modules maps to the last of them.
pub open spec fn roots_of(ms: Seq<Module>) -> Seq<(Seq<char>, u64)>
    decreases ms.len(),
{
    if ms.len() == 0 {
        Seq::empty()
    } else {
        assoc_set(roots_of(ms.drop_last()), ms.last().name@, (ms.len() - 1) as u64)
    }
}

pub open spec fn id_of(ids: Seq<(Seq<char>, u64)>, c: Seq<char>) -> Option<u64>
    decreases ids.len(),
{
    if ids.len() == 0 {
        None
    } else if ids[0].0 == c {
        Some(ids[0].1)
    } else {
        id_of(ids.drop_first(), c)
    }
}

/// Items for the propagating dependencies `deps` of an expanded POM.
pub open spec fn transitive_items(
    deps: Seq<(Seq<char>, Seq<char>, Seq<char>)>,
    from: u64,
    parent: Seq<char>,
    depth: u32,
    origin: Seq<char>,
) -> Seq<ItemView>
    decreases deps.len(),
{
    if deps.len() == 0 {
        Seq::empty()
    } else {
        let items = transitive_items(deps.drop_last(), from, parent, depth, origin);
        if propagates(deps.last().2) {
            items.push(
                ItemView {
                    from,
                    parent: Some(parent),
                    coordinate: deps.last().0,
                    version: deps.last().1,
                    depth,
                    kind: EdgeKind::External,
                    origin,
                },
            )
        } else {
            items
        }
    }
}

pub open spec fn excluded_by(exclusions: Seq<(String, Vec<String>)>, parent: Seq<char>, child: Seq<char>) -> bool {
    match children_of(exclusions, parent) {
        Some(children) => seq_has(children, child),
        None => false,
    }
}

/// One step of the walk: take the head of the queue; unless an exclusion drops it,
/// give its coordinate an id (fresh if new), record the edge and the request, and
/// the first time a `(coordinate, version)` is met fetch its POM and queue the
/// propagating dependencies one level deeper.
pub open spec fn graph_step<P: PomProvider>(
    provider: P,
    exclusions: Seq<(String, Vec<String>)>,
    s: GraphState,
) -> Result<GraphState, GraphErr> {
    if s.queue.len() == 0 {
        Ok(s)
    } else {
        let item = s.queue[0];
        let rest = s.queue.drop_first();
        if item.parent is Some && excluded_by(exclusions, item.parent->0, item.coordinate) {
            Ok(GraphState { queue: rest, ..s })
        } else {
            let (to, ids, next_id) = match id_of(s.ids, item.coordinate) {
                Some(id) => (id, s.ids, s.next_id),
                None => (s.next_id, s.ids.push((item.coordinate, s.next_id)), s.next_id.wrapping_add(1)),
            };
            let edges = s.edges.push(GraphEdge { from: NodeId(item.from), to: NodeId(to), kind: item.kind });
            let reqs = s.reqs.push((to, item.version, item.origin, item.depth));
            if s.expanded.contains((item.coordinate, item.version)) {
                Ok(GraphState { next_id, ids, edges, reqs, expanded: s.expanded, queue: rest })
            } else {
                match provider.published(item.coordinate, item.version) {
                    None => Err(GraphErr::Fetch(item.coordinate, item.version)),
                    Some(pom) => Ok(
                        GraphState {
                            next_id,
                            ids,
                            edges,
                            reqs,
                            expanded: s.expanded.push((item.coordinate, item.version)),
                            queue: rest + transitive_items(
                                pom.dependencies,
                                to,
                                item.coordinate,
                                item.depth.wrapping_add(1),
                                item.origin,
                            ),
                        },
                    ),
                }
            }
        }
    }
}

pub open spec fn graph_iter<P: PomProvider>(
    provider: P,
    exclusions: Seq<(String, Vec<String>)>,
    s: GraphState,
    k: nat,
) -> Result<GraphState, GraphErr>
    decreases k,
{
    if k == 0 {
        Ok(s)
    } else {
        match graph_iter(provider, exclusions, s, (k - 1) as nat) {
            Err(e) => Err(e),
            Ok(t) => graph_step(provider, exclusions, t),
        }
    }
}

/// The walk's starting state for `modules`.
pub open spec fn initial_state(modules: Seq<Module>, items: Seq<ItemView>) -> GraphState {
    GraphState {
        next_id: modules.len() as u64,
        ids: Seq::empty(),
        edges: Seq::empty(),
        reqs: Seq::empty(),
        expanded: Seq::empty(),
        queue: items,
    }
}

/// The walk reaches `end`, with nothing left to process, from the start state.
pub open spec fn walk_ends_in<P: PomProvider>(
    provider: P,
    exclusions: Seq<(String, Vec<String>)>,
    start: GraphState,
    end: GraphState,
) -> bool {
    exists|k: nat| #[trigger] graph_iter(provider, exclusions, start, k) == Ok::<GraphState, GraphErr>(end) && end.queue.len() == 0
}

/// The next step from `s` fetches the POM `coordinate:version`: the head of the
/// queue is not excluded and that pair is not expanded yet.
pub open spec fn about_to_fetch(
    exclusions: Seq<(String, Vec<String>)>,
    s: GraphState,
    coordinate: Seq<char>,
    version: Seq<char>,
) -> bool {
    &&& s.queue.len() > 0
    &&& !(s.queue[0].parent is Some && excluded_by(exclusions, s.queue[0].parent->0, s.queue[0].coordinate))
    &&& s.queue[0].coordinate == coordinate
    &&& s.queue[0].version == version
    &&& !s.expanded.contains((coordinate, version))
}

/// The walk from the start state reaches a state whose next step fetches the POM
/// `coordinate:version`.
pub open spec fn walk_fetches<P: PomProvider>(
    provider: P,
    exclusions: Seq<(String, Vec<String>)>,
    start: GraphState,
    coordinate: Seq<char>,
    version: Seq<char>,
) -> bool {
    exists|k: nat|
        #[trigger] graph_iter(provider, exclusions, start, k) is Ok && about_to_fetch(
            exclusions,
            graph_iter(provider, exclusions, start, k)->Ok_0,
            coordinate,
            version,
        )
}

/// The requests recorded for node `id`, in order.
pub open spec fn requests_of(reqs: Seq<(u64, Seq<char>, Seq<char>, u32)>, id: u64) -> Seq<(Seq<char>, Seq<char>, u32)>
    decreases reqs.len(),
{
    if reqs.len() == 0 {
        Seq::empty()
    } else {
        let rest = requests_of(reqs.drop_last(), id);
        if reqs.last().0 == id {
            rest.push((reqs.last().1, reqs.last().2, reqs.last().3))
        } else {
            rest
        }
    }
}

pub open spec fn request_view(r: VersionRequest) -> (Seq<char>, Seq<char>, u32) {
    (r.version@, r.origin_module@, r.depth)
}

/// The candidate graph matches the final state `s` of the walk.
pub open spec fn graph_matches(g: CandidateGraph, s: GraphState, roots: Seq<(Seq<char>, u64)>) -> bool {
    &&& g.edges@ == s.edges
    &&& g.module_roots@.map_values(|r: (String, NodeId)| (r.0@, r.1.0)) == roots
    &&& g.candidates@.len() == s.ids.len()
    &&& forall|i: int|
        0 <= i < s.ids.len() ==> {
            &&& (#[trigger] g.candidates@[i]).0.0 == s.ids[i].1
            &&& g.candidates@[i].1.coordinate@ == s.ids[i].0
            &&& g.candidates@[i].1.requests@.map_values(|r: VersionRequest| request_view(r)) == requests_of(
                s.reqs,
                s.ids[i].1,
            )
        }
}

pub open spec fn graph_error_view(e: GraphError) -> GraphErr {
    match e {
        GraphError::MissingBomManagedVersion(c) => GraphErr::Missing(c@),
        GraphError::UnresolvedVersionRange { coordinate, requirement } => GraphErr::Range(coordinate@, requirement@),
        GraphError::Fetch { coordinate, version, message } => GraphErr::Fetch(coordinate@, version@),
        GraphError::UnknownWorkspaceModule { module, dependency } => GraphErr::Unknown(module@, dependency@),
    }
}

/// The `(coordinate, version)` pairs within `k` expansions of the requests `items`:
/// those of the items, then those of the propagating dependencies of each pair met
/// whose POM is published.
pub open spec fn reach_within<P: PomProvider>(provider: P, items: Seq<ItemView>, k: nat) -> Set<(Seq<char>, Seq<char>)>
    decreases k,
{
    if k == 0 {
        Set::new(|cv: (Seq<char>, Seq<char>)| exists|i: int| 0 <= i < items.len() && #[trigger] items[i].coordinate == cv.0 && items[i].version == cv.1)
    } else {
        let prev = reach_within(provider, items, (k - 1) as nat);
        prev.union(
            Set::new(
                |cv: (Seq<char>, Seq<char>)|
                    exists|c: Seq<char>, v: Seq<char>, q: int|
                        #![trigger prev.contains((c, v)), provider.published(c, v)->0.dependencies[q]]
                        prev.contains((c, v)) && provider.published(c, v) is Some && 0 <= q < provider.published(
                            c,
                            v,
                        )->0.dependencies.len() && propagates(provider.published(c, v)->0.dependencies[q].2)
                            && provider.published(c, v)->0.dependencies[q].0 == cv.0 && provider.published(
                            c,
                            v,
                        )->0.dependencies[q].1 == cv.1,
            ),
        )
    }
}

/// The `(coordinate, version)` pairs the walk can meet from the requests `items`.
pub open spec fn reachable_pairs<P: PomProvider>(provider: P, items: Seq<ItemView>) -> Set<(Seq<char>, Seq<char>)> {
    Set::new(|cv: (Seq<char>, Seq<char>)| exists|k: nat| #[trigger] reach_within(provider, items, k).contains(cv))
}

proof fn lemma_transitive_items_pairs(
    deps: Seq<(Seq<char>, Seq<char>, Seq<char>)>,
    from: u64,
    parent: Seq<char>,
    depth: u32,
    origin: Seq<char>,
)
    ensures
        forall|i: int|
            0 <= i < transitive_items(deps, from, parent, depth, origin).len() ==> exists|q: int|
                0 <= q < deps.len() && propagates(deps[q].2) && deps[q].0 == (#[trigger] transitive_items(
                    deps,
                    from,
                    parent,
                    depth,
                    origin,
                )[i]).coordinate && deps[q].1 == transitive_items(deps, from, parent, depth, origin)[i].version,
    decreases deps.len(),
{
    if deps.len() > 0 {
        let prev = deps.drop_last();
        lemma_transitive_items_pairs(prev, from, parent, depth, origin);
        let items = transitive_items(prev, from, parent, depth, origin);
        let all = transitive_items(deps, from, parent, depth, origin);
        assert forall|i: int| 0 <= i < all.len() implies exists|q: int|
            0 <= q < deps.len() && propagates(deps[q].2) && deps[q].0 == (#[trigger] all[i]).coordinate && deps[q].1
                == all[i].version by {
            if i < items.len() {
                assert(all[i] == items[i]);
                let q = choose|q: int|
                    0 <= q < prev.len() && propagates(prev[q].2) && prev[q].0 == (#[trigger] items[i]).coordinate
                        && prev[q].1 == items[i].version;
                assert(deps[q] == prev[q]);
            } else {
                assert(deps[deps.len() - 1] == deps.last());
            }
        }
    }
}

/// The value of the first entry of `table` keyed `key`.
pub fn lookup_value(table: &Vec<(String, String)>, key: &str) -> (res: Option<String>)
    ensures
        table_get(crate::bom::pairs_view(table@), key@) == match res {
            Some(v) => Some(v@),
            None => None::<Seq<char>>,
        },
{
    let ghost t = crate::bom::pairs_view(table@);
    let mut i: usize = 0;
    proof {
        assert(t.skip(0) =~= t);
    }
    while i < table.len()
        invariant
            t == crate::bom::pairs_view(table@),
            i <= table@.len(),
            table_get(t, key@) == table_get(t.skip(i as int), key@),
        decreases table@.len() - i,
    {
        proof {
            assert(t.skip(i as int)[0] == (table@[i as int].0@, table@[i as int].1@));
            assert(t.skip(i as int).drop_first() =~= t.skip(i + 1));
        }
        if str_eq(table[i].0.as_str(), key) {
            return Some(table[i].1.clone());
        }
        i = i + 1;
    }
    None
}

fn propagates_transitively(scope: &str) -> (res: bool)
    ensures
        res == propagates(scope@),
{
    scope.unicode_len() == 0 || str_eq(scope, "compile") || str_eq(scope, "runtime")
}

fn resolve_declared_version(dep: &Dependency, bom_table: &Vec<(String, String)>) -> (res: Result<String, GraphError>)
    ensures
        match res {
            Ok(v) => declared_version(*dep, crate::bom::pairs_view(bom_table@)) == Ok::<Seq<char>, GraphErr>(v@),
            Err(e) => declared_version(*dep, crate::bom::pairs_view(bom_table@)) == Err::<Seq<char>, GraphErr>(
                graph_error_view(e),
            ),
        },
{
    match &dep.version_req {
        VersionReq::BomManaged => {
            let ghost t = crate::bom::pairs_view(bom_table@);
            let mut i: usize = 0;
            proof {
                assert(t.skip(0) =~= t);
            }
            while i < bom_table.len()
                invariant
                    t == crate::bom::pairs_view(bom_table@),
                    dep.version_req is BomManaged,
                    i <= bom_table@.len(),
                    table_get(t, dep.coordinate@) == table_get(t.skip(i as int), dep.coordinate@),
                decreases bom_table@.len() - i,
            {
                proof {
                    assert(t.skip(i as int)[0] == (bom_table@[i as int].0@, bom_table@[i as int].1@));
                    assert(t.skip(i as int).drop_first() =~= t.skip(i + 1));
                }
                if str_eq(bom_table[i].0.as_str(), dep.coordinate.as_str()) {
                    return Ok(bom_table[i].1.clone());
                }
                i = i + 1;
            }
            Err(GraphError::MissingBomManagedVersion(dep.coordinate.clone()))
        },
        VersionReq::Explicit(v) => {
            if v.as_str().unicode_len() > 0 && (v.as_str().get_char(0) == '^' || v.as_str().get_char(0) == '~') {
                Err(GraphError::UnresolvedVersionRange { coordinate: dep.coordinate.clone(), requirement: v.clone() })
            } else {
                Ok(v.clone())
            }
        },
    }
}

} // verus!

verus! {

struct QueueItem {
    from: NodeId,
    parent_coordinate: Option<String>,
    coordinate: String,
    version: String,
    depth: u32,
    kind: EdgeKind,
    origin_module: String,
}

spec fn item_view(q: QueueItem) -> ItemView {
    ItemView {
        from: q.from.0,
        parent: match q.parent_coordinate {
            Some(p) => Some(p@),
            None => None,
        },
        coordinate: q.coordinate@,
        version: q.version@,
        depth: q.depth,
        kind: q.kind,
        origin: q.origin_module@,
    }
}

spec fn items_view(s: Seq<QueueItem>) -> Seq<ItemView> {
    s.map_values(|q: QueueItem| item_view(q))
}

pub open spec fn ids_view(s: Seq<(String, NodeId)>) -> Seq<(Seq<char>, u64)> {
    s.map_values(|p: (String, NodeId)| (p.0@, p.1.0))
}

pub open spec fn reqs_view(s: Seq<(NodeId, VersionRequest)>) -> Seq<(u64, Seq<char>, Seq<char>, u32)> {
    s.map_values(|p: (NodeId, VersionRequest)| (p.0.0, p.1.version@, p.1.origin_module@, p.1.depth))
}

fn find_id(ids: &Vec<(String, NodeId)>, c: &String) -> (res: Option<NodeId>)
    ensures
        match res {
            Some(id) => id_of(ids_view(ids@), c@) == Some(id.0),
            None => id_of(ids_view(ids@), c@) is None,
        },
{
    let ghost t = ids_view(ids@);
    let mut i: usize = 0;
    proof {
        assert(t.skip(0) =~= t);
    }
    while i < ids.len()
        invariant
            t == ids_view(ids@),
            i <= ids@.len(),
            id_of(t, c@) == id_of(t.skip(i as int), c@),
        decreases ids@.len() - i,
    {
        proof {
            assert(t.skip(i as int)[0] == (ids@[i as int].0@, ids@[i as int].1.0));
            assert(t.skip(i as int).drop_first() =~= t.skip(i + 1));
        }
        if str_eq(ids[i].0.as_str(), c.as_str()) {
            return Some(ids[i].1);
        }
        i = i + 1;
    }
    None
}

fn has_pair(pairs: &Vec<(String, String)>, c: &String, v: &String) -> (res: bool)
    ensures
        res == crate::bom::pairs_view(pairs@).contains((c@, v@)),
{
    let ghost t = crate::bom::pairs_view(pairs@);
    let mut i: usize = 0;
    while i < pairs.len()
        invariant
            t == crate::bom::pairs_view(pairs@),
            i <= pairs@.len(),
            forall|j: int| 0 <= j < i ==> t[j] != (c@, v@),
        decreases pairs@.len() - i,
    {
        if str_eq(pairs[i].0.as_str(), c.as_str()) && str_eq(pairs[i].1.as_str(), v.as_str()) {
            proof {
                assert(t[i as int] == (c@, v@));
            }
            return true;
        }
        i = i + 1;
    }
    proof {
        if t.contains((c@, v@)) {
            let j = choose|j: int| 0 <= j < t.len() && #[trigger] t[j] == (c@, v@);
        }
    }
    false
}

proof fn lemma_assoc_set(t: Seq<(Seq<char>, u64)>, k: Seq<char>, v: u64, a: int)
    requires
        0 <= a <= t.len(),
        forall|b: int| 0 <= b < a ==> t[b].0 != k,
        a < t.len() ==> t[a].0 == k,
    ensures
        assoc_set(t, k, v) == if a < t.len() {
            t.update(a, (k, v))
        } else {
            t.push((k, v))
        },
    decreases t.len(),
{
    if t.len() > 0 && a > 0 {
        lemma_assoc_set(t.drop_first(), k, v, a - 1);
        if a < t.len() {
            assert(seq![t[0]] + t.drop_first().update(a - 1, (k, v)) =~= t.update(a, (k, v)));
        } else {
            assert(seq![t[0]] + t.drop_first().push((k, v)) =~= t.push((k, v)));
        }
    } else if t.len() == 0 {
        assert(seq![(k, v)] =~= t.push((k, v)));
    }
}

fn set_root(roots: &mut Vec<(String, NodeId)>, name: &String, id: NodeId)
    ensures
        ids_view(final(roots)@) == assoc_set(ids_view(old(roots)@), name@, id.0),
{
    let ghost t = ids_view(roots@);
    let mut a: usize = 0;
    while a < roots.len()
        invariant
            t == ids_view(old(roots)@),
            roots@ == old(roots)@,
            a <= roots@.len(),
            forall|b: int| 0 <= b < a ==> t[b].0 != name@,
        decreases roots@.len() - a,
    {
        if str_eq(roots[a].0.as_str(), name.as_str()) {
            proof {
                lemma_assoc_set(t, name@, id.0, a as int);
            }
            roots[a].1 = id;
            proof {
                assert(ids_view(roots@) =~= t.update(a as int, (name@, id.0)));
            }
            return;
        }
        a = a + 1;
    }
    proof {
        lemma_assoc_set(t, name@, id.0, a as int);
    }
    roots.push((name.clone(), id));
    proof {
        assert(ids_view(roots@) =~= t.push((name@, id.0)));
    }
}

pub open spec fn chain(a: Result<Seq<ItemView>, GraphErr>, b: Result<Seq<ItemView>, GraphErr>) -> Result<
    Seq<ItemView>,
    GraphErr,
> {
    match a {
        Err(e) => Err(e),
        Ok(x) => match b {
            Err(e) => Err(e),
            Ok(y) => Ok(x + y),
        },
    }
}

fn initial_queue(modules: &[Module], bom_table: &Vec<(String, String)>) -> (res: Result<
    (Vec<QueueItem>, Vec<(String, NodeId)>),
    GraphError,
>)
    ensures
        match res {
            Ok((queue, roots)) => initial_items(modules@, crate::bom::pairs_view(bom_table@)) == Ok::<
                Seq<ItemView>,
                GraphErr,
            >(items_view(queue@)) && ids_view(roots@) == roots_of(modules@),
            Err(e) => initial_items(modules@, crate::bom::pairs_view(bom_table@)) == Err::<Seq<ItemView>, GraphErr>(
                graph_error_view(e),
            ),
        },
{
    let ghost bom = crate::bom::pairs_view(bom_table@);
    let mut queue: Vec<QueueItem> = Vec::new();
    let mut roots: Vec<(String, NodeId)> = Vec::new();
    let mut next_id: u64 = 0;
    let mut i: usize = 0;
    proof {
        assert(modules@.take(0) =~= Seq::<Module>::empty());
        assert(items_view(queue@) =~= Seq::<ItemView>::empty());
        assert(ids_view(roots@) =~= Seq::<(Seq<char>, u64)>::empty());
    }
    while i < modules.len()
        invariant
            bom == crate::bom::pairs_view(bom_table@),
            i <= modules@.len(),
            next_id == i as u64,
            initial_items(modules@.take(i as int), bom) == Ok::<Seq<ItemView>, GraphErr>(items_view(queue@)),
            ids_view(roots@) == roots_of(modules@.take(i as int)),
        decreases modules@.len() - i,
    {
        let module = &modules[i];
        let root_id = NodeId(next_id);
        next_id = next_id + 1;
        proof {
            assert(modules@.take(i + 1).drop_last() =~= modules@.take(i as int));
            assert(modules@.take(i + 1).last() == module);
        }
        set_root(&mut roots, &module.name, root_id);
        let deps = &module.declared_dependencies;
        let ghost before = items_view(queue@);
        let mut j: usize = 0;
        proof {
            assert(deps@.take(0) =~= Seq::<Dependency>::empty());
            assert(before + Seq::<ItemView>::empty() =~= before);
        }
        while j < deps.len()
            invariant
                bom == crate::bom::pairs_view(bom_table@),
                i < modules@.len(),
                module == modules@[i as int],
                deps == module.declared_dependencies,
                root_id.0 == i as u64,
                j <= deps@.len(),
                initial_items(modules@.take(i as int), bom) == Ok::<Seq<ItemView>, GraphErr>(before),
                chain(Ok(before), declared_items(deps@.take(j as int), bom, i as u64, module.name@)) == Ok::<
                    Seq<ItemView>,
                    GraphErr,
                >(items_view(queue@)),
            decreases deps@.len() - j,
        {
            proof {
                assert(deps@.take(j + 1).drop_last() =~= deps@.take(j as int));
                assert(deps@.take(j + 1).last() == deps@[j as int]);
            }
            let version = match resolve_declared_version(&deps[j], bom_table) {
                Ok(v) => v,
                Err(e) => {
                    proof {
                        lemma_initial_prefix_err(modules@, bom, i as int, deps@.take(j + 1), graph_error_view(e));
                    }
                    return Err(e);
                },
            };
            let ghost q0 = items_view(queue@);
            queue.push(
                QueueItem {
                    from: root_id,
                    parent_coordinate: None,
                    coordinate: deps[j].coordinate.clone(),
                    version,
                    depth: 1,
                    kind: EdgeKind::ModuleDeclared,
                    origin_module: module.name.clone(),
                },
            );
            proof {
                assert(items_view(queue@) =~= q0.push(item_view(queue@.last())));
                let dj = declared_items(deps@.take(j as int), bom, i as u64, module.name@);
                assert(dj is Ok);
                assert(before + dj->Ok_0 == q0);
                assert(before + dj->Ok_0.push(item_view(queue@.last())) =~= q0.push(item_view(queue@.last())));
            }
            j = j + 1;
        }
        proof {
            assert(deps@.take(j as int) =~= deps@);
        }
        i = i + 1;
    }
    proof {
        assert(modules@.take(i as int) =~= modules@);
    }
    Ok((queue, roots))
}

proof fn lemma_initial_prefix_err(
    ms: Seq<Module>,
    bom: Seq<(Seq<char>, Seq<char>)>,
    i: int,
    deps: Seq<Dependency>,
    e: GraphErr,
)
    requires
        0 <= i < ms.len(),
        initial_items(ms.take(i), bom) is Ok,
        declared_items(deps, bom, i as u64, ms[i].name@) == Err::<Seq<ItemView>, GraphErr>(e),
        deps.len() <= ms[i].declared_dependencies@.len(),
        deps == ms[i].declared_dependencies@.take(deps.len() as int),
    ensures
        initial_items(ms, bom) == Err::<Seq<ItemView>, GraphErr>(e),
{
    lemma_declared_prefix_err(ms[i].declared_dependencies@, bom, i as u64, ms[i].name@, deps.len() as int, e);
    assert(ms.take(i + 1).drop_last() =~= ms.take(i));
    assert(ms.take(i + 1).last() == ms[i]);
    assert(initial_items(ms.take(i + 1), bom) == Err::<Seq<ItemView>, GraphErr>(e));
    lemma_initial_err_extends(ms, bom, i + 1, e);
}

proof fn lemma_declared_prefix_err(
    deps: Seq<Dependency>,
    bom: Seq<(Seq<char>, Seq<char>)>,
    root: u64,
    origin: Seq<char>,
    j: int,
    e: GraphErr,
)
    requires
        0 <= j <= deps.len(),
        declared_items(deps.take(j), bom, root, origin) == Err::<Seq<ItemView>, GraphErr>(e),
    ensures
        declared_items(deps, bom, root, origin) == Err::<Seq<ItemView>, GraphErr>(e),
    decreases deps.len() - j,
{
    if j < deps.len() {
        assert(deps.take(j + 1).drop_last() =~= deps.take(j));
        lemma_declared_prefix_err(deps, bom, root, origin, j + 1, e);
    } else {
        assert(deps.take(j) =~= deps);
    }
}

proof fn lemma_initial_err_extends(ms: Seq<Module>, bom: Seq<(Seq<char>, Seq<char>)>, i: int, e: GraphErr)
    requires
        0 <= i <= ms.len(),
        initial_items(ms.take(i), bom) == Err::<Seq<ItemView>, GraphErr>(e),
    ensures
        initial_items(ms, bom) == Err::<Seq<ItemView>, GraphErr>(e),
    decreases ms.len() - i,
{
    if i < ms.len() {
        assert(ms.take(i + 1).drop_last() =~= ms.take(i));
        lemma_initial_err_extends(ms, bom, i + 1, e);
    } else {
        assert(ms.take(i) =~= ms);
    }
}

} // verus!

verus! {

spec fn state_view(
    next_id: u64,
    ids: Seq<(String, NodeId)>,
    edges: Seq<GraphEdge>,
    reqs: Seq<(NodeId, VersionRequest)>,
    expanded: Seq<(String, String)>,
    queue: Seq<QueueItem>,
    head: int,
) -> GraphState {
    GraphState {
        next_id,
        ids: ids_view(ids),
        edges,
        reqs: reqs_view(reqs),
        expanded: crate::bom::pairs_view(expanded),
        queue: items_view(queue).skip(head),
    }
}

fn push_transitives(
    queue: &mut Vec<QueueItem>,
    deps: &Vec<crate::pom::PomDependency>,
    to: NodeId,
    coordinate: &String,
    depth: u32,
    origin: &String,
)
    ensures
        items_view(final(queue)@) == items_view(old(queue)@) + transitive_items(
            deps@.map_values(|d: crate::pom::PomDependency| (d.coordinate@, d.version@, d.scope@)),
            to.0,
            coordinate@,
            depth,
            origin@,
        ),
{
    let ghost dv = deps@.map_values(|d: crate::pom::PomDependency| (d.coordinate@, d.version@, d.scope@));
    let ghost q0 = items_view(queue@);
    let mut j: usize = 0;
    proof {
        assert(dv.take(0) =~= Seq::<(Seq<char>, Seq<char>, Seq<char>)>::empty());
        assert(q0 + Seq::<ItemView>::empty() =~= q0);
    }
    while j < deps.len()
        invariant
            dv == deps@.map_values(|d: crate::pom::PomDependency| (d.coordinate@, d.version@, d.scope@)),
            j <= deps@.len(),
            items_view(queue@) == q0 + transitive_items(dv.take(j as int), to.0, coordinate@, depth, origin@),
        decreases deps@.len() - j,
    {
        proof {
            assert(dv.take(j + 1).drop_last() =~= dv.take(j as int));
            assert(dv.take(j + 1).last() == dv[j as int]);
        }
        let d = &deps[j];
        if propagates_transitively(d.scope.as_str()) {
            let ghost before = items_view(queue@);
            queue.push(
                QueueItem {
                    from: to,
                    parent_coordinate: Some(coordinate.clone()),
                    coordinate: d.coordinate.clone(),
                    version: d.version.clone(),
                    depth,
                    kind: EdgeKind::External,
                    origin_module: origin.clone(),
                },
            );
            proof {
                assert(items_view(queue@) =~= before.push(item_view(queue@.last())));
                let t = transitive_items(dv.take(j as int), to.0, coordinate@, depth, origin@);
                assert(q0 + t.push(item_view(queue@.last())) =~= (q0 + t).push(item_view(queue@.last())));
            }
        }
        j = j + 1;
    }
    proof {
        assert(dv.take(j as int) =~= dv);
    }
}

fn assemble_candidates(ids: &Vec<(String, NodeId)>, reqs: &Vec<(NodeId, VersionRequest)>) -> (res: Vec<
    (NodeId, CandidateNode),
>)
    ensures
        res@.len() == ids@.len(),
        forall|i: int|
            0 <= i < ids@.len() ==> {
                &&& (#[trigger] res@[i]).0 == ids@[i].1
                &&& res@[i].1.coordinate@ == ids@[i].0@
                &&& res@[i].1.requests@.map_values(|r: VersionRequest| request_view(r)) == requests_of(
                    reqs_view(reqs@),
                    ids@[i].1.0,
                )
            },
{
    let mut res: Vec<(NodeId, CandidateNode)> = Vec::new();
    let mut i: usize = 0;
    while i < ids.len()
        invariant
            i <= ids@.len(),
            res@.len() == i,
            forall|a: int|
                0 <= a < i ==> {
                    &&& (#[trigger] res@[a]).0 == ids@[a].1
                    &&& res@[a].1.coordinate@ == ids@[a].0@
                    &&& res@[a].1.requests@.map_values(|r: VersionRequest| request_view(r)) == requests_of(
                        reqs_view(reqs@),
                        ids@[a].1.0,
                    )
                },
        decreases ids@.len() - i,
    {
        let id = ids[i].1;
        let mut requests: Vec<VersionRequest> = Vec::new();
        let mut k: usize = 0;
        proof {
            assert(reqs_view(reqs@).take(0) =~= Seq::<(u64, Seq<char>, Seq<char>, u32)>::empty());
            assert(requests@.map_values(|r: VersionRequest| request_view(r)) =~= Seq::<
                (Seq<char>, Seq<char>, u32),
            >::empty());
        }
        while k < reqs.len()
            invariant
                k <= reqs@.len(),
                requests@.map_values(|r: VersionRequest| request_view(r)) == requests_of(
                    reqs_view(reqs@).take(k as int),
                    id.0,
                ),
            decreases reqs@.len() - k,
        {
            proof {
                assert(reqs_view(reqs@).take(k + 1).drop_last() =~= reqs_view(reqs@).take(k as int));
                assert(reqs_view(reqs@).take(k + 1).last() == reqs_view(reqs@)[k as int]);
            }
            if reqs[k].0.0 == id.0 {
                let ghost before = requests@;
                let r = &reqs[k].1;
                requests.push(
                    VersionRequest {
                        version: r.version.clone(),
                        origin_module: r.origin_module.clone(),
                        depth: r.depth,
                    },
                );
                proof {
                    assert(requests@.map_values(|r: VersionRequest| request_view(r)) =~= before.map_values(
                        |r: VersionRequest| request_view(r),
                    ).push(request_view(requests@.last())));
                }
            }
            k = k + 1;
        }
        proof {
            assert(reqs_view(reqs@).take(k as int) =~= reqs_view(reqs@));
        }
        res.push((id, CandidateNode { coordinate: ids[i].0.clone(), requests }));
        i = i + 1;
    }
    res
}

/// Builds the candidate graph of the whole workspace breadth-first. A
/// `[workspace-dependencies]` entry that names no module is rejected first (the
/// first such entry, modules and entries in order). Then each module's
/// declared dependencies (BOM-managed ones through `bom_table`) are queued from the
/// module's root node; each queued request not dropped by `exclusions` becomes an
/// edge and a version request, and the first time a `(coordinate, version)` is met
/// its POM is fetched from `provider` and its `compile`/`runtime` dependencies are
/// queued one level deeper. A failed fetch ends the walk with the POM it was
/// about to fetch. The pairs reachable from the declared dependencies must be
/// finitely many (dependency cycles between POMs are allowed).
pub fn build_graph<P: PomProvider>(
    modules: &[Module],
    bom_table: &Vec<(String, String)>,
    exclusions: &Vec<(String, Vec<String>)>,
    provider: &P,
) -> (res: Result<CandidateGraph, GraphError>)
    requires
        initial_items(modules@, crate::bom::pairs_view(bom_table@)) is Ok ==> reachable_pairs(
            *provider,
            initial_items(modules@, crate::bom::pairs_view(bom_table@))->Ok_0,
        ).finite(),
    ensures
        !all_known(modules@) ==> (res matches Err(GraphError::UnknownWorkspaceModule { module, dependency })
            && exists|i: int, j: int|
            #![trigger deps_of(modules@[i])[j]]
            first_unknown(modules@, i, j) && module@ == modules@[i].name@ && dependency@ == deps_of(modules@[i])[j]),
        all_known(modules@) && initial_items(modules@, crate::bom::pairs_view(bom_table@)) is Err ==> res is Err && graph_error_view(
            res->Err_0,
        ) == initial_items(modules@, crate::bom::pairs_view(bom_table@))->Err_0,
        res is Ok ==> all_known(modules@) && initial_items(modules@, crate::bom::pairs_view(bom_table@)) is Ok && exists|end: GraphState|
            #![trigger graph_matches(res->Ok_0, end, roots_of(modules@))]
            walk_ends_in(
                *provider,
                exclusions@,
                initial_state(modules@, initial_items(modules@, crate::bom::pairs_view(bom_table@))->Ok_0),
                end,
            ) && graph_matches(res->Ok_0, end, roots_of(modules@)),
        res is Err && all_known(modules@) && initial_items(modules@, crate::bom::pairs_view(bom_table@)) is Ok ==> (
        res->Err_0 is Fetch && walk_fetches(
            *provider,
            exclusions@,
            initial_state(modules@, initial_items(modules@, crate::bom::pairs_view(bom_table@))->Ok_0),
            res->Err_0->Fetch_coordinate@,
            res->Err_0->Fetch_version@,
        )),
{
    match collect_edges(modules) {
        Ok(_) => {},
        Err(BuildError::UnknownWorkspaceModule { module, dependency }) => {
            return Err(GraphError::UnknownWorkspaceModule { module, dependency });
        },
        Err(_) => {
            proof {
                assert(false);
            }
            return Err(GraphError::UnknownWorkspaceModule { module: String::new(), dependency: String::new() });
        },
    }
    let (mut queue, module_roots) = match initial_queue(modules, bom_table) {
        Ok(found) => found,
        Err(e) => return Err(e),
    };
    let ghost start = initial_state(modules@, items_view(queue@));
    let ghost domain = reachable_pairs(*provider, start.queue);
    let mut next_id: u64 = modules.len() as u64;
    let mut ids: Vec<(String, NodeId)> = Vec::new();
    let mut edges: Vec<GraphEdge> = Vec::new();
    let mut reqs: Vec<(NodeId, VersionRequest)> = Vec::new();
    let mut expanded: Vec<(String, String)> = Vec::new();
    let mut head: usize = 0;
    let ghost mut steps: nat = 0;
    proof {
        assert(state_view(next_id, ids@, edges@, reqs@, expanded@, queue@, 0) =~= start) by {
            assert(items_view(queue@).skip(0) =~= items_view(queue@));
            assert(ids_view(ids@) =~= Seq::<(Seq<char>, u64)>::empty());
            assert(reqs_view(reqs@) =~= Seq::<(u64, Seq<char>, Seq<char>, u32)>::empty());
            assert(crate::bom::pairs_view(expanded@) =~= Seq::<(Seq<char>, Seq<char>)>::empty());
            assert(edges@ =~= Seq::<GraphEdge>::empty());
        }
        assert forall|j: int| 0 <= j < queue@.len() implies #[trigger] domain.contains(
            (items_view(queue@)[j].coordinate, items_view(queue@)[j].version),
        ) by {
            let it = items_view(queue@)[j];
            assert(start.queue[j] == it);
            assert(reach_within(*provider, start.queue, 0).contains((it.coordinate, it.version)));
        }
    }
    while head < queue.len()
        invariant
            all_known(modules@),
            domain == reachable_pairs(*provider, start.queue),
            domain.finite(),
            forall|j: int|
                head <= j < queue@.len() ==> #[trigger] domain.contains(
                    (items_view(queue@)[j].coordinate, items_view(queue@)[j].version),
                ),
            start == initial_state(modules@, start.queue),
            ids_view(module_roots@) == roots_of(modules@),
            initial_items(modules@, crate::bom::pairs_view(bom_table@)) == Ok::<Seq<ItemView>, GraphErr>(start.queue),
            head <= queue@.len(),
            graph_iter(*provider, exclusions@, start, steps) == Ok::<GraphState, GraphErr>(
                state_view(next_id, ids@, edges@, reqs@, expanded@, queue@, head as int),
            ),
        decreases domain.difference(crate::bom::pairs_view(expanded@).to_set()).len(), queue@.len() - head,
    {
        let ghost s = state_view(next_id, ids@, edges@, reqs@, expanded@, queue@, head as int);
        proof {
            assert(s.queue[0] == item_view(queue@[head as int]));
            assert(s.queue.drop_first() =~= items_view(queue@).skip(head + 1));
            assert(domain.contains((items_view(queue@)[head as int].coordinate, items_view(queue@)[head as int].version)));
        }
        let ghost q_before = items_view(queue@);
        let from = queue[head].from;
        let kind = queue[head].kind;
        let depth = queue[head].depth;
        let coordinate = queue[head].coordinate.clone();
        let version = queue[head].version.clone();
        let origin = queue[head].origin_module.clone();
        let excluded = match &queue[head].parent_coordinate {
            Some(parent) => is_excluded(exclusions.as_slice(), parent.as_str(), coordinate.as_str()),
            None => false,
        };
        head = head + 1;
        if excluded {
            proof {
                steps = steps + 1;
                assert(state_view(next_id, ids@, edges@, reqs@, expanded@, queue@, head as int) =~= GraphState {
                    queue: s.queue.drop_first(),
                    ..s
                });
            }
            continue;
        }
        let to = match find_id(&ids, &coordinate) {
            Some(id) => id,
            None => {
                let id = NodeId(next_id);
                next_id = next_id.wrapping_add(1);
                let ghost before = ids@;
                ids.push((coordinate.clone(), id));
                proof {
                    assert(ids_view(ids@) =~= ids_view(before).push((coordinate@, id.0)));
                }
                id
            },
        };
        edges.push(GraphEdge { from, to, kind });
        let ghost reqs_before = reqs@;
        reqs.push((to, VersionRequest { version: version.clone(), origin_module: origin.clone(), depth }));
        proof {
            assert(reqs_view(reqs@) =~= reqs_view(reqs_before).push((to.0, version@, origin@, depth)));
        }
        if !has_pair(&expanded, &coordinate, &version) {
            let ghost exp_before = expanded@;
            expanded.push((coordinate.clone(), version.clone()));
            proof {
                assert(crate::bom::pairs_view(expanded@) =~= crate::bom::pairs_view(exp_before).push(
                    (coordinate@, version@),
                ));
            }
            let pom = match provider.fetch(coordinate.as_str(), version.as_str()) {
                Ok(p) => p,
                Err(message) => {
                    proof {
                        assert(about_to_fetch(exclusions@, s, coordinate@, version@));
                        assert(graph_iter(*provider, exclusions@, start, steps) is Ok);
                    }
                    return Err(GraphError::Fetch { coordinate, version, message });
                },
            };
            proof {
                let e0 = crate::bom::pairs_view(exp_before).to_set();
                let e1 = crate::bom::pairs_view(expanded@).to_set();
                assert(domain.contains((coordinate@, version@)));
                assert(!e0.contains((coordinate@, version@)));
                assert(e1 =~= e0.insert((coordinate@, version@))) by {
                    crate::bom::pairs_view(exp_before).lemma_push_to_set_commute((coordinate@, version@));
                }
                assert(domain.difference(e1) =~= domain.difference(e0).remove((coordinate@, version@)));
                vstd::set_lib::lemma_len_difference(domain, e0);
                vstd::set_lib::lemma_set_subset_finite(domain, domain.difference(e0));
            }
            push_transitives(&mut queue, &pom.dependencies, to, &coordinate, depth.wrapping_add(1), &origin);
            proof {
                steps = steps + 1;
                assert(pom@.dependencies == pom.dependencies@.map_values(
                    |d: crate::pom::PomDependency| (d.coordinate@, d.version@, d.scope@),
                ));
                let added = transitive_items(pom@.dependencies, to.0, coordinate@, depth.wrapping_add(1), origin@);
                assert(items_view(queue@) =~= q_before + added);
                lemma_transitive_items_pairs(pom@.dependencies, to.0, coordinate@, depth.wrapping_add(1), origin@);
                let k0 = choose|k: nat| #[trigger] reach_within(*provider, start.queue, k).contains((coordinate@, version@));
                assert forall|j: int| head <= j < queue@.len() implies #[trigger] domain.contains(
                    (items_view(queue@)[j].coordinate, items_view(queue@)[j].version),
                ) by {
                    if j < q_before.len() {
                        assert(items_view(queue@)[j] == q_before[j]);
                    } else {
                        let it = added[j - q_before.len()];
                        assert(items_view(queue@)[j] == it);
                        let deps = provider.published(coordinate@, version@)->0.dependencies;
                        let q = choose|q: int|
                            0 <= q < deps.len() && propagates(deps[q].2) && deps[q].0 == it.coordinate && deps[q].1
                                == it.version;
                        let prev = reach_within(*provider, start.queue, k0);
                        assert(prev.contains((coordinate@, version@)));
                        assert(provider.published(coordinate@, version@)->0.dependencies[q] == deps[q]);
                        assert(reach_within(*provider, start.queue, k0 + 1).contains((it.coordinate, it.version)));
                    }
                }
                assert(items_view(queue@).skip(head as int) =~= s.queue.drop_first() + transitive_items(
                    pom@.dependencies,
                    to.0,
                    coordinate@,
                    depth.wrapping_add(1),
                    origin@,
                ));
            }
        } else {
            proof {
                steps = steps + 1;
            }
        }
    }
    let ghost end = state_view(next_id, ids@, edges@, reqs@, expanded@, queue@, head as int);
    proof {
        assert(end.queue.len() == 0);
        assert(graph_iter(*provider, exclusions@, start, steps) == Ok::<GraphState, GraphErr>(end));
        assert(walk_ends_in(*provider, exclusions@, start, end));
    }
    let candidates = assemble_candidates(&ids, &reqs);
    let g = CandidateGraph { candidates, edges, module_roots };
    proof {
        assert(g.module_roots@.map_values(|r: (String, NodeId)| (r.0@, r.1.0)) =~= ids_view(module_roots@));
        assert forall|i: int| 0 <= i < end.ids.len() implies {
            &&& (#[trigger] g.candidates@[i]).0.0 == end.ids[i].1
            &&& g.candidates@[i].1.coordinate@ == end.ids[i].0
            &&& g.candidates@[i].1.requests@.map_values(|r: VersionRequest| request_view(r)) == requests_of(
                end.reqs,
                end.ids[i].1,
            )
        } by {
            assert(end.ids[i] == (ids@[i].0@, ids@[i].1.0));
        }
        assert(graph_matches(g, end, roots_of(modules@)));
        assert(initial_state(modules@, start.queue) == start);
        assert(initial_items(modules@, crate::bom::pairs_view(bom_table@))->Ok_0 == start.queue);
        assert(Ok::<CandidateGraph, GraphError>(g)->Ok_0 == g);
        assert(walk_ends_in(*provider, exclusions@, initial_state(modules@, start.queue), end));
        assert(exists|e: GraphState|
            #![trigger graph_matches(g, e, roots_of(modules@))]
            walk_ends_in(*provider, exclusions@, initial_state(modules@, start.queue), e) && graph_matches(
                g,
                e,
                roots_of(modules@),
            ));
    }
    Ok(g)
}

proof fn lemma_id_of_entry(ids: Seq<(Seq<char>, u64)>, c: Seq<char>)
    ensures
        id_of(ids, c) is Some ==> exists|i: int| 0 <= i < ids.len() && ids[i] == (c, id_of(ids, c)->0),
    decreases ids.len(),
{
    if ids.len() > 0 {
        if ids[0].0 == c {
            assert(ids[0] == (c, id_of(ids, c)->0));
        } else {
            lemma_id_of_entry(ids.drop_first(), c);
            if id_of(ids, c) is Some {
                let i = choose|i: int| 0 <= i < ids.drop_first().len() && ids.drop_first()[i] == (c, id_of(ids, c)->0);
                assert(ids[i + 1] == ids.drop_first()[i]);
            }
        }
    }
}

proof fn lemma_id_of_push(ids: Seq<(Seq<char>, u64)>, c: Seq<char>, n: u64, x: Seq<char>)
    requires
        id_of(ids, c) is None,
    ensures
        id_of(ids.push((c, n)), x) == if x == c {
            Some(n)
        } else {
            id_of(ids, x)
        },
    decreases ids.len(),
{
    if ids.len() == 0 {
        assert(ids.push((c, n))[0] == (c, n));
        assert(ids.push((c, n)).drop_first() =~= Seq::<(Seq<char>, u64)>::empty());
        assert(id_of(Seq::<(Seq<char>, u64)>::empty(), x) is None);
    } else {
        assert(ids.push((c, n))[0] == ids[0]);
        assert(ids.push((c, n)).drop_first() =~= ids.drop_first().push((c, n)));
        if ids[0].0 != x {
            lemma_id_of_push(ids.drop_first(), c, n, x);
        }
    }
}

proof fn lemma_transitive_items_shape(
    deps: Seq<(Seq<char>, Seq<char>, Seq<char>)>,
    from: u64,
    parent: Seq<char>,
    depth: u32,
    origin: Seq<char>,
)
    ensures
        forall|i: int|
            0 <= i < transitive_items(deps, from, parent, depth, origin).len() ==> {
                let it = #[trigger] transitive_items(deps, from, parent, depth, origin)[i];
                &&& it.parent == Some(parent)
                &&& it.from == from
                &&& it.kind is External
            },
    decreases deps.len(),
{
    if deps.len() > 0 {
        lemma_transitive_items_shape(deps.drop_last(), from, parent, depth, origin);
    }
}

proof fn lemma_declared_items_shape(deps: Seq<Dependency>, bom: Seq<(Seq<char>, Seq<char>)>, root: u64, origin: Seq<char>)
    ensures
        declared_items(deps, bom, root, origin) is Ok ==> forall|i: int|
            0 <= i < declared_items(deps, bom, root, origin)->Ok_0.len() ==> (#[trigger] declared_items(
                deps,
                bom,
                root,
                origin,
            )->Ok_0[i]).kind is ModuleDeclared && declared_items(deps, bom, root, origin)->Ok_0[i].from == root,
    decreases deps.len(),
{
    if deps.len() > 0 {
        lemma_declared_items_shape(deps.drop_last(), bom, root, origin);
    }
}

proof fn lemma_initial_items_shape(ms: Seq<Module>, bom: Seq<(Seq<char>, Seq<char>)>)
    ensures
        initial_items(ms, bom) is Ok ==> forall|i: int|
            0 <= i < initial_items(ms, bom)->Ok_0.len() ==> (#[trigger] initial_items(ms, bom)->Ok_0[i]).kind is ModuleDeclared
                && initial_items(ms, bom)->Ok_0[i].from < ms.len(),
    decreases ms.len(),
{
    if ms.len() > 0 {
        lemma_initial_items_shape(ms.drop_last(), bom);
        lemma_declared_items_shape(ms.last().declared_dependencies@, bom, (ms.len() - 1) as u64, ms.last().name@);
        if initial_items(ms, bom) is Ok {
            let a = initial_items(ms.drop_last(), bom)->Ok_0;
            let b = declared_items(ms.last().declared_dependencies@, bom, (ms.len() - 1) as u64, ms.last().name@)->Ok_0;
            assert forall|i: int| 0 <= i < (a + b).len() implies (#[trigger] (a + b)[i]).kind is ModuleDeclared && (a
                + b)[i].from < ms.len() by {
                if i >= a.len() {
                    assert((a + b)[i] == b[i - a.len()]);
                }
            }
        }
    }
}

/// What every state of the walk keeps: no `(coordinate, version)` is expanded
/// twice, a pending transitive request comes from the node of its parent
/// coordinate, and each transitive edge joins the nodes of two coordinates of
/// which the second is not excluded under the first.
pub open spec fn walk_sound(exclusions: Seq<(String, Vec<String>)>, t: GraphState) -> bool {
    &&& t.expanded.no_duplicates()
    &&& forall|i: int|
        0 <= i < t.queue.len() && (#[trigger] t.queue[i]).kind is External ==> {
            &&& t.queue[i].parent is Some
            &&& id_of(t.ids, t.queue[i].parent->0) == Some(t.queue[i].from)
        }
    &&& forall|j: int|
        0 <= j < t.edges.len() && (#[trigger] t.edges[j]).kind is External ==> exists|pc: Seq<char>, cc: Seq<char>|
            #![trigger id_of(t.ids, pc), id_of(t.ids, cc)]
            id_of(t.ids, pc) == Some(t.edges[j].from.0) && id_of(t.ids, cc) == Some(t.edges[j].to.0) && !excluded_by(
                exclusions,
                pc,
                cc,
            )
}

proof fn lemma_step_sound<P: PomProvider>(provider: P, exclusions: Seq<(String, Vec<String>)>, s: GraphState)
    requires
        walk_sound(exclusions, s),
        graph_step(provider, exclusions, s) is Ok,
    ensures
        walk_sound(exclusions, graph_step(provider, exclusions, s)->Ok_0),
{
    if s.queue.len() > 0 {
        let item = s.queue[0];
        let rest = s.queue.drop_first();
        let t = graph_step(provider, exclusions, s)->Ok_0;
        if item.parent is Some && excluded_by(exclusions, item.parent->0, item.coordinate) {
            assert forall|i: int| 0 <= i < t.queue.len() && (#[trigger] t.queue[i]).kind is External implies {
                &&& t.queue[i].parent is Some
                &&& id_of(t.ids, t.queue[i].parent->0) == Some(t.queue[i].from)
            } by {
                assert(t.queue[i] == s.queue[i + 1]);
            }
        } else {
            let fresh = id_of(s.ids, item.coordinate) is None;
            let to = if fresh { s.next_id } else { id_of(s.ids, item.coordinate)->0 };
            assert(t.ids == if fresh { s.ids.push((item.coordinate, s.next_id)) } else { s.ids });
            assert forall|x: Seq<char>| id_of(s.ids, x) is Some implies #[trigger] id_of(t.ids, x) == id_of(s.ids, x) by {
                if fresh {
                    lemma_id_of_push(s.ids, item.coordinate, s.next_id, x);
                }
            }
            assert(id_of(t.ids, item.coordinate) == Some(to)) by {
                if fresh {
                    lemma_id_of_push(s.ids, item.coordinate, s.next_id, item.coordinate);
                }
            }
            let added = if s.expanded.contains((item.coordinate, item.version)) {
                Seq::<ItemView>::empty()
            } else {
                transitive_items(
                    provider.published(item.coordinate, item.version)->0.dependencies,
                    to,
                    item.coordinate,
                    item.depth.wrapping_add(1),
                    item.origin,
                )
            };
            if !s.expanded.contains((item.coordinate, item.version)) {
                lemma_transitive_items_shape(
                    provider.published(item.coordinate, item.version)->0.dependencies,
                    to,
                    item.coordinate,
                    item.depth.wrapping_add(1),
                    item.origin,
                );
                assert(t.queue == rest + added);
                assert(t.expanded == s.expanded.push((item.coordinate, item.version)));
                assert forall|a: int, b: int|
                    0 <= a < t.expanded.len() && 0 <= b < t.expanded.len() && a != b implies t.expanded[a]
                    != t.expanded[b] by {
                    if a == s.expanded.len() {
                        assert(t.expanded[b] == s.expanded[b]);
                    } else if b == s.expanded.len() {
                        assert(t.expanded[a] == s.expanded[a]);
                    }
                }
            } else {
                assert(t.queue =~= rest + added);
            }
            assert forall|i: int| 0 <= i < t.queue.len() && (#[trigger] t.queue[i]).kind is External implies {
                &&& t.queue[i].parent is Some
                &&& id_of(t.ids, t.queue[i].parent->0) == Some(t.queue[i].from)
            } by {
                if i < rest.len() {
                    assert(t.queue[i] == (rest + added)[i]);
                    assert(t.queue[i] == s.queue[i + 1]);
                } else {
                    assert(t.queue[i] == (rest + added)[i]);
                    assert(t.queue[i] == added[i - rest.len()]);
                }
            }
            assert(t.edges == s.edges.push(GraphEdge { from: NodeId(item.from), to: NodeId(to), kind: item.kind }));
            assert forall|j: int| 0 <= j < t.edges.len() && (#[trigger] t.edges[j]).kind is External implies exists|
                pc: Seq<char>,
                cc: Seq<char>,
            |
                #![trigger id_of(t.ids, pc), id_of(t.ids, cc)]
                id_of(t.ids, pc) == Some(t.edges[j].from.0) && id_of(t.ids, cc) == Some(t.edges[j].to.0)
                    && !excluded_by(exclusions, pc, cc) by {
                if j < s.edges.len() {
                    assert(t.edges[j] == s.edges[j]);
                    let (pc, cc) = choose|pc: Seq<char>, cc: Seq<char>|
                        #![trigger id_of(s.ids, pc), id_of(s.ids, cc)]
                        id_of(s.ids, pc) == Some(s.edges[j].from.0) && id_of(s.ids, cc) == Some(s.edges[j].to.0)
                            && !excluded_by(exclusions, pc, cc);
                    assert(id_of(t.ids, pc) == id_of(s.ids, pc));
                    assert(id_of(t.ids, cc) == id_of(s.ids, cc));
                } else {
                    assert(t.edges[j].kind == item.kind);
                    assert(s.queue[0] == item);
                    let pc = item.parent->0;
                    assert(id_of(s.ids, pc) == Some(item.from));
                    assert(id_of(t.ids, pc) == id_of(s.ids, pc));
                    assert(id_of(t.ids, pc) == Some(t.edges[j].from.0) && id_of(t.ids, item.coordinate) == Some(
                        t.edges[j].to.0,
                    ) && !excluded_by(exclusions, pc, item.coordinate));
                }
            }
        }
    }
}

proof fn lemma_iter_sound<P: PomProvider>(
    provider: P,
    exclusions: Seq<(String, Vec<String>)>,
    start: GraphState,
    k: nat,
)
    requires
        walk_sound(exclusions, start),
        graph_iter(provider, exclusions, start, k) is Ok,
    ensures
        walk_sound(exclusions, graph_iter(provider, exclusions, start, k)->Ok_0),
    decreases k,
{
    if k > 0 {
        let prev = graph_iter(provider, exclusions, start, (k - 1) as nat);
        assert(prev is Ok);
        lemma_iter_sound(provider, exclusions, start, (k - 1) as nat);
        lemma_step_sound(provider, exclusions, prev->Ok_0);
    }
}

/// Exclusions are applied before a transitive dependency becomes a candidate: in
/// the graph that a successful build gives, every transitive edge runs from one
/// candidate to another whose coordinate the exclusions of the first one's
/// coordinate do not name. And no `(coordinate, version)` POM was fetched twice.
pub proof fn law_transitive_edges_respect_exclusions<P: PomProvider>(
    provider: P,
    exclusions: Seq<(String, Vec<String>)>,
    modules: Seq<Module>,
    bom: Seq<(Seq<char>, Seq<char>)>,
    g: CandidateGraph,
    end: GraphState,
)
    requires
        initial_items(modules, bom) is Ok,
        walk_ends_in(provider, exclusions, initial_state(modules, initial_items(modules, bom)->Ok_0), end),
        graph_matches(g, end, roots_of(modules)),
    ensures
        end.expanded.no_duplicates(),
        forall|j: int|
            0 <= j < g.edges@.len() && (#[trigger] g.edges@[j]).kind is External ==> exists|a: int, b: int|
                #![trigger g.candidates@[a], g.candidates@[b]]
                0 <= a < g.candidates@.len() && 0 <= b < g.candidates@.len() && g.candidates@[a].0 == g.edges@[j].from
                    && g.candidates@[b].0 == g.edges@[j].to && !excluded_by(
                    exclusions,
                    g.candidates@[a].1.coordinate@,
                    g.candidates@[b].1.coordinate@,
                ),
{
    let start = initial_state(modules, initial_items(modules, bom)->Ok_0);
    lemma_initial_items_shape(modules, bom);
    assert(walk_sound(exclusions, start)) by {
        assert(start.expanded.no_duplicates());
    }
    let k = choose|k: nat| #[trigger] graph_iter(provider, exclusions, start, k) == Ok::<GraphState, GraphErr>(end) && end.queue.len() == 0;
    lemma_iter_sound(provider, exclusions, start, k);
    assert forall|j: int| 0 <= j < g.edges@.len() && (#[trigger] g.edges@[j]).kind is External implies exists|
        a: int,
        b: int,
    |
        #![trigger g.candidates@[a], g.candidates@[b]]
        0 <= a < g.candidates@.len() && 0 <= b < g.candidates@.len() && g.candidates@[a].0 == g.edges@[j].from
            && g.candidates@[b].0 == g.edges@[j].to && !excluded_by(
            exclusions,
            g.candidates@[a].1.coordinate@,
            g.candidates@[b].1.coordinate@,
        ) by {
        assert(end.edges[j] == g.edges@[j]);
        let (pc, cc) = choose|pc: Seq<char>, cc: Seq<char>|
            #![trigger id_of(end.ids, pc), id_of(end.ids, cc)]
            id_of(end.ids, pc) == Some(end.edges[j].from.0) && id_of(end.ids, cc) == Some(end.edges[j].to.0)
                && !excluded_by(exclusions, pc, cc);
        lemma_id_of_entry(end.ids, pc);
        lemma_id_of_entry(end.ids, cc);
        let a = choose|i: int| 0 <= i < end.ids.len() && end.ids[i] == (pc, id_of(end.ids, pc)->0);
        let b = choose|i: int| 0 <= i < end.ids.len() && end.ids[i] == (cc, id_of(end.ids, cc)->0);
        assert(g.candidates@[a].0.0 == end.ids[a].1);
        assert(g.candidates@[b].0.0 == end.ids[b].1);
        assert(g.candidates@[a].1.coordinate@ == pc);
        assert(g.candidates@[b].1.coordinate@ == cc);
    }
}

/// A queued request has this shape: the node it comes from, its parent
/// coordinate, its coordinate and the kind of edge it gives.
pub open spec fn queued_as(
    it: ItemView,
    from: u64,
    parent: Option<Seq<char>>,
    coordinate: Seq<char>,
    kind: EdgeKind,
) -> bool {
    it.from == from && it.parent == parent && it.coordinate == coordinate && it.kind == kind
}

/// A request of this shape is dropped by an exclusion, has given its edge in `t`,
/// or is still queued in `t`.
pub open spec fn covered(
    exclusions: Seq<(String, Vec<String>)>,
    t: GraphState,
    from: u64,
    parent: Option<Seq<char>>,
    coordinate: Seq<char>,
    kind: EdgeKind,
) -> bool {
    ||| (parent is Some && excluded_by(exclusions, parent->0, coordinate))
    ||| (id_of(t.ids, coordinate) is Some && t.edges.contains(
        GraphEdge { from: NodeId(from), to: NodeId(id_of(t.ids, coordinate)->0), kind },
    ))
    ||| exists|i: int| 0 <= i < t.queue.len() && #[trigger] queued_as(t.queue[i], from, parent, coordinate, kind)
}

/// What the walk keeps, from a start queue `items`: every start request is
/// covered, and every expanded `(coordinate, version)` has a published POM, a node,
/// and each of its propagating dependencies covered from that node.
pub open spec fn walk_covers<P: PomProvider>(
    provider: P,
    exclusions: Seq<(String, Vec<String>)>,
    items: Seq<ItemView>,
    t: GraphState,
) -> bool {
    &&& forall|i: int|
        0 <= i < items.len() ==> covered(
            exclusions,
            t,
            (#[trigger] items[i]).from,
            items[i].parent,
            items[i].coordinate,
            items[i].kind,
        )
    &&& forall|c: Seq<char>, v: Seq<char>|
        #[trigger] t.expanded.contains((c, v)) ==> {
            &&& provider.published(c, v) is Some
            &&& id_of(t.ids, c) is Some
            &&& forall|q: int|
                0 <= q < provider.published(c, v)->0.dependencies.len() && propagates(
                    provider.published(c, v)->0.dependencies[q].2,
                ) ==> covered(
                    exclusions,
                    t,
                    id_of(t.ids, c)->0,
                    Some(c),
                    (#[trigger] provider.published(c, v)->0.dependencies[q]).0,
                    EdgeKind::External,
                )
        }
}

proof fn lemma_transitive_items_cover(
    deps: Seq<(Seq<char>, Seq<char>, Seq<char>)>,
    from: u64,
    parent: Seq<char>,
    depth: u32,
    origin: Seq<char>,
)
    ensures
        forall|q: int|
            0 <= q < deps.len() && propagates(deps[q].2) ==> exists|i: int|
                0 <= i < transitive_items(deps, from, parent, depth, origin).len() && #[trigger] queued_as(
                    transitive_items(deps, from, parent, depth, origin)[i],
                    from,
                    Some(parent),
                    (#[trigger] deps[q]).0,
                    EdgeKind::External,
                ),
    decreases deps.len(),
{
    if deps.len() > 0 {
        let prev = deps.drop_last();
        lemma_transitive_items_cover(prev, from, parent, depth, origin);
        let items = transitive_items(prev, from, parent, depth, origin);
        let all = transitive_items(deps, from, parent, depth, origin);
        assert forall|q: int| 0 <= q < deps.len() && propagates(deps[q].2) implies exists|i: int|
            0 <= i < all.len() && #[trigger] queued_as(all[i], from, Some(parent), (#[trigger] deps[q]).0, EdgeKind::External) by {
            if q < deps.len() - 1 {
                assert(prev[q] == deps[q]);
                let i = choose|i: int|
                    0 <= i < items.len() && #[trigger] queued_as(items[i], from, Some(parent), prev[q].0, EdgeKind::External);
                assert(all[i] == items[i]);
            } else {
                assert(deps[q] == deps.last());
                assert(all[items.len() as int] == all.last());
                assert(queued_as(all[items.len() as int], from, Some(parent), deps[q].0, EdgeKind::External));
            }
        }
    }
}

proof fn lemma_step_ids<P: PomProvider>(provider: P, exclusions: Seq<(String, Vec<String>)>, s: GraphState, x: Seq<char>)
    requires
        graph_step(provider, exclusions, s) is Ok,
        id_of(s.ids, x) is Some,
    ensures
        id_of(graph_step(provider, exclusions, s)->Ok_0.ids, x) == id_of(s.ids, x),
{
    if s.queue.len() > 0 {
        let item = s.queue[0];
        if !(item.parent is Some && excluded_by(exclusions, item.parent->0, item.coordinate)) {
            if id_of(s.ids, item.coordinate) is None {
                lemma_id_of_push(s.ids, item.coordinate, s.next_id, x);
            }
        }
    }
}

proof fn lemma_covered_step<P: PomProvider>(
    provider: P,
    exclusions: Seq<(String, Vec<String>)>,
    s: GraphState,
    from: u64,
    parent: Option<Seq<char>>,
    coordinate: Seq<char>,
    kind: EdgeKind,
)
    requires
        graph_step(provider, exclusions, s) is Ok,
        covered(exclusions, s, from, parent, coordinate, kind),
    ensures
        covered(exclusions, graph_step(provider, exclusions, s)->Ok_0, from, parent, coordinate, kind),
{
    let t = graph_step(provider, exclusions, s)->Ok_0;
    if s.queue.len() == 0 {
        return;
    }
    let item = s.queue[0];
    let dropped = item.parent is Some && excluded_by(exclusions, item.parent->0, item.coordinate);
    if parent is Some && excluded_by(exclusions, parent->0, coordinate) {
        return;
    }
    if id_of(s.ids, coordinate) is Some && s.edges.contains(
        GraphEdge { from: NodeId(from), to: NodeId(id_of(s.ids, coordinate)->0), kind },
    ) {
        lemma_step_ids(provider, exclusions, s, coordinate);
        let e = GraphEdge { from: NodeId(from), to: NodeId(id_of(s.ids, coordinate)->0), kind };
        let j = choose|j: int| 0 <= j < s.edges.len() && s.edges[j] == e;
        if !dropped {
            let to = if id_of(s.ids, item.coordinate) is None { s.next_id } else { id_of(s.ids, item.coordinate)->0 };
            assert(t.edges == s.edges.push(GraphEdge { from: NodeId(item.from), to: NodeId(to), kind: item.kind }));
            assert(t.edges[j] == e);
        }
        return;
    }
    let i = choose|i: int| 0 <= i < s.queue.len() && #[trigger] queued_as(s.queue[i], from, parent, coordinate, kind);
    if i == 0 {
        if !dropped {
            let fresh = id_of(s.ids, item.coordinate) is None;
            let to = if fresh { s.next_id } else { id_of(s.ids, item.coordinate)->0 };
            assert(id_of(t.ids, item.coordinate) == Some(to)) by {
                if fresh {
                    lemma_id_of_push(s.ids, item.coordinate, s.next_id, item.coordinate);
                }
            }
            let e = GraphEdge { from: NodeId(item.from), to: NodeId(to), kind: item.kind };
            assert(t.edges == s.edges.push(e));
            assert(t.edges[s.edges.len() as int] == e);
        }
    } else {
        let rest = s.queue.drop_first();
        if dropped {
            assert(t.queue == rest);
        } else if s.expanded.contains((item.coordinate, item.version)) {
            assert(t.queue == rest);
        } else {
            let fresh = id_of(s.ids, item.coordinate) is None;
            let to = if fresh { s.next_id } else { id_of(s.ids, item.coordinate)->0 };
            let added = transitive_items(
                provider.published(item.coordinate, item.version)->0.dependencies,
                to,
                item.coordinate,
                item.depth.wrapping_add(1),
                item.origin,
            );
            assert(t.queue == rest + added);
            assert(t.queue[i - 1] == (rest + added)[i - 1]);
        }
        assert(t.queue[i - 1] == s.queue[i]);
        assert(queued_as(t.queue[i - 1], from, parent, coordinate, kind));
    }
}

proof fn lemma_step_covers<P: PomProvider>(
    provider: P,
    exclusions: Seq<(String, Vec<String>)>,
    items: Seq<ItemView>,
    s: GraphState,
)
    requires
        walk_covers(provider, exclusions, items, s),
        graph_step(provider, exclusions, s) is Ok,
    ensures
        walk_covers(provider, exclusions, items, graph_step(provider, exclusions, s)->Ok_0),
{
    let t = graph_step(provider, exclusions, s)->Ok_0;
    assert forall|i: int| 0 <= i < items.len() implies covered(
        exclusions,
        t,
        (#[trigger] items[i]).from,
        items[i].parent,
        items[i].coordinate,
        items[i].kind,
    ) by {
        lemma_covered_step(provider, exclusions, s, items[i].from, items[i].parent, items[i].coordinate, items[i].kind);
    }
    assert forall|c: Seq<char>, v: Seq<char>| #[trigger] t.expanded.contains((c, v)) implies {
        &&& provider.published(c, v) is Some
        &&& id_of(t.ids, c) is Some
        &&& forall|q: int|
            0 <= q < provider.published(c, v)->0.dependencies.len() && propagates(
                provider.published(c, v)->0.dependencies[q].2,
            ) ==> covered(
                exclusions,
                t,
                id_of(t.ids, c)->0,
                Some(c),
                (#[trigger] provider.published(c, v)->0.dependencies[q]).0,
                EdgeKind::External,
            )
    } by {
        if s.expanded.contains((c, v)) {
            lemma_step_ids(provider, exclusions, s, c);
            assert forall|q: int|
                0 <= q < provider.published(c, v)->0.dependencies.len() && propagates(
                    provider.published(c, v)->0.dependencies[q].2,
                ) implies covered(
                exclusions,
                t,
                id_of(t.ids, c)->0,
                Some(c),
                (#[trigger] provider.published(c, v)->0.dependencies[q]).0,
                EdgeKind::External,
            ) by {
                lemma_covered_step(
                    provider,
                    exclusions,
                    s,
                    id_of(s.ids, c)->0,
                    Some(c),
                    provider.published(c, v)->0.dependencies[q].0,
                    EdgeKind::External,
                );
            }
        } else {
            // the pair expanded by this step
            let item = s.queue[0];
            assert(t.expanded == s.expanded.push((item.coordinate, item.version)));
            assert(t.expanded.last() == (item.coordinate, item.version));
            assert((c, v) == (item.coordinate, item.version)) by {
                let k = choose|k: int| 0 <= k < t.expanded.len() && t.expanded[k] == (c, v);
                if k < s.expanded.len() {
                    assert(s.expanded[k] == t.expanded[k]);
                }
            }
            let fresh = id_of(s.ids, item.coordinate) is None;
            let to = if fresh { s.next_id } else { id_of(s.ids, item.coordinate)->0 };
            assert(id_of(t.ids, item.coordinate) == Some(to)) by {
                if fresh {
                    lemma_id_of_push(s.ids, item.coordinate, s.next_id, item.coordinate);
                }
            }
            let deps = provider.published(c, v)->0.dependencies;
            let added = transitive_items(deps, to, c, item.depth.wrapping_add(1), item.origin);
            let rest = s.queue.drop_first();
            assert(t.queue == rest + added);
            lemma_transitive_items_cover(deps, to, c, item.depth.wrapping_add(1), item.origin);
            assert forall|q: int| 0 <= q < deps.len() && propagates(deps[q].2) implies covered(
                exclusions,
                t,
                id_of(t.ids, c)->0,
                Some(c),
                (#[trigger] deps[q]).0,
                EdgeKind::External,
            ) by {
                let i = choose|i: int|
                    0 <= i < added.len() && #[trigger] queued_as(added[i], to, Some(c), deps[q].0, EdgeKind::External);
                assert(t.queue[rest.len() + i] == added[i]);
                assert(queued_as(t.queue[rest.len() + i], to, Some(c), deps[q].0, EdgeKind::External));
            }
        }
    }
}

proof fn lemma_iter_covers<P: PomProvider>(
    provider: P,
    exclusions: Seq<(String, Vec<String>)>,
    items: Seq<ItemView>,
    start: GraphState,
    k: nat,
)
    requires
        walk_covers(provider, exclusions, items, start),
        graph_iter(provider, exclusions, start, k) is Ok,
    ensures
        walk_covers(provider, exclusions, items, graph_iter(provider, exclusions, start, k)->Ok_0),
    decreases k,
{
    if k > 0 {
        let prev = graph_iter(provider, exclusions, start, (k - 1) as nat);
        assert(prev is Ok);
        lemma_iter_covers(provider, exclusions, items, start, (k - 1) as nat);
        lemma_step_covers(provider, exclusions, items, prev->Ok_0);
    }
}

proof fn lemma_declared_items_list(deps: Seq<Dependency>, bom: Seq<(Seq<char>, Seq<char>)>, root: u64, origin: Seq<char>)
    ensures
        declared_items(deps, bom, root, origin) is Ok ==> forall|b: int|
            0 <= b < deps.len() ==> exists|i: int|
                0 <= i < declared_items(deps, bom, root, origin)->Ok_0.len() && #[trigger] queued_as(
                    declared_items(deps, bom, root, origin)->Ok_0[i],
                    root,
                    None,
                    (#[trigger] deps[b]).coordinate@,
                    EdgeKind::ModuleDeclared,
                ),
    decreases deps.len(),
{
    if deps.len() > 0 && declared_items(deps, bom, root, origin) is Ok {
        let prev = deps.drop_last();
        lemma_declared_items_list(prev, bom, root, origin);
        let items = declared_items(prev, bom, root, origin)->Ok_0;
        let all = declared_items(deps, bom, root, origin)->Ok_0;
        assert forall|b: int| 0 <= b < deps.len() implies exists|i: int|
            0 <= i < all.len() && #[trigger] queued_as(
                all[i],
                root,
                None,
                (#[trigger] deps[b]).coordinate@,
                EdgeKind::ModuleDeclared,
            ) by {
            if b < deps.len() - 1 {
                assert(prev[b] == deps[b]);
                let i = choose|i: int|
                    0 <= i < items.len() && #[trigger] queued_as(items[i], root, None, prev[b].coordinate@, EdgeKind::ModuleDeclared);
                assert(all[i] == items[i]);
            } else {
                assert(deps[b] == deps.last());
                assert(all[items.len() as int] == all.last());
                assert(queued_as(all[items.len() as int], root, None, deps[b].coordinate@, EdgeKind::ModuleDeclared));
            }
        }
    }
}

proof fn lemma_initial_items_list(ms: Seq<Module>, bom: Seq<(Seq<char>, Seq<char>)>)
    ensures
        initial_items(ms, bom) is Ok ==> forall|a: int, b: int|
            0 <= a < ms.len() && 0 <= b < ms[a].declared_dependencies@.len() ==> exists|i: int|
                0 <= i < initial_items(ms, bom)->Ok_0.len() && #[trigger] queued_as(
                    initial_items(ms, bom)->Ok_0[i],
                    a as u64,
                    None,
                    (#[trigger] ms[a].declared_dependencies@[b]).coordinate@,
                    EdgeKind::ModuleDeclared,
                ),
    decreases ms.len(),
{
    if ms.len() > 0 && initial_items(ms, bom) is Ok {
        let prev = ms.drop_last();
        lemma_initial_items_list(prev, bom);
        let last = ms.last();
        let root = (ms.len() - 1) as u64;
        lemma_declared_items_list(last.declared_dependencies@, bom, root, last.name@);
        let xs = initial_items(prev, bom)->Ok_0;
        let ys = declared_items(last.declared_dependencies@, bom, root, last.name@)->Ok_0;
        let all = initial_items(ms, bom)->Ok_0;
        assert(all == xs + ys);
        assert forall|a: int, b: int|
            0 <= a < ms.len() && 0 <= b < ms[a].declared_dependencies@.len() implies exists|i: int|
                0 <= i < all.len() && #[trigger] queued_as(
                    all[i],
                    a as u64,
                    None,
                    (#[trigger] ms[a].declared_dependencies@[b]).coordinate@,
                    EdgeKind::ModuleDeclared,
                ) by {
            if a < ms.len() - 1 {
                assert(prev[a] == ms[a]);
                let i = choose|i: int|
                    0 <= i < xs.len() && #[trigger] queued_as(
                        xs[i],
                        a as u64,
                        None,
                        prev[a].declared_dependencies@[b].coordinate@,
                        EdgeKind::ModuleDeclared,
                    );
                assert(all[i] == xs[i]);
            } else {
                assert(ms[a] == last);
                let i = choose|i: int|
                    0 <= i < ys.len() && #[trigger] queued_as(
                        ys[i],
                        root,
                        None,
                        last.declared_dependencies@[b].coordinate@,
                        EdgeKind::ModuleDeclared,
                    );
                assert(all[xs.len() + i] == ys[i]);
            }
        }
    }
}

proof fn lemma_walk_covers_end<P: PomProvider>(
    provider: P,
    exclusions: Seq<(String, Vec<String>)>,
    items: Seq<ItemView>,
    start: GraphState,
    end: GraphState,
)
    requires
        start.queue == items,
        start.expanded.len() == 0,
        walk_ends_in(provider, exclusions, start, end),
    ensures
        walk_covers(provider, exclusions, items, end),
        end.queue.len() == 0,
{
    assert forall|i: int| 0 <= i < items.len() implies covered(
        exclusions,
        start,
        (#[trigger] items[i]).from,
        items[i].parent,
        items[i].coordinate,
        items[i].kind,
    ) by {
        assert(queued_as(start.queue[i], items[i].from, items[i].parent, items[i].coordinate, items[i].kind));
    }
    let k = choose|k: nat| #[trigger] graph_iter(provider, exclusions, start, k) == Ok::<GraphState, GraphErr>(end) && end.queue.len() == 0;
    lemma_iter_covers(provider, exclusions, items, start, k);
}

/// The candidate of `coordinate` in a graph matching `end`.
proof fn lemma_candidate_of(g: CandidateGraph, end: GraphState, roots: Seq<(Seq<char>, u64)>, coordinate: Seq<char>)
    requires
        graph_matches(g, end, roots),
        id_of(end.ids, coordinate) is Some,
    ensures
        exists|b: int|
            0 <= b < g.candidates@.len() && g.candidates@[b].1.coordinate@ == coordinate && g.candidates@[b].0 == NodeId(
                id_of(end.ids, coordinate)->0,
            ),
{
    lemma_id_of_entry(end.ids, coordinate);
    let b = choose|i: int| 0 <= i < end.ids.len() && end.ids[i] == (coordinate, id_of(end.ids, coordinate)->0);
    assert(g.candidates@[b].0.0 == end.ids[b].1);
    assert(g.candidates@[b].1.coordinate@ == end.ids[b].0);
}

/// Every declared dependency of every module gives a `ModuleDeclared` edge from the
/// module's root node (module `a` has the root node `a`) to the candidate of its
/// coordinate, in the graph that a successful build gives.
pub proof fn law_declared_dependencies_give_root_edges<P: PomProvider>(
    provider: P,
    exclusions: Seq<(String, Vec<String>)>,
    modules: Seq<Module>,
    bom: Seq<(Seq<char>, Seq<char>)>,
    g: CandidateGraph,
    end: GraphState,
)
    requires
        initial_items(modules, bom) is Ok,
        walk_ends_in(provider, exclusions, initial_state(modules, initial_items(modules, bom)->Ok_0), end),
        graph_matches(g, end, roots_of(modules)),
    ensures
        forall|a: int, d: int|
            0 <= a < modules.len() && 0 <= d < modules[a].declared_dependencies@.len() ==> exists|b: int|
                0 <= b < g.candidates@.len() && g.candidates@[b].1.coordinate@ == (
                #[trigger] modules[a].declared_dependencies@[d]).coordinate@ && g.edges@.contains(
                    GraphEdge { from: NodeId(a as u64), to: g.candidates@[b].0, kind: EdgeKind::ModuleDeclared },
                ),
{
    let items = initial_items(modules, bom)->Ok_0;
    let start = initial_state(modules, items);
    lemma_walk_covers_end(provider, exclusions, items, start, end);
    lemma_initial_items_list(modules, bom);
    assert forall|a: int, d: int|
        0 <= a < modules.len() && 0 <= d < modules[a].declared_dependencies@.len() implies exists|b: int|
            0 <= b < g.candidates@.len() && g.candidates@[b].1.coordinate@ == (
            #[trigger] modules[a].declared_dependencies@[d]).coordinate@ && g.edges@.contains(
                GraphEdge { from: NodeId(a as u64), to: g.candidates@[b].0, kind: EdgeKind::ModuleDeclared },
            ) by {
        let c = modules[a].declared_dependencies@[d].coordinate@;
        let i = choose|i: int|
            0 <= i < items.len() && #[trigger] queued_as(items[i], a as u64, None, c, EdgeKind::ModuleDeclared);
        assert(covered(exclusions, end, items[i].from, items[i].parent, items[i].coordinate, items[i].kind));
        lemma_candidate_of(g, end, roots_of(modules), c);
    }
}

/// No propagating dependency of a fetched POM is lost: for every `(coordinate,
/// version)` the walk expanded, the provider published its POM, and each of its
/// `compile`/`runtime` dependencies that the exclusions of `coordinate` do not drop
/// gives an `External` edge from the candidate of `coordinate` to the candidate of
/// the dependency's coordinate.
pub proof fn law_transitive_dependencies_give_edges<P: PomProvider>(
    provider: P,
    exclusions: Seq<(String, Vec<String>)>,
    modules: Seq<Module>,
    bom: Seq<(Seq<char>, Seq<char>)>,
    g: CandidateGraph,
    end: GraphState,
)
    requires
        initial_items(modules, bom) is Ok,
        walk_ends_in(provider, exclusions, initial_state(modules, initial_items(modules, bom)->Ok_0), end),
        graph_matches(g, end, roots_of(modules)),
    ensures
        forall|c: Seq<char>, v: Seq<char>|
            #[trigger] end.expanded.contains((c, v)) ==> provider.published(c, v) is Some && forall|q: int|
                0 <= q < provider.published(c, v)->0.dependencies.len() && propagates(
                    provider.published(c, v)->0.dependencies[q].2,
                ) && !excluded_by(exclusions, c, provider.published(c, v)->0.dependencies[q].0) ==> exists|a: int, b: int|
                    0 <= a < g.candidates@.len() && 0 <= b < g.candidates@.len() && g.candidates@[a].1.coordinate@ == c
                        && g.candidates@[b].1.coordinate@ == (
                    #[trigger] provider.published(c, v)->0.dependencies[q]).0 && g.edges@.contains(
                        GraphEdge { from: g.candidates@[a].0, to: g.candidates@[b].0, kind: EdgeKind::External },
                    ),
{
    let items = initial_items(modules, bom)->Ok_0;
    let start = initial_state(modules, items);
    lemma_walk_covers_end(provider, exclusions, items, start, end);
    assert forall|c: Seq<char>, v: Seq<char>| #[trigger] end.expanded.contains((c, v)) implies provider.published(
        c,
        v,
    ) is Some && forall|q: int|
        0 <= q < provider.published(c, v)->0.dependencies.len() && propagates(
            provider.published(c, v)->0.dependencies[q].2,
        ) && !excluded_by(exclusions, c, provider.published(c, v)->0.dependencies[q].0) ==> exists|a: int, b: int|
            0 <= a < g.candidates@.len() && 0 <= b < g.candidates@.len() && g.candidates@[a].1.coordinate@ == c
                && g.candidates@[b].1.coordinate@ == (#[trigger] provider.published(c, v)->0.dependencies[q]).0
                && g.edges@.contains(
                GraphEdge { from: g.candidates@[a].0, to: g.candidates@[b].0, kind: EdgeKind::External },
            ) by {
        let deps = provider.published(c, v)->0.dependencies;
        assert forall|q: int|
            0 <= q < deps.len() && propagates(deps[q].2) && !excluded_by(exclusions, c, deps[q].0) implies exists|
            a: int,
            b: int,
        |
            0 <= a < g.candidates@.len() && 0 <= b < g.candidates@.len() && g.candidates@[a].1.coordinate@ == c
                && g.candidates@[b].1.coordinate@ == (#[trigger] deps[q]).0 && g.edges@.contains(
                GraphEdge { from: g.candidates@[a].0, to: g.candidates@[b].0, kind: EdgeKind::External },
            ) by {
            assert(covered(exclusions, end, id_of(end.ids, c)->0, Some(c), deps[q].0, EdgeKind::External));
            lemma_candidate_of(g, end, roots_of(modules), c);
            lemma_candidate_of(g, end, roots_of(modules), deps[q].0);
        }
    }
}

/// What every state of the walk keeps about the ends of edges: each edge leads to
/// the node of a coordinate; a `ModuleDeclared` edge (or queued request) starts at a
/// module root (below `n`), and nothing else than `ModuleDeclared` or `External` is
/// ever queued or recorded.
pub open spec fn walk_shaped(n: nat, t: GraphState) -> bool {
    &&& forall|i: int|
        0 <= i < t.queue.len() ==> ((#[trigger] t.queue[i]).kind is ModuleDeclared && t.queue[i].from < n)
            || t.queue[i].kind is External
    &&& forall|j: int|
        0 <= j < t.edges.len() ==> {
            &&& ((#[trigger] t.edges[j]).kind is ModuleDeclared && t.edges[j].from.0 < n) || t.edges[j].kind is External
            &&& exists|cc: Seq<char>| #[trigger] id_of(t.ids, cc) == Some(t.edges[j].to.0)
        }
}

proof fn lemma_step_shaped<P: PomProvider>(
    provider: P,
    exclusions: Seq<(String, Vec<String>)>,
    n: nat,
    s: GraphState,
)
    requires
        walk_shaped(n, s),
        graph_step(provider, exclusions, s) is Ok,
    ensures
        walk_shaped(n, graph_step(provider, exclusions, s)->Ok_0),
{
    let t = graph_step(provider, exclusions, s)->Ok_0;
    if s.queue.len() == 0 {
        return;
    }
    let item = s.queue[0];
    let rest = s.queue.drop_first();
    if item.parent is Some && excluded_by(exclusions, item.parent->0, item.coordinate) {
        assert forall|i: int| 0 <= i < t.queue.len() implies ((#[trigger] t.queue[i]).kind is ModuleDeclared
            && t.queue[i].from < n) || t.queue[i].kind is External by {
            assert(t.queue[i] == s.queue[i + 1]);
        }
        return;
    }
    let fresh = id_of(s.ids, item.coordinate) is None;
    let to = if fresh { s.next_id } else { id_of(s.ids, item.coordinate)->0 };
    assert(id_of(t.ids, item.coordinate) == Some(to)) by {
        if fresh {
            lemma_id_of_push(s.ids, item.coordinate, s.next_id, item.coordinate);
        }
    }
    let e = GraphEdge { from: NodeId(item.from), to: NodeId(to), kind: item.kind };
    assert(t.edges == s.edges.push(e));
    assert forall|j: int| 0 <= j < t.edges.len() implies {
        &&& ((#[trigger] t.edges[j]).kind is ModuleDeclared && t.edges[j].from.0 < n) || t.edges[j].kind is External
        &&& exists|cc: Seq<char>| #[trigger] id_of(t.ids, cc) == Some(t.edges[j].to.0)
    } by {
        if j < s.edges.len() {
            assert(t.edges[j] == s.edges[j]);
            let cc = choose|cc: Seq<char>| #[trigger] id_of(s.ids, cc) == Some(s.edges[j].to.0);
            lemma_step_ids(provider, exclusions, s, cc);
        } else {
            assert(t.edges[j] == e);
            assert(id_of(t.ids, item.coordinate) == Some(t.edges[j].to.0));
        }
    }
    let added = if s.expanded.contains((item.coordinate, item.version)) {
        Seq::<ItemView>::empty()
    } else {
        transitive_items(
            provider.published(item.coordinate, item.version)->0.dependencies,
            to,
            item.coordinate,
            item.depth.wrapping_add(1),
            item.origin,
        )
    };
    if !s.expanded.contains((item.coordinate, item.version)) {
        lemma_transitive_items_shape(
            provider.published(item.coordinate, item.version)->0.dependencies,
            to,
            item.coordinate,
            item.depth.wrapping_add(1),
            item.origin,
        );
    }
    assert(t.queue =~= rest + added);
    assert forall|i: int| 0 <= i < t.queue.len() implies ((#[trigger] t.queue[i]).kind is ModuleDeclared
        && t.queue[i].from < n) || t.queue[i].kind is External by {
        if i < rest.len() {
            assert(t.queue[i] == s.queue[i + 1]);
        } else {
            assert(t.queue[i] == added[i - rest.len()]);
        }
    }
}

proof fn lemma_iter_shaped<P: PomProvider>(
    provider: P,
    exclusions: Seq<(String, Vec<String>)>,
    n: nat,
    start: GraphState,
    k: nat,
)
    requires
        walk_shaped(n, start),
        graph_iter(provider, exclusions, start, k) is Ok,
    ensures
        walk_shaped(n, graph_iter(provider, exclusions, start, k)->Ok_0),
    decreases k,
{
    if k > 0 {
        let prev = graph_iter(provider, exclusions, start, (k - 1) as nat);
        assert(prev is Ok);
        lemma_iter_shaped(provider, exclusions, n, start, (k - 1) as nat);
        lemma_step_shaped(provider, exclusions, n, prev->Ok_0);
    }
}

/// In the graph that a successful build gives, every edge leads to a candidate; a
/// `ModuleDeclared` edge starts at the root of a module (module `a` has the root
/// `a`), and every other edge is `External` and starts at a candidate.
pub proof fn law_edges_join_roots_and_candidates<P: PomProvider>(
    provider: P,
    exclusions: Seq<(String, Vec<String>)>,
    modules: Seq<Module>,
    bom: Seq<(Seq<char>, Seq<char>)>,
    g: CandidateGraph,
    end: GraphState,
)
    requires
        initial_items(modules, bom) is Ok,
        walk_ends_in(provider, exclusions, initial_state(modules, initial_items(modules, bom)->Ok_0), end),
        graph_matches(g, end, roots_of(modules)),
    ensures
        forall|j: int|
            0 <= j < g.edges@.len() ==> {
                &&& exists|b: int| 0 <= b < g.candidates@.len() && g.candidates@[b].0 == (#[trigger] g.edges@[j]).to
                &&& (g.edges@[j].kind is ModuleDeclared && g.edges@[j].from.0 < modules.len()) || (g.edges@[j].kind is External
                    && exists|a: int| 0 <= a < g.candidates@.len() && g.candidates@[a].0 == g.edges@[j].from)
            },
{
    let items = initial_items(modules, bom)->Ok_0;
    let start = initial_state(modules, items);
    lemma_initial_items_shape(modules, bom);
    assert(walk_shaped(modules.len(), start));
    lemma_initial_items_shape(modules, bom);
    assert(walk_sound(exclusions, start)) by {
        assert(start.expanded.no_duplicates());
    }
    let k = choose|k: nat| #[trigger] graph_iter(provider, exclusions, start, k) == Ok::<GraphState, GraphErr>(end) && end.queue.len() == 0;
    lemma_iter_shaped(provider, exclusions, modules.len(), start, k);
    lemma_iter_sound(provider, exclusions, start, k);
    assert forall|j: int| 0 <= j < g.edges@.len() implies {
        &&& exists|b: int| 0 <= b < g.candidates@.len() && g.candidates@[b].0 == (#[trigger] g.edges@[j]).to
        &&& (g.edges@[j].kind is ModuleDeclared && g.edges@[j].from.0 < modules.len()) || (g.edges@[j].kind is External
            && exists|a: int| 0 <= a < g.candidates@.len() && g.candidates@[a].0 == g.edges@[j].from)
    } by {
        assert(end.edges[j] == g.edges@[j]);
        let cc = choose|cc: Seq<char>| #[trigger] id_of(end.ids, cc) == Some(end.edges[j].to.0);
        lemma_candidate_of(g, end, roots_of(modules), cc);
        if g.edges@[j].kind is External {
            let (pc, c2) = choose|pc: Seq<char>, c2: Seq<char>|
                #![trigger id_of(end.ids, pc), id_of(end.ids, c2)]
                id_of(end.ids, pc) == Some(end.edges[j].from.0) && id_of(end.ids, c2) == Some(end.edges[j].to.0)
                    && !excluded_by(exclusions, pc, c2);
            lemma_candidate_of(g, end, roots_of(modules), pc);
        }
    }
}

/// Each start request (with no parent) is still queued in `t`, or its version,
/// origin and depth are recorded for the node of its coordinate.
pub open spec fn start_requests_recorded(items: Seq<ItemView>, t: GraphState) -> bool {
    forall|i: int|
        0 <= i < items.len() ==> (exists|j: int| 0 <= j < t.queue.len() && #[trigger] t.queue[j] == items[i]) || (id_of(
            t.ids,
            (#[trigger] items[i]).coordinate,
        ) is Some && t.reqs.contains(
            (id_of(t.ids, items[i].coordinate)->0, items[i].version, items[i].origin, items[i].depth),
        ))
}

proof fn lemma_step_records<P: PomProvider>(
    provider: P,
    exclusions: Seq<(String, Vec<String>)>,
    items: Seq<ItemView>,
    s: GraphState,
)
    requires
        forall|i: int| 0 <= i < items.len() ==> (#[trigger] items[i]).parent is None,
        start_requests_recorded(items, s),
        graph_step(provider, exclusions, s) is Ok,
    ensures
        start_requests_recorded(items, graph_step(provider, exclusions, s)->Ok_0),
{
    let t = graph_step(provider, exclusions, s)->Ok_0;
    if s.queue.len() == 0 {
        return;
    }
    let item = s.queue[0];
    let rest = s.queue.drop_first();
    let dropped = item.parent is Some && excluded_by(exclusions, item.parent->0, item.coordinate);
    let fresh = id_of(s.ids, item.coordinate) is None;
    let to = if fresh { s.next_id } else { id_of(s.ids, item.coordinate)->0 };
    if !dropped {
        assert(id_of(t.ids, item.coordinate) == Some(to)) by {
            if fresh {
                lemma_id_of_push(s.ids, item.coordinate, s.next_id, item.coordinate);
            }
        }
        assert(t.reqs == s.reqs.push((to, item.version, item.origin, item.depth)));
        assert(t.reqs.last() == (to, item.version, item.origin, item.depth));
    }
    let added = if dropped || s.expanded.contains((item.coordinate, item.version)) {
        Seq::<ItemView>::empty()
    } else {
        transitive_items(
            provider.published(item.coordinate, item.version)->0.dependencies,
            to,
            item.coordinate,
            item.depth.wrapping_add(1),
            item.origin,
        )
    };
    assert(t.queue =~= rest + added);
    assert forall|i: int| 0 <= i < items.len() implies (exists|j: int|
        0 <= j < t.queue.len() && #[trigger] t.queue[j] == items[i]) || (id_of(t.ids, (#[trigger] items[i]).coordinate) is Some
        && t.reqs.contains((id_of(t.ids, items[i].coordinate)->0, items[i].version, items[i].origin, items[i].depth))) by {
        let x = items[i];
        if id_of(s.ids, x.coordinate) is Some && s.reqs.contains(
            (id_of(s.ids, x.coordinate)->0, x.version, x.origin, x.depth),
        ) {
            lemma_step_ids(provider, exclusions, s, x.coordinate);
            let r = (id_of(s.ids, x.coordinate)->0, x.version, x.origin, x.depth);
            let k = choose|k: int| 0 <= k < s.reqs.len() && s.reqs[k] == r;
            if !dropped {
                assert(t.reqs[k] == r);
            }
        } else {
            let j = choose|j: int| 0 <= j < s.queue.len() && #[trigger] s.queue[j] == x;
            if j == 0 {
                assert(!dropped);
                assert(t.reqs.contains((to, x.version, x.origin, x.depth)));
            } else {
                assert(t.queue[j - 1] == s.queue[j]);
            }
        }
    }
}

proof fn lemma_iter_records<P: PomProvider>(
    provider: P,
    exclusions: Seq<(String, Vec<String>)>,
    items: Seq<ItemView>,
    start: GraphState,
    k: nat,
)
    requires
        forall|i: int| 0 <= i < items.len() ==> (#[trigger] items[i]).parent is None,
        start_requests_recorded(items, start),
        graph_iter(provider, exclusions, start, k) is Ok,
    ensures
        start_requests_recorded(items, graph_iter(provider, exclusions, start, k)->Ok_0),
    decreases k,
{
    if k > 0 {
        let prev = graph_iter(provider, exclusions, start, (k - 1) as nat);
        assert(prev is Ok);
        lemma_iter_records(provider, exclusions, items, start, (k - 1) as nat);
        lemma_step_records(provider, exclusions, items, prev->Ok_0);
    }
}

/// Item `i` of the declared items of a module comes from a declared dependency of
/// the same coordinate, at its declared version, at depth 1.
proof fn lemma_declared_item_source(
    deps: Seq<Dependency>,
    bom: Seq<(Seq<char>, Seq<char>)>,
    root: u64,
    origin: Seq<char>,
    i: int,
) -> (b: int)
    requires
        declared_items(deps, bom, root, origin) is Ok,
        0 <= i < declared_items(deps, bom, root, origin)->Ok_0.len(),
    ensures
        0 <= b < deps.len(),
        deps[b].coordinate@ == declared_items(deps, bom, root, origin)->Ok_0[i].coordinate,
        declared_version(deps[b], bom) == Ok::<Seq<char>, GraphErr>(declared_items(deps, bom, root, origin)->Ok_0[i].version),
        declared_items(deps, bom, root, origin)->Ok_0[i].origin == origin,
        declared_items(deps, bom, root, origin)->Ok_0[i].depth == 1,
    decreases deps.len(),
{
    let prev = deps.drop_last();
    let items = declared_items(prev, bom, root, origin)->Ok_0;
    if i < items.len() {
        let b = lemma_declared_item_source(prev, bom, root, origin, i);
        assert(prev[b] == deps[b]);
        b
    } else {
        (deps.len() - 1) as int
    }
}

/// Item `i` of the modules' initial items comes from a declared dependency of
/// module `a`: same coordinate, its declared version, origin the module's name,
/// depth 1.
proof fn lemma_initial_item_source(ms: Seq<Module>, bom: Seq<(Seq<char>, Seq<char>)>, i: int) -> (ad: (int, int))
    requires
        initial_items(ms, bom) is Ok,
        0 <= i < initial_items(ms, bom)->Ok_0.len(),
    ensures
        0 <= ad.0 < ms.len(),
        0 <= ad.1 < ms[ad.0].declared_dependencies@.len(),
        ms[ad.0].declared_dependencies@[ad.1].coordinate@ == initial_items(ms, bom)->Ok_0[i].coordinate,
        declared_version(ms[ad.0].declared_dependencies@[ad.1], bom) == Ok::<Seq<char>, GraphErr>(
            initial_items(ms, bom)->Ok_0[i].version,
        ),
        ms[ad.0].name@ == initial_items(ms, bom)->Ok_0[i].origin,
        initial_items(ms, bom)->Ok_0[i].depth == 1,
    decreases ms.len(),
{
    let prev = ms.drop_last();
    let xs = initial_items(prev, bom)->Ok_0;
    let last = ms.last();
    let root = (ms.len() - 1) as u64;
    let ys = declared_items(last.declared_dependencies@, bom, root, last.name@)->Ok_0;
    assert(initial_items(ms, bom)->Ok_0 == xs + ys);
    if i < xs.len() {
        let ad = lemma_initial_item_source(prev, bom, i);
        assert(prev[ad.0] == ms[ad.0]);
        ad
    } else {
        assert((xs + ys)[i] == ys[i - xs.len()]);
        let b = lemma_declared_item_source(last.declared_dependencies@, bom, root, last.name@, i - xs.len());
        ((ms.len() - 1) as int, b)
    }
}

proof fn lemma_requests_of_contains(reqs: Seq<(u64, Seq<char>, Seq<char>, u32)>, id: u64, v: Seq<char>, o: Seq<char>, d: u32)
    requires
        reqs.contains((id, v, o, d)),
    ensures
        requests_of(reqs, id).contains((v, o, d)),
    decreases reqs.len(),
{
    let k = choose|k: int| 0 <= k < reqs.len() && reqs[k] == (id, v, o, d);
    let prev = reqs.drop_last();
    if k == reqs.len() - 1 {
        assert(requests_of(reqs, id).last() == (v, o, d));
    } else {
        assert(prev[k] == reqs[k]);
        lemma_requests_of_contains(prev, id, v, o, d);
        let j = choose|j: int| 0 <= j < requests_of(prev, id).len() && requests_of(prev, id)[j] == (v, o, d);
        assert(requests_of(reqs, id)[j] == requests_of(prev, id)[j]);
    }
}

proof fn lemma_declared_items_exact(deps: Seq<Dependency>, bom: Seq<(Seq<char>, Seq<char>)>, root: u64, origin: Seq<char>)
    ensures
        declared_items(deps, bom, root, origin) is Ok ==> forall|b: int|
            0 <= b < deps.len() ==> declared_version(#[trigger] deps[b], bom) is Ok && exists|i: int|
                0 <= i < declared_items(deps, bom, root, origin)->Ok_0.len() && declared_items(
                    deps,
                    bom,
                    root,
                    origin,
                )->Ok_0[i] == (ItemView {
                    from: root,
                    parent: None,
                    coordinate: deps[b].coordinate@,
                    version: declared_version(deps[b], bom)->Ok_0,
                    depth: 1,
                    kind: EdgeKind::ModuleDeclared,
                    origin,
                }),
    decreases deps.len(),
{
    if deps.len() > 0 && declared_items(deps, bom, root, origin) is Ok {
        let prev = deps.drop_last();
        lemma_declared_items_exact(prev, bom, root, origin);
        let items = declared_items(prev, bom, root, origin)->Ok_0;
        let all = declared_items(deps, bom, root, origin)->Ok_0;
        assert forall|b: int| 0 <= b < deps.len() implies declared_version(#[trigger] deps[b], bom) is Ok && exists|i: int|
            0 <= i < all.len() && all[i] == (ItemView {
                from: root,
                parent: None,
                coordinate: deps[b].coordinate@,
                version: declared_version(deps[b], bom)->Ok_0,
                depth: 1,
                kind: EdgeKind::ModuleDeclared,
                origin,
            }) by {
            if b < deps.len() - 1 {
                assert(prev[b] == deps[b]);
                let i = choose|i: int|
                    0 <= i < items.len() && items[i] == (ItemView {
                        from: root,
                        parent: None,
                        coordinate: prev[b].coordinate@,
                        version: declared_version(prev[b], bom)->Ok_0,
                        depth: 1,
                        kind: EdgeKind::ModuleDeclared,
                        origin,
                    });
                assert(all[i] == items[i]);
            } else {
                assert(deps[b] == deps.last());
                assert(all[items.len() as int] == all.last());
            }
        }
    }
}

proof fn lemma_initial_items_exact(ms: Seq<Module>, bom: Seq<(Seq<char>, Seq<char>)>)
    ensures
        initial_items(ms, bom) is Ok ==> forall|a: int, b: int|
            0 <= a < ms.len() && 0 <= b < ms[a].declared_dependencies@.len() ==> declared_version(
                #[trigger] ms[a].declared_dependencies@[b],
                bom,
            ) is Ok && exists|i: int|
                0 <= i < initial_items(ms, bom)->Ok_0.len() && initial_items(ms, bom)->Ok_0[i] == (ItemView {
                    from: a as u64,
                    parent: None,
                    coordinate: ms[a].declared_dependencies@[b].coordinate@,
                    version: declared_version(ms[a].declared_dependencies@[b], bom)->Ok_0,
                    depth: 1,
                    kind: EdgeKind::ModuleDeclared,
                    origin: ms[a].name@,
                }),
    decreases ms.len(),
{
    if ms.len() > 0 && initial_items(ms, bom) is Ok {
        let prev = ms.drop_last();
        lemma_initial_items_exact(prev, bom);
        let last = ms.last();
        let root = (ms.len() - 1) as u64;
        lemma_declared_items_exact(last.declared_dependencies@, bom, root, last.name@);
        let xs = initial_items(prev, bom)->Ok_0;
        let ys = declared_items(last.declared_dependencies@, bom, root, last.name@)->Ok_0;
        let all = initial_items(ms, bom)->Ok_0;
        assert(all == xs + ys);
        assert forall|a: int, b: int| 0 <= a < ms.len() && 0 <= b < ms[a].declared_dependencies@.len() implies declared_version(
            #[trigger] ms[a].declared_dependencies@[b],
            bom,
        ) is Ok && exists|i: int|
            0 <= i < all.len() && all[i] == (ItemView {
                from: a as u64,
                parent: None,
                coordinate: ms[a].declared_dependencies@[b].coordinate@,
                version: declared_version(ms[a].declared_dependencies@[b], bom)->Ok_0,
                depth: 1,
                kind: EdgeKind::ModuleDeclared,
                origin: ms[a].name@,
            }) by {
            if a < ms.len() - 1 {
                assert(prev[a] == ms[a]);
                let i = choose|i: int|
                    0 <= i < xs.len() && xs[i] == (ItemView {
                        from: a as u64,
                        parent: None,
                        coordinate: prev[a].declared_dependencies@[b].coordinate@,
                        version: declared_version(prev[a].declared_dependencies@[b], bom)->Ok_0,
                        depth: 1,
                        kind: EdgeKind::ModuleDeclared,
                        origin: prev[a].name@,
                    });
                assert(all[i] == xs[i]);
            } else {
                assert(ms[a] == last);
                let i = choose|i: int|
                    0 <= i < ys.len() && ys[i] == (ItemView {
                        from: root,
                        parent: None,
                        coordinate: last.declared_dependencies@[b].coordinate@,
                        version: declared_version(last.declared_dependencies@[b], bom)->Ok_0,
                        depth: 1,
                        kind: EdgeKind::ModuleDeclared,
                        origin: last.name@,
                    });
                assert(all[xs.len() + i] == ys[i]);
            }
        }
    }
}

/// Every declared dependency of every module is requested in the graph that a
/// successful build gives: the candidate of its coordinate holds a request for
/// its declared version (its explicit one, or the BOM table's), from the module,
/// at depth 1.
#[verifier::spinoff_prover]
#[verifier::rlimit(40)]
pub proof fn law_declared_dependencies_are_requested<P: PomProvider>(
    provider: P,
    exclusions: Seq<(String, Vec<String>)>,
    modules: Seq<Module>,
    bom: Seq<(Seq<char>, Seq<char>)>,
    g: CandidateGraph,
    end: GraphState,
)
    requires
        initial_items(modules, bom) is Ok,
        walk_ends_in(provider, exclusions, initial_state(modules, initial_items(modules, bom)->Ok_0), end),
        graph_matches(g, end, roots_of(modules)),
    ensures
        forall|a: int, d: int|
            0 <= a < modules.len() && 0 <= d < modules[a].declared_dependencies@.len() ==> exists|b: int|
                0 <= b < g.candidates@.len() && g.candidates@[b].1.coordinate@ == (
                #[trigger] modules[a].declared_dependencies@[d]).coordinate@ && g.candidates@[b].1.requests@.map_values(
                    |r: VersionRequest| request_view(r),
                ).contains((declared_version(modules[a].declared_dependencies@[d], bom)->Ok_0, modules[a].name@, 1u32)),
{
    let items = initial_items(modules, bom)->Ok_0;
    let start = initial_state(modules, items);
    lemma_initial_items_exact(modules, bom);
    lemma_initial_items_shape(modules, bom);
    let k = choose|k: nat| #[trigger] graph_iter(provider, exclusions, start, k) == Ok::<GraphState, GraphErr>(end) && end.queue.len() == 0;
    assert forall|i: int| 0 <= i < items.len() implies (#[trigger] items[i]).parent is None by {
        lemma_declared_parent_none(modules, bom, i);
    }
    assert(start_requests_recorded(items, start)) by {
        assert forall|i: int| 0 <= i < items.len() implies (exists|j: int|
            0 <= j < start.queue.len() && #[trigger] start.queue[j] == items[i]) || (id_of(
            start.ids,
            (#[trigger] items[i]).coordinate,
        ) is Some && start.reqs.contains(
            (id_of(start.ids, items[i].coordinate)->0, items[i].version, items[i].origin, items[i].depth),
        )) by {
            assert(start.queue[i] == items[i]);
        }
    }
    lemma_iter_records(provider, exclusions, items, start, k);
    assert forall|a: int, d: int|
        0 <= a < modules.len() && 0 <= d < modules[a].declared_dependencies@.len() implies exists|b: int|
            0 <= b < g.candidates@.len() && g.candidates@[b].1.coordinate@ == (
            #[trigger] modules[a].declared_dependencies@[d]).coordinate@ && g.candidates@[b].1.requests@.map_values(
                |r: VersionRequest| request_view(r),
            ).contains((declared_version(modules[a].declared_dependencies@[d], bom)->Ok_0, modules[a].name@, 1u32)) by {
        let dep = modules[a].declared_dependencies@[d];
        let v = declared_version(dep, bom)->Ok_0;
        let it = ItemView {
            from: a as u64,
            parent: None,
            coordinate: dep.coordinate@,
            version: v,
            depth: 1,
            kind: EdgeKind::ModuleDeclared,
            origin: modules[a].name@,
        };
        let i = choose|i: int| 0 <= i < items.len() && items[i] == it;
        assert(id_of(end.ids, items[i].coordinate) is Some && end.reqs.contains(
            (id_of(end.ids, items[i].coordinate)->0, items[i].version, items[i].origin, items[i].depth),
        ));
        let id = id_of(end.ids, dep.coordinate@)->0;
        lemma_requests_of_contains(end.reqs, id, v, modules[a].name@, 1u32);
        lemma_id_of_entry(end.ids, dep.coordinate@);
        let b = choose|b: int| 0 <= b < end.ids.len() && end.ids[b] == (dep.coordinate@, id);
        assert(g.candidates@[b].1.coordinate@ == end.ids[b].0);
        assert(g.candidates@[b].1.requests@.map_values(|r: VersionRequest| request_view(r)) == requests_of(
            end.reqs,
            end.ids[b].1,
        ));
    }
}

proof fn lemma_declared_parent_none(ms: Seq<Module>, bom: Seq<(Seq<char>, Seq<char>)>, i: int)
    requires
        initial_items(ms, bom) is Ok,
        0 <= i < initial_items(ms, bom)->Ok_0.len(),
    ensures
        initial_items(ms, bom)->Ok_0[i].parent is None,
    decreases ms.len(),
{
    let prev = ms.drop_last();
    let last = ms.last();
    let xs = initial_items(prev, bom)->Ok_0;
    let ys = declared_items(last.declared_dependencies@, bom, (ms.len() - 1) as u64, last.name@)->Ok_0;
    assert(initial_items(ms, bom)->Ok_0 == xs + ys);
    if i < xs.len() {
        lemma_declared_parent_none(prev, bom, i);
    } else {
        lemma_declared_items_parent(last.declared_dependencies@, bom, (ms.len() - 1) as u64, last.name@, i - xs.len());
    }
}

proof fn lemma_declared_items_parent(deps: Seq<Dependency>, bom: Seq<(Seq<char>, Seq<char>)>, root: u64, origin: Seq<char>, i: int)
    requires
        declared_items(deps, bom, root, origin) is Ok,
        0 <= i < declared_items(deps, bom, root, origin)->Ok_0.len(),
    ensures
        declared_items(deps, bom, root, origin)->Ok_0[i].parent is None,
    decreases deps.len(),
{
    let items = declared_items(deps.drop_last(), bom, root, origin)->Ok_0;
    if i < items.len() {
        lemma_declared_items_parent(deps.drop_last(), bom, root, origin, i);
    }
}

/// A transitive request of `coordinate:version` under `parent` is dropped by an
/// exclusion, is still queued in `t`, or its version is recorded for the node of
/// `coordinate`.
pub open spec fn requested_or_pending(
    exclusions: Seq<(String, Vec<String>)>,
    t: GraphState,
    parent: Seq<char>,
    coordinate: Seq<char>,
    version: Seq<char>,
) -> bool {
    ||| excluded_by(exclusions, parent, coordinate)
    ||| (id_of(t.ids, coordinate) is Some && exists|o: Seq<char>, d: u32|
        #[trigger] t.reqs.contains((id_of(t.ids, coordinate)->0, version, o, d)))
    ||| exists|j: int|
        0 <= j < t.queue.len() && (#[trigger] t.queue[j]).parent == Some(parent) && t.queue[j].coordinate == coordinate
            && t.queue[j].version == version
}

/// Every propagating dependency of every expanded pair is requested or pending.
pub open spec fn walk_requests<P: PomProvider>(provider: P, exclusions: Seq<(String, Vec<String>)>, t: GraphState) -> bool {
    forall|c: Seq<char>, v: Seq<char>, q: int|
        #![trigger t.expanded.contains((c, v)), provider.published(c, v)->0.dependencies[q]]
        t.expanded.contains((c, v)) && provider.published(c, v) is Some && 0 <= q < provider.published(
            c,
            v,
        )->0.dependencies.len() && propagates(provider.published(c, v)->0.dependencies[q].2) ==> requested_or_pending(
            exclusions,
            t,
            c,
            provider.published(c, v)->0.dependencies[q].0,
            provider.published(c, v)->0.dependencies[q].1,
        )
}

proof fn lemma_requested_step<P: PomProvider>(
    provider: P,
    exclusions: Seq<(String, Vec<String>)>,
    s: GraphState,
    parent: Seq<char>,
    coordinate: Seq<char>,
    version: Seq<char>,
)
    requires
        graph_step(provider, exclusions, s) is Ok,
        requested_or_pending(exclusions, s, parent, coordinate, version),
    ensures
        requested_or_pending(exclusions, graph_step(provider, exclusions, s)->Ok_0, parent, coordinate, version),
{
    let t = graph_step(provider, exclusions, s)->Ok_0;
    if s.queue.len() == 0 || excluded_by(exclusions, parent, coordinate) {
        return;
    }
    let item = s.queue[0];
    let rest = s.queue.drop_first();
    let dropped = item.parent is Some && excluded_by(exclusions, item.parent->0, item.coordinate);
    let fresh = id_of(s.ids, item.coordinate) is None;
    let to = if fresh { s.next_id } else { id_of(s.ids, item.coordinate)->0 };
    if !dropped {
        assert(id_of(t.ids, item.coordinate) == Some(to)) by {
            if fresh {
                lemma_id_of_push(s.ids, item.coordinate, s.next_id, item.coordinate);
            }
        }
        assert(t.reqs == s.reqs.push((to, item.version, item.origin, item.depth)));
    }
    let added = if dropped || s.expanded.contains((item.coordinate, item.version)) {
        Seq::<ItemView>::empty()
    } else {
        transitive_items(
            provider.published(item.coordinate, item.version)->0.dependencies,
            to,
            item.coordinate,
            item.depth.wrapping_add(1),
            item.origin,
        )
    };
    assert(t.queue =~= rest + added);
    if id_of(s.ids, coordinate) is Some && exists|o: Seq<char>, d: u32|
        #[trigger] s.reqs.contains((id_of(s.ids, coordinate)->0, version, o, d)) {
        let (o, d) = choose|o: Seq<char>, d: u32| #[trigger] s.reqs.contains((id_of(s.ids, coordinate)->0, version, o, d));
        lemma_step_ids(provider, exclusions, s, coordinate);
        let k = choose|k: int| 0 <= k < s.reqs.len() && s.reqs[k] == (id_of(s.ids, coordinate)->0, version, o, d);
        if !dropped {
            assert(t.reqs[k] == s.reqs[k]);
        }
        assert(t.reqs.contains((id_of(t.ids, coordinate)->0, version, o, d)));
    } else {
        let j = choose|j: int|
            0 <= j < s.queue.len() && (#[trigger] s.queue[j]).parent == Some(parent) && s.queue[j].coordinate == coordinate
                && s.queue[j].version == version;
        if j == 0 {
            if !dropped {
                assert(t.reqs.last() == (to, version, item.origin, item.depth));
                assert(t.reqs.contains((id_of(t.ids, coordinate)->0, version, item.origin, item.depth)));
            }
        } else {
            assert(t.queue[j - 1] == s.queue[j]);
        }
    }
}

proof fn lemma_step_requests<P: PomProvider>(provider: P, exclusions: Seq<(String, Vec<String>)>, s: GraphState)
    requires
        walk_requests(provider, exclusions, s),
        graph_step(provider, exclusions, s) is Ok,
    ensures
        walk_requests(provider, exclusions, graph_step(provider, exclusions, s)->Ok_0),
{
    let t = graph_step(provider, exclusions, s)->Ok_0;
    assert forall|c: Seq<char>, v: Seq<char>, q: int|
        #![trigger t.expanded.contains((c, v)), provider.published(c, v)->0.dependencies[q]]
        t.expanded.contains((c, v)) && provider.published(c, v) is Some && 0 <= q < provider.published(
            c,
            v,
        )->0.dependencies.len() && propagates(provider.published(c, v)->0.dependencies[q].2) implies requested_or_pending(
        exclusions,
        t,
        c,
        provider.published(c, v)->0.dependencies[q].0,
        provider.published(c, v)->0.dependencies[q].1,
    ) by {
        let dq = provider.published(c, v)->0.dependencies[q];
        if s.expanded.contains((c, v)) {
            lemma_requested_step(provider, exclusions, s, c, dq.0, dq.1);
        } else {
            let item = s.queue[0];
            assert(t.expanded == s.expanded.push((item.coordinate, item.version)));
            assert((c, v) == (item.coordinate, item.version)) by {
                let k = choose|k: int| 0 <= k < t.expanded.len() && t.expanded[k] == (c, v);
                if k < s.expanded.len() {
                    assert(s.expanded[k] == t.expanded[k]);
                }
            }
            let fresh = id_of(s.ids, item.coordinate) is None;
            let to = if fresh { s.next_id } else { id_of(s.ids, item.coordinate)->0 };
            let deps = provider.published(c, v)->0.dependencies;
            let added = transitive_items(deps, to, c, item.depth.wrapping_add(1), item.origin);
            let rest = s.queue.drop_first();
            assert(t.queue == rest + added);
            lemma_transitive_items_cover(deps, to, c, item.depth.wrapping_add(1), item.origin);
            lemma_transitive_items_exact(deps, to, c, item.depth.wrapping_add(1), item.origin, q);
            let i = choose|i: int|
                0 <= i < added.len() && added[i].parent == Some(c) && added[i].coordinate == deps[q].0 && added[i].version
                    == deps[q].1;
            assert(t.queue[rest.len() + i] == added[i]);
        }
    }
}

proof fn lemma_transitive_items_exact(
    deps: Seq<(Seq<char>, Seq<char>, Seq<char>)>,
    from: u64,
    parent: Seq<char>,
    depth: u32,
    origin: Seq<char>,
    q: int,
)
    requires
        0 <= q < deps.len(),
        propagates(deps[q].2),
    ensures
        exists|i: int|
            0 <= i < transitive_items(deps, from, parent, depth, origin).len() && transitive_items(
                deps,
                from,
                parent,
                depth,
                origin,
            )[i].parent == Some(parent) && transitive_items(deps, from, parent, depth, origin)[i].coordinate == deps[q].0
                && transitive_items(deps, from, parent, depth, origin)[i].version == deps[q].1,
    decreases deps.len(),
{
    let prev = deps.drop_last();
    let items = transitive_items(prev, from, parent, depth, origin);
    let all = transitive_items(deps, from, parent, depth, origin);
    if q < deps.len() - 1 {
        assert(prev[q] == deps[q]);
        lemma_transitive_items_exact(prev, from, parent, depth, origin, q);
        let i = choose|i: int|
            0 <= i < items.len() && items[i].parent == Some(parent) && items[i].coordinate == prev[q].0 && items[i].version
                == prev[q].1;
        assert(all[i] == items[i]);
    } else {
        assert(deps[q] == deps.last());
        assert(all[items.len() as int] == all.last());
    }
}

proof fn lemma_iter_requests<P: PomProvider>(
    provider: P,
    exclusions: Seq<(String, Vec<String>)>,
    start: GraphState,
    k: nat,
)
    requires
        walk_requests(provider, exclusions, start),
        graph_iter(provider, exclusions, start, k) is Ok,
    ensures
        walk_requests(provider, exclusions, graph_iter(provider, exclusions, start, k)->Ok_0),
    decreases k,
{
    if k > 0 {
        let prev = graph_iter(provider, exclusions, start, (k - 1) as nat);
        assert(prev is Ok);
        lemma_iter_requests(provider, exclusions, start, (k - 1) as nat);
        lemma_step_requests(provider, exclusions, prev->Ok_0);
    }
}

/// The requests of a candidate as plain values `(version, origin module, depth)`.
pub open spec fn candidate_requests(n: CandidateNode) -> Seq<(Seq<char>, Seq<char>, u32)> {
    n.requests@.map_values(|r: VersionRequest| request_view(r))
}

/// No propagating dependency of a fetched POM is lost as a request: for every
/// `(coordinate, version)` the walk expanded, each `compile`/`runtime` dependency
/// that the exclusions of `coordinate` do not drop is requested, at its version, of
/// the candidate of its coordinate.
pub proof fn law_transitive_dependencies_are_requested<P: PomProvider>(
    provider: P,
    exclusions: Seq<(String, Vec<String>)>,
    modules: Seq<Module>,
    bom: Seq<(Seq<char>, Seq<char>)>,
    g: CandidateGraph,
    end: GraphState,
)
    requires
        initial_items(modules, bom) is Ok,
        walk_ends_in(provider, exclusions, initial_state(modules, initial_items(modules, bom)->Ok_0), end),
        graph_matches(g, end, roots_of(modules)),
    ensures
        forall|c: Seq<char>, v: Seq<char>, q: int|
            #![trigger end.expanded.contains((c, v)), provider.published(c, v)->0.dependencies[q]]
            end.expanded.contains((c, v)) && provider.published(c, v) is Some && 0 <= q < provider.published(
                c,
                v,
            )->0.dependencies.len() && propagates(provider.published(c, v)->0.dependencies[q].2) && !excluded_by(
                exclusions,
                c,
                provider.published(c, v)->0.dependencies[q].0,
            ) ==> exists|b: int, o: Seq<char>, d: u32|
                0 <= b < g.candidates@.len() && g.candidates@[b].1.coordinate@ == provider.published(
                    c,
                    v,
                )->0.dependencies[q].0 && #[trigger] candidate_requests(g.candidates@[b].1).contains((provider.published(c, v)->0.dependencies[q].1, o, d)),
{
    let items = initial_items(modules, bom)->Ok_0;
    let start = initial_state(modules, items);
    let k = choose|k: nat| #[trigger] graph_iter(provider, exclusions, start, k) == Ok::<GraphState, GraphErr>(end) && end.queue.len() == 0;
    assert(walk_requests(provider, exclusions, start));
    lemma_iter_requests(provider, exclusions, start, k);
    assert forall|c: Seq<char>, v: Seq<char>, q: int|
        #![trigger end.expanded.contains((c, v)), provider.published(c, v)->0.dependencies[q]]
        end.expanded.contains((c, v)) && provider.published(c, v) is Some && 0 <= q < provider.published(
            c,
            v,
        )->0.dependencies.len() && propagates(provider.published(c, v)->0.dependencies[q].2) && !excluded_by(
            exclusions,
            c,
            provider.published(c, v)->0.dependencies[q].0,
        ) implies exists|b: int, o: Seq<char>, d: u32|
            0 <= b < g.candidates@.len() && g.candidates@[b].1.coordinate@ == provider.published(
                c,
                v,
            )->0.dependencies[q].0 && #[trigger] candidate_requests(g.candidates@[b].1).contains((provider.published(c, v)->0.dependencies[q].1, o, d)) by {
        let dq = provider.published(c, v)->0.dependencies[q];
        assert(requested_or_pending(exclusions, end, c, dq.0, dq.1));
        let id = id_of(end.ids, dq.0)->0;
        let (o, d) = choose|o: Seq<char>, d: u32| #[trigger] end.reqs.contains((id, dq.1, o, d));
        lemma_requests_of_contains(end.reqs, id, dq.1, o, d);
        lemma_id_of_entry(end.ids, dq.0);
        let b = choose|b: int| 0 <= b < end.ids.len() && end.ids[b] == (dq.0, id);
        assert(g.candidates@[b].1.coordinate@ == end.ids[b].0);
        assert(candidate_requests(g.candidates@[b].1) == requests_of(end.reqs, end.ids[b].1));
        assert(candidate_requests(g.candidates@[b].1).contains((dq.1, o, d)));
        assert(g.candidates@[b].1.coordinate@ == dq.0);
    }
}

/// `coordinate:version` is a dependency of scope none, `compile` or `runtime` of the
/// POM of some expanded `parent:v`.
pub open spec fn sourced_dep<P: PomProvider>(
    provider: P,
    expanded: Seq<(Seq<char>, Seq<char>)>,
    parent: Seq<char>,
    coordinate: Seq<char>,
    version: Seq<char>,
) -> bool {
    exists|v: Seq<char>, q: int|
        #![trigger expanded.contains((parent, v)), provider.published(parent, v)->0.dependencies[q]]
        expanded.contains((parent, v)) && provider.published(parent, v) is Some && 0 <= q < provider.published(
            parent,
            v,
        )->0.dependencies.len() && provider.published(parent, v)->0.dependencies[q].0 == coordinate
            && provider.published(parent, v)->0.dependencies[q].1 == version && (provider.published(
            parent,
            v,
        )->0.dependencies[q].2.len() == 0 || provider.published(parent, v)->0.dependencies[q].2 == "compile"@
            || provider.published(parent, v)->0.dependencies[q].2 == "runtime"@)
}

/// Every transitive request queued, and every `External` edge, comes from a
/// dependency of scope none, `compile` or `runtime` of an expanded POM.
pub open spec fn walk_sourced<P: PomProvider>(provider: P, t: GraphState) -> bool {
    &&& forall|i: int|
        0 <= i < t.queue.len() && (#[trigger] t.queue[i]).kind is External ==> t.queue[i].parent is Some && sourced_dep(
            provider,
            t.expanded,
            t.queue[i].parent->0,
            t.queue[i].coordinate,
            t.queue[i].version,
        )
    &&& forall|j: int|
        0 <= j < t.edges.len() && (#[trigger] t.edges[j]).kind is External ==> exists|pc: Seq<char>, cc: Seq<char>, w: Seq<char>|
            #![trigger id_of(t.ids, pc), id_of(t.ids, cc), sourced_dep(provider, t.expanded, pc, cc, w)]
            id_of(t.ids, pc) == Some(t.edges[j].from.0) && id_of(t.ids, cc) == Some(t.edges[j].to.0) && sourced_dep(
                provider,
                t.expanded,
                pc,
                cc,
                w,
            )
}

proof fn lemma_sourced_push<P: PomProvider>(
    provider: P,
    expanded: Seq<(Seq<char>, Seq<char>)>,
    x: (Seq<char>, Seq<char>),
    parent: Seq<char>,
    coordinate: Seq<char>,
    version: Seq<char>,
)
    requires
        sourced_dep(provider, expanded, parent, coordinate, version),
    ensures
        sourced_dep(provider, expanded.push(x), parent, coordinate, version),
{
    let (v, q) = choose|v: Seq<char>, q: int|
        #![trigger expanded.contains((parent, v)), provider.published(parent, v)->0.dependencies[q]]
        expanded.contains((parent, v)) && provider.published(parent, v) is Some && 0 <= q < provider.published(
            parent,
            v,
        )->0.dependencies.len() && provider.published(parent, v)->0.dependencies[q].0 == coordinate
            && provider.published(parent, v)->0.dependencies[q].1 == version && (provider.published(
            parent,
            v,
        )->0.dependencies[q].2.len() == 0 || provider.published(parent, v)->0.dependencies[q].2 == "compile"@
            || provider.published(parent, v)->0.dependencies[q].2 == "runtime"@);
    let k = choose|k: int| 0 <= k < expanded.len() && expanded[k] == (parent, v);
    assert(expanded.push(x)[k] == (parent, v));
    assert(expanded.push(x).contains((parent, v)));
}

proof fn lemma_step_sourced<P: PomProvider>(provider: P, exclusions: Seq<(String, Vec<String>)>, s: GraphState)
    requires
        walk_sound(exclusions, s),
        walk_sourced(provider, s),
        graph_step(provider, exclusions, s) is Ok,
    ensures
        walk_sourced(provider, graph_step(provider, exclusions, s)->Ok_0),
{
    let t = graph_step(provider, exclusions, s)->Ok_0;
    if s.queue.len() == 0 {
        assert(t == s);
    } else if s.queue[0].parent is Some && excluded_by(exclusions, s.queue[0].parent->0, s.queue[0].coordinate) {
        assert forall|i: int| 0 <= i < t.queue.len() && (#[trigger] t.queue[i]).kind is External implies t.queue[i].parent is Some
            && sourced_dep(provider, t.expanded, t.queue[i].parent->0, t.queue[i].coordinate, t.queue[i].version) by {
            assert(t.queue[i] == s.queue[i + 1]);
        }
        assert(t.edges == s.edges && t.ids == s.ids && t.expanded == s.expanded);
    } else {
        lemma_step_sourced_kept(provider, exclusions, s);
    }
}

proof fn lemma_step_sourced_kept<P: PomProvider>(provider: P, exclusions: Seq<(String, Vec<String>)>, s: GraphState)
    requires
        walk_sound(exclusions, s),
        walk_sourced(provider, s),
        graph_step(provider, exclusions, s) is Ok,
        s.queue.len() > 0,
        !(s.queue[0].parent is Some && excluded_by(exclusions, s.queue[0].parent->0, s.queue[0].coordinate)),
    ensures
        walk_sourced(provider, graph_step(provider, exclusions, s)->Ok_0),
{
    let t = graph_step(provider, exclusions, s)->Ok_0;
    let item = s.queue[0];
    let rest = s.queue.drop_first();
    let fresh = id_of(s.ids, item.coordinate) is None;
    let to = if fresh { s.next_id } else { id_of(s.ids, item.coordinate)->0 };
    assert(id_of(t.ids, item.coordinate) == Some(to)) by {
        if fresh {
            lemma_id_of_push(s.ids, item.coordinate, s.next_id, item.coordinate);
        }
    }
    let expanding = !s.expanded.contains((item.coordinate, item.version));
    let added = if expanding {
        transitive_items(
            provider.published(item.coordinate, item.version)->0.dependencies,
            to,
            item.coordinate,
            item.depth.wrapping_add(1),
            item.origin,
        )
    } else {
        Seq::<ItemView>::empty()
    };
    assert(t.queue =~= rest + added);
    assert(t.expanded == if expanding { s.expanded.push((item.coordinate, item.version)) } else { s.expanded });
    assert forall|p: Seq<char>, c: Seq<char>, w: Seq<char>| sourced_dep(provider, s.expanded, p, c, w) implies #[trigger] sourced_dep(
        provider,
        t.expanded,
        p,
        c,
        w,
    ) by {
        if expanding {
            lemma_sourced_push(provider, s.expanded, (item.coordinate, item.version), p, c, w);
        }
    }
    if expanding {
        let deps = provider.published(item.coordinate, item.version)->0.dependencies;
        lemma_transitive_items_pairs(deps, to, item.coordinate, item.depth.wrapping_add(1), item.origin);
        lemma_transitive_items_shape(deps, to, item.coordinate, item.depth.wrapping_add(1), item.origin);
        assert(t.expanded[s.expanded.len() as int] == (item.coordinate, item.version));
        assert(t.expanded.contains((item.coordinate, item.version)));
        assert forall|a: int| 0 <= a < added.len() implies #[trigger] sourced_dep(
            provider,
            t.expanded,
            item.coordinate,
            added[a].coordinate,
            added[a].version,
        ) by {
            let q = choose|q: int|
                0 <= q < deps.len() && propagates(deps[q].2) && deps[q].0 == (#[trigger] added[a]).coordinate && deps[q].1
                    == added[a].version;
            assert(provider.published(item.coordinate, item.version)->0.dependencies[q] == deps[q]);
        }
    }
    assert forall|i: int| 0 <= i < t.queue.len() && (#[trigger] t.queue[i]).kind is External implies t.queue[i].parent is Some
        && sourced_dep(provider, t.expanded, t.queue[i].parent->0, t.queue[i].coordinate, t.queue[i].version) by {
        if i < rest.len() {
            assert(t.queue[i] == s.queue[i + 1]);
        } else {
            let a = i - rest.len();
            assert(t.queue[i] == added[a]);
            assert(sourced_dep(provider, t.expanded, item.coordinate, added[a].coordinate, added[a].version));
        }
    }
    let e = GraphEdge { from: NodeId(item.from), to: NodeId(to), kind: item.kind };
    assert(t.edges == s.edges.push(e));
    assert forall|j: int| 0 <= j < t.edges.len() && (#[trigger] t.edges[j]).kind is External implies exists|
        pc: Seq<char>,
        cc: Seq<char>,
        w: Seq<char>,
    |
        #![trigger id_of(t.ids, pc), id_of(t.ids, cc), sourced_dep(provider, t.expanded, pc, cc, w)]
        id_of(t.ids, pc) == Some(t.edges[j].from.0) && id_of(t.ids, cc) == Some(t.edges[j].to.0) && sourced_dep(
            provider,
            t.expanded,
            pc,
            cc,
            w,
        ) by {
        if j < s.edges.len() {
            assert(t.edges[j] == s.edges[j]);
            let (pc, cc, w) = choose|pc: Seq<char>, cc: Seq<char>, w: Seq<char>|
                #![trigger id_of(s.ids, pc), id_of(s.ids, cc), sourced_dep(provider, s.expanded, pc, cc, w)]
                id_of(s.ids, pc) == Some(s.edges[j].from.0) && id_of(s.ids, cc) == Some(s.edges[j].to.0) && sourced_dep(
                    provider,
                    s.expanded,
                    pc,
                    cc,
                    w,
                );
            lemma_step_ids(provider, exclusions, s, pc);
            lemma_step_ids(provider, exclusions, s, cc);
            assert(sourced_dep(provider, t.expanded, pc, cc, w));
        } else {
            assert(t.edges[j] == e);
            assert(s.queue[0] == item);
            let pc = item.parent->0;
            assert(id_of(s.ids, pc) == Some(item.from));
            lemma_step_ids(provider, exclusions, s, pc);
            assert(sourced_dep(provider, s.expanded, pc, item.coordinate, item.version));
            assert(sourced_dep(provider, t.expanded, pc, item.coordinate, item.version));
        }
    }
}

proof fn lemma_iter_sourced<P: PomProvider>(
    provider: P,
    exclusions: Seq<(String, Vec<String>)>,
    start: GraphState,
    k: nat,
)
    requires
        walk_sound(exclusions, start),
        walk_sourced(provider, start),
        graph_iter(provider, exclusions, start, k) is Ok,
    ensures
        walk_sourced(provider, graph_iter(provider, exclusions, start, k)->Ok_0),
        walk_sound(exclusions, graph_iter(provider, exclusions, start, k)->Ok_0),
    decreases k,
{
    if k > 0 {
        let prev = graph_iter(provider, exclusions, start, (k - 1) as nat);
        assert(prev is Ok);
        lemma_iter_sourced(provider, exclusions, start, (k - 1) as nat);
        lemma_step_sourced(provider, exclusions, prev->Ok_0);
        lemma_step_sound(provider, exclusions, prev->Ok_0);
    }
}

/// Only dependencies of scope none, `compile` or `runtime` are inherited: in the
/// graph a successful build gives, every `External` edge runs from the candidate of
/// a coordinate whose POM (at some version the walk fetched) lists the target's
/// coordinate with one of those scopes. A `provided`, `test` or `system`
/// dependency of a POM never gives an edge.
pub proof fn law_only_inherited_scopes_give_edges<P: PomProvider>(
    provider: P,
    exclusions: Seq<(String, Vec<String>)>,
    modules: Seq<Module>,
    bom: Seq<(Seq<char>, Seq<char>)>,
    g: CandidateGraph,
    end: GraphState,
)
    requires
        initial_items(modules, bom) is Ok,
        walk_ends_in(provider, exclusions, initial_state(modules, initial_items(modules, bom)->Ok_0), end),
        graph_matches(g, end, roots_of(modules)),
    ensures
        forall|j: int|
            0 <= j < g.edges@.len() && (#[trigger] g.edges@[j]).kind is External ==> exists|a: int, b: int, v: Seq<char>, q: int|
                #![trigger g.candidates@[a], g.candidates@[b], provider.published(g.candidates@[a].1.coordinate@, v)->0.dependencies[q]]
                0 <= a < g.candidates@.len() && 0 <= b < g.candidates@.len() && g.candidates@[a].0 == g.edges@[j].from
                    && g.candidates@[b].0 == g.edges@[j].to && end.expanded.contains((g.candidates@[a].1.coordinate@, v))
                    && provider.published(g.candidates@[a].1.coordinate@, v) is Some && 0 <= q < provider.published(
                    g.candidates@[a].1.coordinate@,
                    v,
                )->0.dependencies.len() && provider.published(g.candidates@[a].1.coordinate@, v)->0.dependencies[q].0
                    == g.candidates@[b].1.coordinate@ && (provider.published(
                    g.candidates@[a].1.coordinate@,
                    v,
                )->0.dependencies[q].2.len() == 0 || provider.published(
                    g.candidates@[a].1.coordinate@,
                    v,
                )->0.dependencies[q].2 == "compile"@ || provider.published(
                    g.candidates@[a].1.coordinate@,
                    v,
                )->0.dependencies[q].2 == "runtime"@),
{
    let items = initial_items(modules, bom)->Ok_0;
    let start = initial_state(modules, items);
    lemma_initial_items_shape(modules, bom);
    assert(walk_sound(exclusions, start)) by {
        assert(start.expanded.no_duplicates());
    }
    assert(walk_sourced(provider, start));
    let k = choose|k: nat| #[trigger] graph_iter(provider, exclusions, start, k) == Ok::<GraphState, GraphErr>(end) && end.queue.len() == 0;
    lemma_iter_sourced(provider, exclusions, start, k);
    assert forall|j: int| 0 <= j < g.edges@.len() && (#[trigger] g.edges@[j]).kind is External implies exists|
        a: int,
        b: int,
        v: Seq<char>,
        q: int,
    |
        #![trigger g.candidates@[a], g.candidates@[b], provider.published(g.candidates@[a].1.coordinate@, v)->0.dependencies[q]]
        0 <= a < g.candidates@.len() && 0 <= b < g.candidates@.len() && g.candidates@[a].0 == g.edges@[j].from
            && g.candidates@[b].0 == g.edges@[j].to && end.expanded.contains((g.candidates@[a].1.coordinate@, v))
            && provider.published(g.candidates@[a].1.coordinate@, v) is Some && 0 <= q < provider.published(
            g.candidates@[a].1.coordinate@,
            v,
        )->0.dependencies.len() && provider.published(g.candidates@[a].1.coordinate@, v)->0.dependencies[q].0
            == g.candidates@[b].1.coordinate@ && (provider.published(
            g.candidates@[a].1.coordinate@,
            v,
        )->0.dependencies[q].2.len() == 0 || provider.published(
            g.candidates@[a].1.coordinate@,
            v,
        )->0.dependencies[q].2 == "compile"@ || provider.published(
            g.candidates@[a].1.coordinate@,
            v,
        )->0.dependencies[q].2 == "runtime"@) by {
        assert(end.edges[j] == g.edges@[j]);
        let (pc, cc, w) = choose|pc: Seq<char>, cc: Seq<char>, w: Seq<char>|
            #![trigger id_of(end.ids, pc), id_of(end.ids, cc), sourced_dep(provider, end.expanded, pc, cc, w)]
            id_of(end.ids, pc) == Some(end.edges[j].from.0) && id_of(end.ids, cc) == Some(end.edges[j].to.0)
                && sourced_dep(provider, end.expanded, pc, cc, w);
        lemma_id_of_entry(end.ids, pc);
        lemma_id_of_entry(end.ids, cc);
        let a = choose|i: int| 0 <= i < end.ids.len() && end.ids[i] == (pc, id_of(end.ids, pc)->0);
        let b = choose|i: int| 0 <= i < end.ids.len() && end.ids[i] == (cc, id_of(end.ids, cc)->0);
        assert(g.candidates@[a].0.0 == end.ids[a].1);
        assert(g.candidates@[b].0.0 == end.ids[b].1);
        assert(g.candidates@[a].1.coordinate@ == pc);
        assert(g.candidates@[b].1.coordinate@ == cc);
        let (v, q) = choose|v: Seq<char>, q: int|
            #![trigger end.expanded.contains((pc, v)), provider.published(pc, v)->0.dependencies[q]]
            end.expanded.contains((pc, v)) && provider.published(pc, v) is Some && 0 <= q < provider.published(
                pc,
                v,
            )->0.dependencies.len() && provider.published(pc, v)->0.dependencies[q].0 == cc
                && provider.published(pc, v)->0.dependencies[q].1 == w && (provider.published(
                pc,
                v,
            )->0.dependencies[q].2.len() == 0 || provider.published(pc, v)->0.dependencies[q].2 == "compile"@
                || provider.published(pc, v)->0.dependencies[q].2 == "runtime"@);
        assert(provider.published(g.candidates@[a].1.coordinate@, v)->0.dependencies[q].0 == g.candidates@[b].1.coordinate@);
    }
}

/// `coordinate` is requested at `version` by module `origin` at depth `depth`
/// among the declared items `items`.
pub open spec fn listed_item(items: Seq<ItemView>, coordinate: Seq<char>, version: Seq<char>, origin: Seq<char>, depth: u32) -> bool {
    exists|i: int|
        #![trigger items[i]]
        0 <= i < items.len() && items[i].coordinate == coordinate && items[i].version == version && items[i].origin == origin
            && items[i].depth == depth
}

/// `coordinate:version` is a dependency of scope none, `compile` or `runtime` of
/// the POM of some expanded coordinate.
pub open spec fn inherited<P: PomProvider>(
    provider: P,
    expanded: Seq<(Seq<char>, Seq<char>)>,
    coordinate: Seq<char>,
    version: Seq<char>,
) -> bool {
    exists|p: Seq<char>| #[trigger] sourced_dep(provider, expanded, p, coordinate, version)
}

/// The coordinate `c` of a node id is one of a declared item or an inherited
/// dependency of an expanded POM.
pub open spec fn id_source<P: PomProvider>(
    provider: P,
    items: Seq<ItemView>,
    expanded: Seq<(Seq<char>, Seq<char>)>,
    c: Seq<char>,
) -> bool {
    (exists|v: Seq<char>, o: Seq<char>, d: u32| #[trigger] listed_item(items, c, v, o, d)) || (exists|v: Seq<char>|
        #[trigger] inherited(provider, expanded, c, v))
}

/// Every pending declared request is one of the declared items, and every node
/// id is for a coordinate of a declared item or of an inherited dependency of an
/// expanded POM.
pub open spec fn walk_origins<P: PomProvider>(provider: P, items: Seq<ItemView>, t: GraphState) -> bool {
    &&& forall|i: int|
        0 <= i < t.queue.len() && !((#[trigger] t.queue[i]).kind is External) ==> listed_item(
            items,
            t.queue[i].coordinate,
            t.queue[i].version,
            t.queue[i].origin,
            t.queue[i].depth,
        )
    &&& forall|k: int| 0 <= k < t.ids.len() ==> id_source(provider, items, t.expanded, (#[trigger] t.ids[k]).0)
}

proof fn lemma_inherited_push<P: PomProvider>(
    provider: P,
    expanded: Seq<(Seq<char>, Seq<char>)>,
    x: (Seq<char>, Seq<char>),
    coordinate: Seq<char>,
    version: Seq<char>,
)
    requires
        inherited(provider, expanded, coordinate, version),
    ensures
        inherited(provider, expanded.push(x), coordinate, version),
{
    let p = choose|p: Seq<char>| #[trigger] sourced_dep(provider, expanded, p, coordinate, version);
    lemma_sourced_push(provider, expanded, x, p, coordinate, version);
}

proof fn lemma_step_origins<P: PomProvider>(
    provider: P,
    exclusions: Seq<(String, Vec<String>)>,
    items: Seq<ItemView>,
    s: GraphState,
)
    requires
        walk_sound(exclusions, s),
        walk_sourced(provider, s),
        walk_origins(provider, items, s),
        graph_step(provider, exclusions, s) is Ok,
    ensures
        walk_origins(provider, items, graph_step(provider, exclusions, s)->Ok_0),
{
    let t = graph_step(provider, exclusions, s)->Ok_0;
    if s.queue.len() == 0 {
        assert(t == s);
    } else if s.queue[0].parent is Some && excluded_by(exclusions, s.queue[0].parent->0, s.queue[0].coordinate) {
        assert(t.ids == s.ids && t.reqs == s.reqs && t.expanded == s.expanded);
        assert forall|i: int| 0 <= i < t.queue.len() && !((#[trigger] t.queue[i]).kind is External) implies listed_item(
            items,
            t.queue[i].coordinate,
            t.queue[i].version,
            t.queue[i].origin,
            t.queue[i].depth,
        ) by {
            assert(t.queue[i] == s.queue[i + 1]);
        }
    } else {
        lemma_step_origins_kept(provider, exclusions, items, s);
    }
}

proof fn lemma_step_origins_kept<P: PomProvider>(
    provider: P,
    exclusions: Seq<(String, Vec<String>)>,
    items: Seq<ItemView>,
    s: GraphState,
)
    requires
        walk_sound(exclusions, s),
        walk_sourced(provider, s),
        walk_origins(provider, items, s),
        graph_step(provider, exclusions, s) is Ok,
        s.queue.len() > 0,
        !(s.queue[0].parent is Some && excluded_by(exclusions, s.queue[0].parent->0, s.queue[0].coordinate)),
    ensures
        walk_origins(provider, items, graph_step(provider, exclusions, s)->Ok_0),
{
    let t = graph_step(provider, exclusions, s)->Ok_0;
    let item = s.queue[0];
    let rest = s.queue.drop_first();
    let fresh = id_of(s.ids, item.coordinate) is None;
    let to = if fresh { s.next_id } else { id_of(s.ids, item.coordinate)->0 };
    assert(id_of(t.ids, item.coordinate) == Some(to)) by {
        if fresh {
            lemma_id_of_push(s.ids, item.coordinate, s.next_id, item.coordinate);
        }
    }
    let expanding = !s.expanded.contains((item.coordinate, item.version));
    let added = if expanding {
        transitive_items(
            provider.published(item.coordinate, item.version)->0.dependencies,
            to,
            item.coordinate,
            item.depth.wrapping_add(1),
            item.origin,
        )
    } else {
        Seq::<ItemView>::empty()
    };
    assert(t.queue =~= rest + added);
    assert(t.expanded == if expanding { s.expanded.push((item.coordinate, item.version)) } else { s.expanded });
    assert(t.ids == if fresh { s.ids.push((item.coordinate, s.next_id)) } else { s.ids });
    assert(t.reqs == s.reqs.push((to, item.version, item.origin, item.depth)));
    assert forall|c: Seq<char>, v: Seq<char>| inherited(provider, s.expanded, c, v) implies #[trigger] inherited(
        provider,
        t.expanded,
        c,
        v,
    ) by {
        if expanding {
            lemma_inherited_push(provider, s.expanded, (item.coordinate, item.version), c, v);
        }
    }
    // where the item itself comes from
    assert(listed_item(items, item.coordinate, item.version, item.origin, item.depth) || inherited(
        provider,
        t.expanded,
        item.coordinate,
        item.version,
    )) by {
        assert(s.queue[0] == item);
        if item.kind is External {
            assert(sourced_dep(provider, s.expanded, item.parent->0, item.coordinate, item.version));
            assert(inherited(provider, s.expanded, item.coordinate, item.version));
        }
    }
    if expanding {
        let deps = provider.published(item.coordinate, item.version)->0.dependencies;
        lemma_transitive_items_shape(deps, to, item.coordinate, item.depth.wrapping_add(1), item.origin);
    }
    assert forall|i: int| 0 <= i < t.queue.len() && !((#[trigger] t.queue[i]).kind is External) implies listed_item(
        items,
        t.queue[i].coordinate,
        t.queue[i].version,
        t.queue[i].origin,
        t.queue[i].depth,
    ) by {
        if i < rest.len() {
            assert(t.queue[i] == s.queue[i + 1]);
        } else {
            assert(t.queue[i] == added[i - rest.len()]);
        }
    }
    assert forall|k: int| 0 <= k < t.ids.len() implies id_source(provider, items, t.expanded, (#[trigger] t.ids[k]).0) by {
        if k < s.ids.len() {
            assert(t.ids[k] == s.ids[k]);
            assert(id_source(provider, items, s.expanded, s.ids[k].0));
            if exists|v: Seq<char>| #[trigger] inherited(provider, s.expanded, s.ids[k].0, v) {
                let v = choose|v: Seq<char>| #[trigger] inherited(provider, s.expanded, s.ids[k].0, v);
                assert(inherited(provider, t.expanded, t.ids[k].0, v));
            }
        } else {
            assert(t.ids[k] == (item.coordinate, s.next_id));
            if listed_item(items, item.coordinate, item.version, item.origin, item.depth) {
                assert(listed_item(items, t.ids[k].0, item.version, item.origin, item.depth));
            } else {
                assert(inherited(provider, t.expanded, t.ids[k].0, item.version));
            }
        }
    }
}

proof fn lemma_iter_origins<P: PomProvider>(
    provider: P,
    exclusions: Seq<(String, Vec<String>)>,
    items: Seq<ItemView>,
    start: GraphState,
    k: nat,
)
    requires
        walk_sound(exclusions, start),
        walk_sourced(provider, start),
        walk_origins(provider, items, start),
        graph_iter(provider, exclusions, start, k) is Ok,
    ensures
        walk_origins(provider, items, graph_iter(provider, exclusions, start, k)->Ok_0),
    decreases k,
{
    if k > 0 {
        let prev = graph_iter(provider, exclusions, start, (k - 1) as nat);
        assert(prev is Ok);
        lemma_iter_origins(provider, exclusions, items, start, (k - 1) as nat);
        lemma_iter_sourced(provider, exclusions, start, (k - 1) as nat);
        lemma_step_origins(provider, exclusions, items, prev->Ok_0);
    }
}

/// A candidate enters the graph only as a declared dependency of a module or as a
/// dependency of scope none, `compile` or `runtime` of a POM the walk fetched: a
/// coordinate that fetched POMs list only as `provided`, `test` or `system`, and
/// that no module declares, never becomes a candidate.
pub proof fn law_candidates_are_declared_or_inherited<P: PomProvider>(
    provider: P,
    exclusions: Seq<(String, Vec<String>)>,
    modules: Seq<Module>,
    bom: Seq<(Seq<char>, Seq<char>)>,
    g: CandidateGraph,
    end: GraphState,
)
    requires
        initial_items(modules, bom) is Ok,
        walk_ends_in(provider, exclusions, initial_state(modules, initial_items(modules, bom)->Ok_0), end),
        graph_matches(g, end, roots_of(modules)),
    ensures
        forall|b: int|
            0 <= b < g.candidates@.len() ==> (exists|a: int, d: int|
                0 <= a < modules.len() && 0 <= d < modules[a].declared_dependencies@.len() && (
                #[trigger] modules[a].declared_dependencies@[d]).coordinate@ == (#[trigger] g.candidates@[b]).1.coordinate@)
                || (exists|pc: Seq<char>, v: Seq<char>|
                #[trigger] sourced_dep(provider, end.expanded, pc, g.candidates@[b].1.coordinate@, v)),
{
    let items = initial_items(modules, bom)->Ok_0;
    let start = initial_state(modules, items);
    lemma_initial_items_shape(modules, bom);
    assert(walk_sound(exclusions, start)) by {
        assert(start.expanded.no_duplicates());
    }
    assert(walk_sourced(provider, start));
    assert(walk_origins(provider, items, start)) by {
        assert forall|i: int| 0 <= i < start.queue.len() && !((#[trigger] start.queue[i]).kind is External) implies listed_item(
            items,
            start.queue[i].coordinate,
            start.queue[i].version,
            start.queue[i].origin,
            start.queue[i].depth,
        ) by {
            assert(items[i] == start.queue[i]);
        }
    }
    let k = choose|k: nat| #[trigger] graph_iter(provider, exclusions, start, k) == Ok::<GraphState, GraphErr>(end) && end.queue.len() == 0;
    lemma_iter_origins(provider, exclusions, items, start, k);
    assert forall|b: int| 0 <= b < g.candidates@.len() implies (exists|a: int, d: int|
        0 <= a < modules.len() && 0 <= d < modules[a].declared_dependencies@.len() && (
        #[trigger] modules[a].declared_dependencies@[d]).coordinate@ == (#[trigger] g.candidates@[b]).1.coordinate@) || (exists|
        pc: Seq<char>,
        v: Seq<char>,
    | #[trigger] sourced_dep(provider, end.expanded, pc, g.candidates@[b].1.coordinate@, v)) by {
        let c = end.ids[b].0;
        assert(g.candidates@[b].1.coordinate@ == c);
        assert(id_source(provider, items, end.expanded, end.ids[b].0));
        if exists|v: Seq<char>, o: Seq<char>, d: u32| #[trigger] listed_item(items, c, v, o, d) {
            let (v, o, d) = choose|v: Seq<char>, o: Seq<char>, d: u32| #[trigger] listed_item(items, c, v, o, d);
            let i = choose|i: int|
                #![trigger items[i]]
                0 <= i < items.len() && items[i].coordinate == c && items[i].version == v && items[i].origin == o
                    && items[i].depth == d;
            let (a, dd) = lemma_initial_item_source(modules, bom, i);
            assert(modules[a].declared_dependencies@[dd].coordinate@ == g.candidates@[b].1.coordinate@);
        } else {
            let v = choose|v: Seq<char>| #[trigger] inherited(provider, end.expanded, c, v);
            let pc = choose|p: Seq<char>| #[trigger] sourced_dep(provider, end.expanded, p, c, v);
            assert(sourced_dep(provider, end.expanded, pc, g.candidates@[b].1.coordinate@, v));
        }
    }
}

} // verus!
