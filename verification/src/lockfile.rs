//! `project.lock`: its validity against the manifests and its construction from the
//! mediated graph.
use crate::domain::{DependencyGraph, GraphEdge, LockedPackage, LockedRequest, Lockfile, ResolvedNode, VersionRequest};
use crate::bom::pairs_view;
use crate::digest::{hash_bytes, hex, sha256_digest};
use vstd::string::StringSliceAdditionalSpecFns;
use vstd::utf8::encode_utf8;
use crate::graph::{lookup_value, table_get};
use crate::text::{join3, lemma_seq_lt_irreflexive, lemma_seq_lt_total, lemma_seq_lt_transitive, seq_lt, str_eq, str_lt, strictly_sorted};
use vstd::prelude::*;

verus! {

/// Failures of lockfile construction.
#[derive(Debug, Clone, PartialEq, Eq)]
pub enum LockfileError {
    /// No checksum was given for the package `coordinate@version`.
    MissingChecksum(String),
}

/// `lockfile` records `manifest_hash` as the hash of the manifests it was resolved
/// from.
pub open spec fn lock_matches(lockfile: Lockfile, manifest_hash: Seq<char>) -> bool {
    lockfile.manifest_hash@ == manifest_hash
}

/// A lockfile is reused only when the manifest hash it records equals the hash of
/// the current manifests.
pub fn is_lockfile_valid(lockfile: &Lockfile, current_manifest_hash: &str) -> (res: bool)
    ensures
        res == lock_matches(*lockfile, current_manifest_hash@),
{
    str_eq(lockfile.manifest_hash.as_str(), current_manifest_hash)
}

/// `coordinate@version`, the key of a package in checksum tables and dependency lists.
pub open spec fn package_key(coordinate: Seq<char>, version: Seq<char>) -> Seq<char> {
    coordinate + "@"@ + version
}

/// The first node of `nodes` with id `id`.
pub open spec fn node_with_id(nodes: Seq<ResolvedNode>, id: u64) -> Option<ResolvedNode>
    decreases nodes.len(),
{
    if nodes.len() == 0 {
        None
    } else if nodes[0].id.0 == id {
        Some(nodes[0])
    } else {
        node_with_id(nodes.drop_first(), id)
    }
}

/// Keys of the nodes that `edges` lead to from `id`, in edge order (edges to an
/// unknown node are skipped).
pub open spec fn child_keys(nodes: Seq<ResolvedNode>, edges: Seq<GraphEdge>, id: u64) -> Seq<Seq<char>>
    decreases edges.len(),
{
    if edges.len() == 0 {
        Seq::empty()
    } else {
        let keys = child_keys(nodes, edges.drop_last(), id);
        let e = edges.last();
        if e.from.0 == id {
            match node_with_id(nodes, e.to.0) {
                Some(child) => keys.push(package_key(child.coordinate@, child.selected@)),
                None => keys,
            }
        } else {
            keys
        }
    }
}

/// Index of the first node with the smallest id.
pub open spec fn min_id_index(nodes: Seq<ResolvedNode>) -> int
    decreases nodes.len(),
{
    if nodes.len() <= 1 {
        0
    } else {
        let m = min_id_index(nodes.drop_last());
        if nodes.last().id.0 < nodes[m].id.0 {
            nodes.len() - 1
        } else {
            m
        }
    }
}

/// The nodes in increasing id order (nodes with equal ids keep their order).
pub open spec fn by_id(nodes: Seq<ResolvedNode>) -> Seq<ResolvedNode>
    decreases nodes.len(),
{
    if nodes.len() == 0 {
        Seq::empty()
    } else {
        let m = min_id_index(nodes);
        proof {
            lemma_min_id_index(nodes);
        }
        seq![nodes[m]] + by_id(nodes.remove(m))
    }
}

pub proof fn lemma_min_id_index(nodes: Seq<ResolvedNode>)
    ensures
        nodes.len() > 0 ==> 0 <= min_id_index(nodes) < nodes.len(),
        forall|k: int| 0 <= k < nodes.len() ==> nodes[min_id_index(nodes)].id.0 <= #[trigger] nodes[k].id.0,
    decreases nodes.len(),
{
    if nodes.len() > 1 {
        lemma_min_id_index(nodes.drop_last());
        assert forall|k: int| 0 <= k < nodes.len() - 1 implies nodes[k] == nodes.drop_last()[k] by {}
    }
}

/// The first node, in `sorted` order, with no checksum: its key.
pub open spec fn first_missing(sorted: Seq<ResolvedNode>, checksums: Seq<(Seq<char>, Seq<char>)>) -> Option<Seq<char>>
    decreases sorted.len(),
{
    if sorted.len() == 0 {
        None
    } else if table_get(checksums, package_key(sorted[0].coordinate@, sorted[0].selected@)) is None {
        Some(package_key(sorted[0].coordinate@, sorted[0].selected@))
    } else {
        first_missing(sorted.drop_first(), checksums)
    }
}

/// `p` is the locked package of `node`.
pub open spec fn package_of(
    p: LockedPackage,
    node: ResolvedNode,
    graph: DependencyGraph,
    checksums: Seq<(Seq<char>, Seq<char>)>,
    resolved_from: Seq<char>,
) -> bool {
    let keys = child_keys(graph.nodes@, graph.edges@, node.id.0);
    &&& p.name@ == node.coordinate@
    &&& p.version@ == node.selected@
    &&& table_get(checksums, package_key(node.coordinate@, node.selected@)) == Some(p.sha256@)
    &&& p.resolved_from@ == resolved_from
    // the distinct child keys, sorted
    &&& strictly_sorted(strings_view(p.dependencies@))
    &&& strings_view(p.dependencies@).to_set() == keys.to_set()
}

pub open spec fn locked_request_view(r: LockedRequest) -> (Seq<char>, Seq<char>, Seq<char>, u32) {
    (r.module@, r.name@, r.version@, r.depth)
}

/// `(module, coordinate, version, depth)` of each of `reqs`, the requests of `coordinate`.
pub open spec fn request_rows(coordinate: Seq<char>, reqs: Seq<VersionRequest>) -> Seq<(Seq<char>, Seq<char>, Seq<char>, u32)>
    decreases reqs.len(),
{
    if reqs.len() == 0 {
        Seq::empty()
    } else {
        let r = reqs.last();
        request_rows(coordinate, reqs.drop_last()).push((r.origin_module@, coordinate, r.version@, r.depth))
    }
}

/// `(module, name, version, depth)` of every request of the nodes, node by node.
pub open spec fn flat_requests(sorted: Seq<ResolvedNode>) -> Seq<(Seq<char>, Seq<char>, Seq<char>, u32)>
    decreases sorted.len(),
{
    if sorted.len() == 0 {
        Seq::empty()
    } else {
        flat_requests(sorted.drop_last()) + request_rows(sorted.last().coordinate@, sorted.last().requests@)
    }
}

pub open spec fn requests_view(s: Seq<LockedRequest>) -> Seq<(Seq<char>, Seq<char>, Seq<char>, u32)> {
    s.map_values(|r: LockedRequest| locked_request_view(r))
}

pub proof fn lemma_by_id_len(nodes: Seq<ResolvedNode>)
    ensures
        by_id(nodes).len() == nodes.len(),
    decreases nodes.len(),
{
    if nodes.len() > 0 {
        lemma_min_id_index(nodes);
        lemma_by_id_len(nodes.remove(min_id_index(nodes)));
    }
}

} // verus!

verus! {

pub open spec fn strings_view(s: Seq<String>) -> Seq<Seq<char>> {
    s.map_values(|x: String| x@)
}

/// Inserts `s` into the strictly sorted `v`, unless it is already there.
pub fn insert_sorted(v: &mut Vec<String>, s: String)
    requires
        strictly_sorted(strings_view(old(v)@)),
    ensures
        strictly_sorted(strings_view(final(v)@)),
        strings_view(final(v)@).to_set() == strings_view(old(v)@).to_set().insert(s@),
{
    let ghost old_v = strings_view(v@);
    let mut p: usize = 0;
    while p < v.len() && str_lt(v[p].as_str(), s.as_str())
        invariant
            v@ == old(v)@,
            old_v == strings_view(v@),
            p <= v@.len(),
            forall|q: int| 0 <= q < p ==> seq_lt(#[trigger] old_v[q], s@),
        decreases v@.len() - p,
    {
        p = p + 1;
    }
    if p < v.len() && str_eq(v[p].as_str(), s.as_str()) {
        proof {
            assert(old_v[p as int] == s@);
            assert(old_v.to_set().insert(s@) =~= old_v.to_set());
        }
        return;
    }
    proof {
        if p < old_v.len() {
            lemma_seq_lt_total(old_v[p as int], s@);
        }
    }
    v.insert(p, s);
    proof {
        let nv = strings_view(v@);
        assert(nv =~= old_v.take(p as int).push(s@) + old_v.skip(p as int));
        assert forall|i: int, j: int| 0 <= i < j < nv.len() implies seq_lt(#[trigger] nv[i], #[trigger] nv[j]) by {
            if j < p {
                assert(nv[i] == old_v[i] && nv[j] == old_v[j]);
            } else if j == p {
                assert(nv[j] == s@ && nv[i] == old_v[i]);
            } else if i == p {
                assert(nv[i] == s@ && nv[j] == old_v[j - 1]);
                if j - 1 > p {
                    assert(seq_lt(old_v[p as int], old_v[j - 1]));
                    lemma_seq_lt_transitive(s@, old_v[p as int], old_v[j - 1]);
                }
            } else if i < p {
                assert(nv[i] == old_v[i] && nv[j] == old_v[j - 1]);
                if j - 1 >= p {
                    assert(seq_lt(old_v[i], s@));
                    lemma_seq_lt_transitive(old_v[i], s@, old_v[p as int]);
                    if j - 1 > p {
                        lemma_seq_lt_transitive(old_v[i], old_v[p as int], old_v[j - 1]);
                    }
                }
            } else {
                assert(nv[i] == old_v[i - 1] && nv[j] == old_v[j - 1]);
            }
        }
        assert forall|x: Seq<char>| #[trigger] nv.to_set().contains(x) <==> old_v.to_set().insert(s@).contains(x) by {
            if nv.to_set().contains(x) {
                assert(nv.contains(x));
                let k = choose|k: int| 0 <= k < nv.len() && nv[k] == x;
                if k < p {
                    assert(old_v[k] == x);
                } else if k > p {
                    assert(old_v[k - 1] == x);
                }
            }
            if old_v.to_set().contains(x) && x != s@ {
                assert(old_v.contains(x));
                let k = choose|k: int| 0 <= k < old_v.len() && old_v[k] == x;
                if k < p {
                    assert(nv[k] == x);
                } else {
                    assert(nv[k + 1] == x);
                }
            }
            if x == s@ {
                assert(nv[p as int] == x);
            }
        }
        assert(nv.to_set() =~= old_v.to_set().insert(s@));
    }
}

pub fn find_node(nodes: &Vec<ResolvedNode>, id: u64) -> (res: Option<usize>)
    ensures
        match res {
            Some(i) => i < nodes@.len() && node_with_id(nodes@, id) == Some(nodes@[i as int]),
            None => node_with_id(nodes@, id) is None,
        },
{
    let mut i: usize = 0;
    proof {
        assert(nodes@.skip(0) =~= nodes@);
    }
    while i < nodes.len()
        invariant
            i <= nodes@.len(),
            node_with_id(nodes@, id) == node_with_id(nodes@.skip(i as int), id),
        decreases nodes@.len() - i,
    {
        proof {
            assert(nodes@.skip(i as int)[0] == nodes@[i as int]);
            assert(nodes@.skip(i as int).drop_first() =~= nodes@.skip(i + 1));
        }
        if nodes[i].id.0 == id {
            return Some(i);
        }
        i = i + 1;
    }
    None
}

/// The distinct keys of the children of `id`, sorted.
fn sorted_child_keys(graph: &DependencyGraph, id: u64) -> (res: Vec<String>)
    ensures
        strictly_sorted(strings_view(res@)),
        strings_view(res@).to_set() == child_keys(graph.nodes@, graph.edges@, id).to_set(),
{
    let mut keys: Vec<String> = Vec::new();
    let mut e: usize = 0;
    proof {
        assert(strings_view(keys@).to_set() =~= Set::<Seq<char>>::empty());
        assert(graph.edges@.take(0) =~= Seq::<GraphEdge>::empty());
        assert(child_keys(graph.nodes@, Seq::<GraphEdge>::empty(), id).to_set() =~= Set::<Seq<char>>::empty());
    }
    while e < graph.edges.len()
        invariant
            e <= graph.edges@.len(),
            strictly_sorted(strings_view(keys@)),
            strings_view(keys@).to_set() == child_keys(graph.nodes@, graph.edges@.take(e as int), id).to_set(),
        decreases graph.edges@.len() - e,
    {
        let edge = graph.edges[e];
        proof {
            assert(graph.edges@.take(e + 1).drop_last() =~= graph.edges@.take(e as int));
            assert(graph.edges@.take(e + 1).last() == edge);
        }
        if edge.from.0 == id {
            match find_node(&graph.nodes, edge.to.0) {
                Some(i) => {
                    let key = join3(graph.nodes[i].coordinate.as_str(), "@", graph.nodes[i].selected.as_str());
                    let ghost before = child_keys(graph.nodes@, graph.edges@.take(e as int), id);
                    insert_sorted(&mut keys, key);
                    proof {
                        before.lemma_push_to_set_commute(key@);
                    }
                },
                None => {},
            }
        }
        e = e + 1;
    }
    proof {
        assert(graph.edges@.take(e as int) =~= graph.edges@);
    }
    keys
}

pub open spec fn picked(nodes: Seq<ResolvedNode>, idx: Seq<usize>) -> Seq<ResolvedNode> {
    idx.map_values(|i: usize| nodes[i as int])
}

/// Indices of the nodes in increasing id order (`by_id`).
fn order_by_id(nodes: &Vec<ResolvedNode>) -> (order: Vec<usize>)
    ensures
        picked(nodes@, order@) == by_id(nodes@),
        forall|k: int| 0 <= k < order@.len() ==> #[trigger] order@[k] < nodes@.len(),
{
    let n = nodes.len();
    let mut remaining: Vec<usize> = Vec::new();
    let mut i: usize = 0;
    while i < n
        invariant
            n == nodes@.len(),
            i <= n,
            remaining@.len() == i,
            forall|k: int| 0 <= k < i ==> #[trigger] remaining@[k] == k,
        decreases n - i,
    {
        remaining.push(i);
        i = i + 1;
    }
    proof {
        assert(picked(nodes@, remaining@) =~= nodes@);
        assert(picked(nodes@, Seq::<usize>::empty()) + by_id(nodes@) =~= by_id(nodes@));
    }
    let mut order: Vec<usize> = Vec::new();
    while remaining.len() > 0
        invariant
            n == nodes@.len(),
            forall|k: int| 0 <= k < remaining@.len() ==> #[trigger] remaining@[k] < n,
            forall|k: int| 0 <= k < order@.len() ==> #[trigger] order@[k] < n,
            by_id(nodes@) == picked(nodes@, order@) + by_id(picked(nodes@, remaining@)),
        decreases remaining@.len(),
    {
        let ghost rv = picked(nodes@, remaining@);
        let mut best: usize = 0;
        let mut k: usize = 1;
        proof {
            assert(rv.take(1).len() == 1);
        }
        while k < remaining.len()
            invariant
                n == nodes@.len(),
                rv == picked(nodes@, remaining@),
                forall|q: int| 0 <= q < remaining@.len() ==> #[trigger] remaining@[q] < n,
                1 <= k <= remaining@.len(),
                best < k,
                best as int == min_id_index(rv.take(k as int)),
            decreases remaining@.len() - k,
        {
            proof {
                assert(rv.take(k + 1).drop_last() =~= rv.take(k as int));
                assert(rv.take(k + 1).last() == rv[k as int]);
                assert(rv.take(k + 1)[best as int] == rv[best as int]);
            }
            if nodes[remaining[k]].id.0 < nodes[remaining[best]].id.0 {
                best = k;
            }
            k = k + 1;
        }
        proof {
            assert(rv.take(k as int) =~= rv);
        }
        let chosen = remaining.remove(best);
        let ghost before = order@;
        order.push(chosen);
        proof {
            assert(picked(nodes@, remaining@) =~= rv.remove(best as int));
            assert(picked(nodes@, order@) =~= picked(nodes@, before).push(rv[best as int]));
            assert(by_id(rv) == seq![rv[best as int]] + by_id(rv.remove(best as int)));
            assert(picked(nodes@, before) + by_id(rv) =~= picked(nodes@, order@) + by_id(rv.remove(best as int)));
        }
    }
    proof {
        assert(picked(nodes@, remaining@) =~= Seq::<ResolvedNode>::empty());
        assert(picked(nodes@, order@) + Seq::<ResolvedNode>::empty() =~= picked(nodes@, order@));
    }
    order
}

/// `lf` is the lockfile of `graph`: format version 1, the given manifest hash and
/// Java version, one package per node in increasing id order, then every version
/// request of the nodes, node by node.
pub open spec fn lockfile_of(
    lf: Lockfile,
    graph: DependencyGraph,
    manifest_hash: Seq<char>,
    checksums: Seq<(Seq<char>, Seq<char>)>,
    resolved_from: Seq<char>,
    java_version: Seq<char>,
) -> bool {
    &&& lf.version == 1
    &&& lf.manifest_hash@ == manifest_hash
    &&& lf.java_version@ == java_version
    &&& lf.packages@.len() == graph.nodes@.len()
    &&& forall|k: int|
        0 <= k < lf.packages@.len() ==> package_of(
            #[trigger] lf.packages@[k],
            by_id(graph.nodes@)[k],
            graph,
            checksums,
            resolved_from,
        )
    &&& requests_view(lf.requests@) == flat_requests(by_id(graph.nodes@))
}

/// The `project.lock` of a mediated graph: one package per node in increasing id
/// order, with its checksum from `checksums` (keyed `coordinate@version`), the given
/// repository and the sorted distinct keys of its children; then every version
/// request of the nodes, node by node. Fails on the first node, in that order,
/// whose checksum is missing.
pub fn build_lockfile(
    graph: &DependencyGraph,
    manifest_hash: String,
    checksums: &Vec<(String, String)>,
    resolved_from: &str,
    java_version: &str,
) -> (res: Result<Lockfile, LockfileError>)
    ensures
        match res {
            Ok(lf) => {
                &&& first_missing(by_id(graph.nodes@), pairs_view(checksums@)) is None
                &&& lockfile_of(lf, *graph, manifest_hash@, pairs_view(checksums@), resolved_from@, java_version@)
            },
            Err(LockfileError::MissingChecksum(key)) => first_missing(by_id(graph.nodes@), pairs_view(checksums@))
                == Some(key@),
        },
{
    let order = order_by_id(&graph.nodes);
    let ghost sorted = by_id(graph.nodes@);
    let ghost table = pairs_view(checksums@);
    proof {
        lemma_by_id_len(graph.nodes@);
        assert(sorted.skip(0) =~= sorted);
        assert(sorted.take(0) =~= Seq::<ResolvedNode>::empty());
        assert(requests_view(Seq::<LockedRequest>::empty()) =~= Seq::<(Seq<char>, Seq<char>, Seq<char>, u32)>::empty());
    }
    let mut packages: Vec<LockedPackage> = Vec::new();
    let mut requests: Vec<LockedRequest> = Vec::new();
    let mut k: usize = 0;
    while k < order.len()
        invariant
            sorted == by_id(graph.nodes@),
            table == pairs_view(checksums@),
            sorted == picked(graph.nodes@, order@),
            sorted.len() == graph.nodes@.len(),
            forall|q: int| 0 <= q < order@.len() ==> #[trigger] order@[q] < graph.nodes@.len(),
            k <= order@.len(),
            packages@.len() == k,
            forall|j: int|
                0 <= j < k ==> package_of(#[trigger] packages@[j], sorted[j], *graph, table, resolved_from@),
            first_missing(sorted, table) == first_missing(sorted.skip(k as int), table),
            requests_view(requests@) == flat_requests(sorted.take(k as int)),
        decreases order@.len() - k,
    {
        let node = &graph.nodes[order[k]];
        proof {
            assert(sorted[k as int] == *node);
            assert(sorted.skip(k as int)[0] == *node);
            assert(sorted.skip(k as int).drop_first() =~= sorted.skip(k + 1));
        }
        let key = join3(node.coordinate.as_str(), "@", node.selected.as_str());
        let sha256 = match lookup_value(checksums, key.as_str()) {
            Some(v) => v,
            None => {
                return Err(LockfileError::MissingChecksum(key));
            },
        };
        let dependencies = sorted_child_keys(graph, node.id.0);
        let package = LockedPackage {
            name: node.coordinate.clone(),
            version: node.selected.clone(),
            sha256,
            resolved_from: String::from_str(resolved_from),
            dependencies,
        };
        packages.push(package);
        let ghost before = requests_view(requests@);
        let mut r: usize = 0;
        proof {
            assert(node.requests@.take(0) =~= Seq::<VersionRequest>::empty());
            assert(before + request_rows(node.coordinate@, Seq::<VersionRequest>::empty()) =~= before);
        }
        while r < node.requests.len()
            invariant
                r <= node.requests@.len(),
                requests_view(requests@) == before + request_rows(node.coordinate@, node.requests@.take(r as int)),
            decreases node.requests@.len() - r,
        {
            let req = &node.requests[r];
            let row = LockedRequest {
                module: req.origin_module.clone(),
                name: node.coordinate.clone(),
                version: req.version.clone(),
                depth: req.depth,
            };
            let ghost prev = requests@;
            requests.push(row);
            proof {
                assert(node.requests@.take(r + 1).drop_last() =~= node.requests@.take(r as int));
                assert(node.requests@.take(r + 1).last() == *req);
                assert(requests_view(requests@) =~= requests_view(prev).push(locked_request_view(row)));
                assert(before + request_rows(node.coordinate@, node.requests@.take(r + 1)) =~= (before
                    + request_rows(node.coordinate@, node.requests@.take(r as int))).push(locked_request_view(row)));
            }
            r = r + 1;
        }
        proof {
            assert(node.requests@.take(r as int) =~= node.requests@);
            assert(sorted.take(k + 1).drop_last() =~= sorted.take(k as int));
            assert(sorted.take(k + 1).last() == *node);
        }
        k = k + 1;
    }
    proof {
        assert(sorted.skip(k as int).len() == 0);
        assert(sorted.take(k as int) =~= sorted);
    }
    Ok(Lockfile {
        version: 1,
        manifest_hash,
        java_version: String::from_str(java_version),
        packages,
        requests,
    })
}

/// The UTF-8 bytes of the manifests, one after the other.
pub open spec fn manifest_bytes(manifests: Seq<Seq<char>>) -> Seq<u8>
    decreases manifests.len(),
{
    if manifests.len() == 0 {
        Seq::empty()
    } else {
        manifest_bytes(manifests.drop_last()) + encode_utf8(manifests.last())
    }
}

/// `sha256:` and the lowercase hex SHA-256 of the manifests' bytes.
pub open spec fn manifest_hash_of(manifests: Seq<Seq<char>>) -> Seq<char> {
    "sha256:"@ + hex(sha256_digest(manifest_bytes(manifests)))
}

/// The hash of all the `project.toml` of a workspace, `sha256:<hex>`, which decides
/// whether an existing `project.lock` is still valid. The manifests must come in a
/// fixed order (such as by path): SHA-256 runs over their bytes in that order.
pub fn compute_manifest_hash(manifests: &Vec<String>) -> (res: String)
    ensures
        res@ == manifest_hash_of(strings_view(manifests@)),
{
    let ghost ms = strings_view(manifests@);
    let mut bytes: Vec<u8> = Vec::new();
    let mut i: usize = 0;
    proof {
        assert(ms.take(0) =~= Seq::<Seq<char>>::empty());
    }
    while i < manifests.len()
        invariant
            ms == strings_view(manifests@),
            i <= manifests@.len(),
            bytes@ == manifest_bytes(ms.take(i as int)),
        decreases manifests@.len() - i,
    {
        let chunk = manifests[i].as_str().as_bytes();
        let ghost before = bytes@;
        let mut k: usize = 0;
        while k < chunk.len()
            invariant
                k <= chunk@.len(),
                bytes@ == before + chunk@.take(k as int),
            decreases chunk@.len() - k,
        {
            bytes.push(chunk[k]);
            proof {
                assert(bytes@ =~= before + chunk@.take(k + 1));
            }
            k = k + 1;
        }
        proof {
            assert(chunk@.take(k as int) =~= chunk@);
            assert(ms.take(i + 1).drop_last() =~= ms.take(i as int));
            assert(ms.take(i + 1).last() == manifests@[i as int]@);
        }
        i = i + 1;
    }
    proof {
        assert(ms.take(i as int) =~= ms);
    }
    let digest = hash_bytes(bytes.as_slice());
    let mut out = String::from_str("sha256:");
    out.append(digest.as_str());
    out
}

/// A lockfile just built from the manifests' hash is valid for those manifests: the
/// next install reuses it as long as no manifest changes.
pub proof fn law_fresh_lockfile_is_valid(
    lf: Lockfile,
    graph: DependencyGraph,
    manifests: Seq<Seq<char>>,
    checksums: Seq<(Seq<char>, Seq<char>)>,
    resolved_from: Seq<char>,
    java_version: Seq<char>,
)
    requires
        lockfile_of(lf, graph, manifest_hash_of(manifests), checksums, resolved_from, java_version),
    ensures
        lock_matches(lf, manifest_hash_of(manifests)),
{
}

proof fn lemma_by_id_perm(nodes: Seq<ResolvedNode>)
    ensures
        by_id(nodes).to_multiset() == nodes.to_multiset(),
        forall|i: int, j: int| 0 <= i < j < by_id(nodes).len() ==> (#[trigger] by_id(nodes)[i]).id.0 <= (
        #[trigger] by_id(nodes)[j]).id.0,
    decreases nodes.len(),
{
    broadcast use vstd::seq_lib::group_to_multiset_ensures;
    broadcast use vstd::multiset::group_multiset_axioms;
    broadcast use vstd::seq_lib::lemma_multiset_commutative;

    if nodes.len() > 0 {
        lemma_min_id_index(nodes);
        let m = min_id_index(nodes);
        let rest = nodes.remove(m);
        lemma_by_id_perm(rest);
        let b = by_id(nodes);
        assert(b == seq![nodes[m]] + by_id(rest));
        assert(seq![nodes[m]].to_multiset() =~= vstd::multiset::Multiset::<ResolvedNode>::empty().insert(nodes[m])) by {
            assert(seq![nodes[m]] =~= Seq::<ResolvedNode>::empty().push(nodes[m]));
        }
        assert(b.to_multiset() =~= nodes.to_multiset());
        assert forall|i: int, j: int| 0 <= i < j < b.len() implies (#[trigger] b[i]).id.0 <= (#[trigger] b[j]).id.0 by {
            if i == 0 {
                assert(b[j] == by_id(rest)[j - 1]);
                assert(by_id(rest).to_multiset().count(by_id(rest)[j - 1]) > 0);
                assert(rest.contains(by_id(rest)[j - 1]));
                let k = choose|k: int| 0 <= k < rest.len() && rest[k] == by_id(rest)[j - 1];
                if k < m {
                    assert(rest[k] == nodes[k]);
                } else {
                    assert(rest[k] == nodes[k + 1]);
                }
            } else {
                assert(b[i] == by_id(rest)[i - 1] && b[j] == by_id(rest)[j - 1]);
            }
        }
    }
}

proof fn lemma_first_missing(sorted: Seq<ResolvedNode>, checksums: Seq<(Seq<char>, Seq<char>)>)
    ensures
        first_missing(sorted, checksums) is None <==> forall|i: int|
            0 <= i < sorted.len() ==> table_get(checksums, package_key((#[trigger] sorted[i]).coordinate@, sorted[i].selected@)) is Some,
    decreases sorted.len(),
{
    if sorted.len() > 0 {
        lemma_first_missing(sorted.drop_first(), checksums);
        if first_missing(sorted, checksums) is None {
            assert forall|i: int| 0 <= i < sorted.len() implies table_get(
                checksums,
                package_key((#[trigger] sorted[i]).coordinate@, sorted[i].selected@),
            ) is Some by {
                if i > 0 {
                    assert(sorted[i] == sorted.drop_first()[i - 1]);
                }
            }
        } else {
            if table_get(checksums, package_key(sorted[0].coordinate@, sorted[0].selected@)) is Some {
                let i = choose|i: int|
                    0 <= i < sorted.drop_first().len() && table_get(
                        checksums,
                        package_key((#[trigger] sorted.drop_first()[i]).coordinate@, sorted.drop_first()[i].selected@),
                    ) is None;
                assert(sorted[i + 1] == sorted.drop_first()[i]);
            }
        }
    }
}

/// `build_lockfile` succeeds exactly when every node of the graph has a checksum
/// (under its `coordinate@version` key), and it lists the packages of all the nodes,
/// each once, in increasing id order.
pub proof fn law_lockfile_lists_every_node_by_id(graph: DependencyGraph, checksums: Seq<(Seq<char>, Seq<char>)>)
    ensures
        first_missing(by_id(graph.nodes@), checksums) is None <==> forall|n: ResolvedNode|
            #[trigger] graph.nodes@.contains(n) ==> table_get(checksums, package_key(n.coordinate@, n.selected@)) is Some,
        by_id(graph.nodes@).to_multiset() == graph.nodes@.to_multiset(),
        forall|i: int, j: int|
            0 <= i < j < by_id(graph.nodes@).len() ==> (#[trigger] by_id(graph.nodes@)[i]).id.0 <= (
            #[trigger] by_id(graph.nodes@)[j]).id.0,
{
    broadcast use vstd::seq_lib::group_to_multiset_ensures;

    let nodes = graph.nodes@;
    let b = by_id(nodes);
    lemma_by_id_perm(nodes);
    lemma_first_missing(b, checksums);
    assert((forall|i: int|
        0 <= i < b.len() ==> table_get(checksums, package_key((#[trigger] b[i]).coordinate@, b[i].selected@)) is Some)
        <==> (forall|n: ResolvedNode|
        #[trigger] nodes.contains(n) ==> table_get(checksums, package_key(n.coordinate@, n.selected@)) is Some)) by {
        assert forall|n: ResolvedNode| nodes.contains(n) <==> b.contains(n) by {
            assert(nodes.contains(n) <==> nodes.to_multiset().count(n) > 0);
            assert(b.contains(n) <==> b.to_multiset().count(n) > 0);
        }
        if forall|i: int|
            0 <= i < b.len() ==> table_get(checksums, package_key((#[trigger] b[i]).coordinate@, b[i].selected@)) is Some {
            assert forall|n: ResolvedNode| #[trigger] nodes.contains(n) implies table_get(
                checksums,
                package_key(n.coordinate@, n.selected@),
            ) is Some by {
                assert(b.contains(n));
                let i = choose|i: int| 0 <= i < b.len() && b[i] == n;
            }
        }
        if forall|n: ResolvedNode|
            #[trigger] nodes.contains(n) ==> table_get(checksums, package_key(n.coordinate@, n.selected@)) is Some {
            assert forall|i: int| 0 <= i < b.len() implies table_get(
                checksums,
                package_key((#[trigger] b[i]).coordinate@, b[i].selected@),
            ) is Some by {
                assert(b.contains(b[i]));
                assert(nodes.contains(b[i]));
            }
        }
    }
}

} // verus!
