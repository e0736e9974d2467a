//! `jvmfast tree`: the resolved dependency tree of each module.
use crate::cli::labels::{find_root, label_for, label_of, root_of};
use crate::domain::{DependencyGraph, GraphEdge, Module, NodeId, ResolvedNode};
use crate::walk::{lemma_unvisited_push, unvisited};
use vstd::prelude::*;

verus! {

/// No edge after the `k`-th leaves `from`.
pub open spec fn last_edge_from(edges: Seq<GraphEdge>, from: u64, k: int) -> bool {
    forall|k2: int| k < k2 < edges.len() ==> (#[trigger] edges[k2]).from.0 != from
}

/// The lines, under `prefix`, of the children of `from` reached through the edges
/// from the `k`-th on; `path` holds the nodes from the module root down to `from`.
/// A child already on the path is marked as a cycle and not expanded.
pub open spec fn subtree(
    edges: Seq<GraphEdge>,
    nodes: Seq<ResolvedNode>,
    roots: Seq<(String, NodeId)>,
    from: u64,
    k: nat,
    prefix: Seq<char>,
    path: Seq<u64>,
) -> Seq<char>
    decreases unvisited(edges, path), edges.len() - k,
{
    if k >= edges.len() {
        Seq::empty()
    } else if edges[k as int].from.0 != from {
        subtree(edges, nodes, roots, from, k + 1, prefix, path)
    } else {
        let child = edges[k as int].to.0;
        match label_of(nodes, roots, child) {
            None => subtree(edges, nodes, roots, from, k + 1, prefix, path),
            Some(label) => {
                let is_last = last_edge_from(edges, from, k as int);
                let line = prefix + (if is_last {
                    "└── "@
                } else {
                    "├── "@
                }) + label;
                if path.contains(child) {
                    line + " (cycle)\n"@ + subtree(edges, nodes, roots, from, k + 1, prefix, path)
                } else {
                    proof {
                        lemma_unvisited_push(edges, path, child);
                    }
                    line + "\n"@ + subtree(
                        edges,
                        nodes,
                        roots,
                        child,
                        0,
                        prefix + (if is_last {
                            "    "@
                        } else {
                            "│   "@
                        }),
                        path.push(child),
                    ) + subtree(edges, nodes, roots, from, k + 1, prefix, path)
                }
            },
        }
    }
}

/// The tree of one module: its name, then its dependencies below its root node.
pub open spec fn module_tree(g: DependencyGraph, roots: Seq<(String, NodeId)>, m: Module) -> Seq<char> {
    m.name@ + "\n"@ + match root_of(roots, m.name@) {
        Some(r) => subtree(g.edges@, g.nodes@, roots, r, 0, Seq::empty(), seq![r]),
        None => Seq::empty(),
    }
}

/// The trees of the modules, in order.
pub open spec fn tree_text(g: DependencyGraph, roots: Seq<(String, NodeId)>, ms: Seq<Module>) -> Seq<char>
    decreases ms.len(),
{
    if ms.len() == 0 {
        Seq::empty()
    } else {
        tree_text(g, roots, ms.drop_last()) + module_tree(g, roots, ms.last())
    }
}

fn is_last_edge_from(edges: &Vec<GraphEdge>, from: u64, k: usize) -> (res: bool)
    requires
        k < edges@.len(),
    ensures
        res == last_edge_from(edges@, from, k as int),
{
    let n = edges.len();
    let mut j: usize = k + 1;
    while j < edges.len()
        invariant
            k < j <= edges@.len(),
            forall|k2: int| k < k2 < j ==> (#[trigger] edges@[k2]).from.0 != from,
        decreases edges@.len() - j,
    {
        if edges[j].from.0 == from {
            return false;
        }
        j = j + 1;
    }
    true
}

fn path_contains(path: &Vec<u64>, id: u64) -> (res: bool)
    ensures
        res == path@.contains(id),
{
    let mut j: usize = 0;
    while j < path.len()
        invariant
            j <= path@.len(),
            forall|q: int| 0 <= q < j ==> path@[q] != id,
        decreases path@.len() - j,
    {
        if path[j] == id {
            proof {
                assert(path@[j as int] == id);
            }
            return true;
        }
        j = j + 1;
    }
    false
}

fn write_children(
    output: &mut String,
    graph: &DependencyGraph,
    from: u64,
    prefix: &str,
    path: &mut Vec<u64>,
    roots: &Vec<(String, NodeId)>,
)
    ensures
        final(output)@ == old(output)@ + subtree(graph.edges@, graph.nodes@, roots@, from, 0, prefix@, old(path)@),
        final(path)@ == old(path)@,
    decreases unvisited(graph.edges@, old(path)@),
{
    let ghost start = output@;
    let ghost p0 = path@;
    let mut k: usize = 0;
    while k < graph.edges.len()
        invariant
            path@ == p0,
            p0 == old(path)@,
            k <= graph.edges@.len(),
            start + subtree(graph.edges@, graph.nodes@, roots@, from, 0, prefix@, p0) == output@ + subtree(
                graph.edges@,
                graph.nodes@,
                roots@,
                from,
                k as nat,
                prefix@,
                p0,
            ),
        decreases graph.edges@.len() - k,
    {
        let edge = graph.edges[k];
        if edge.from.0 == from {
            let child = edge.to.0;
            match label_for(&graph.nodes, roots, child) {
                None => {},
                Some(label) => {
                    let is_last = is_last_edge_from(&graph.edges, from, k);
                    let ghost before = output@;
                    output.append(prefix);
                    if is_last {
                        output.append("└── ");
                    } else {
                        output.append("├── ");
                    }
                    output.append(label.as_str());
                    if path_contains(path, child) {
                        output.append(" (cycle)\n");
                    } else {
                        output.append("\n");
                        let mut next_prefix = String::from_str(prefix);
                        if is_last {
                            next_prefix.append("    ");
                        } else {
                            next_prefix.append("│   ");
                        }
                        path.push(child);
                        proof {
                            assert(graph.edges@[k as int].to.0 == child);
                            assert(!p0.contains(child));
                            lemma_unvisited_push(graph.edges@, p0, child);
                            assert(unvisited(graph.edges@, path@) < unvisited(graph.edges@, p0));
                        }
                        write_children(output, graph, child, next_prefix.as_str(), path, roots);
                        path.pop();
                        proof {
                            assert(path@ =~= p0);
                        }
                    }
                },
            }
        }
        k = k + 1;
    }
}

/// The dependency tree of every module, in the order of `modules`: the module's
/// name, then one line per dependency below its root node, drawn with `├──`/`└──`
/// and indented per level; a dependency that reappears on its own path is marked
/// `(cycle)` and not expanded, and an edge to another module is labelled
/// `<name> (workspace module)`.
pub fn format_tree(graph: &DependencyGraph, module_roots: &Vec<(String, NodeId)>, modules: &[Module]) -> (res: String)
    ensures
        res@ == tree_text(*graph, module_roots@, modules@),
{
    let mut output = String::new();
    let mut i: usize = 0;
    proof {
        assert(modules@.take(0) =~= Seq::<Module>::empty());
    }
    while i < modules.len()
        invariant
            i <= modules@.len(),
            output@ == tree_text(*graph, module_roots@, modules@.take(i as int)),
        decreases modules@.len() - i,
    {
        let module = &modules[i];
        let ghost before = output@;
        output.append(module.name.as_str());
        output.append("\n");
        match find_root(module_roots, module.name.as_str()) {
            Some(root) => {
                let mut path: Vec<u64> = Vec::new();
                path.push(root);
                proof {
                    assert(path@ =~= seq![root]);
                }
                write_children(&mut output, graph, root, "", &mut path, module_roots);
                proof {
                    reveal_strlit("");
                    assert(""@ =~= Seq::<char>::empty());
                }
            },
            None => {},
        }
        proof {
            assert(modules@.take(i + 1).drop_last() =~= modules@.take(i as int));
            assert(modules@.take(i + 1).last() == *module);
            assert(output@ =~= before + module_tree(*graph, module_roots@, *module));
        }
        i = i + 1;
    }
    proof {
        assert(modules@.take(i as int) =~= modules@);
    }
    output
}

} // verus!
