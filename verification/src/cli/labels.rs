//! How nodes of a resolved graph are named in reports.
use crate::domain::{NodeId, ResolvedNode};
use crate::lockfile::{find_node, node_with_id};
use crate::text::str_eq;
use vstd::prelude::*;

verus! {

/// `coordinate:version` of a resolved node.
pub open spec fn node_label(n: ResolvedNode) -> Seq<char> {
    n.coordinate@ + seq![':'] + n.selected@
}

/// Name of the first module whose root node is `id`.
pub open spec fn root_name_of(roots: Seq<(String, NodeId)>, id: u64) -> Option<Seq<char>>
    decreases roots.len(),
{
    if roots.len() == 0 {
        None
    } else if roots[0].1.0 == id {
        Some(roots[0].0@)
    } else {
        root_name_of(roots.drop_first(), id)
    }
}

/// Root node of the first module named `name`.
pub open spec fn root_of(roots: Seq<(String, NodeId)>, name: Seq<char>) -> Option<u64>
    decreases roots.len(),
{
    if roots.len() == 0 {
        None
    } else if roots[0].0@ == name {
        Some(roots[0].1.0)
    } else {
        root_of(roots.drop_first(), name)
    }
}

/// The label of node `id`: a resolved artifact, or another module of the workspace.
pub open spec fn label_of(nodes: Seq<ResolvedNode>, roots: Seq<(String, NodeId)>, id: u64) -> Option<Seq<char>> {
    match node_with_id(nodes, id) {
        Some(n) => Some(node_label(n)),
        None => match root_name_of(roots, id) {
            Some(name) => Some(name + " (workspace module)"@),
            None => None,
        },
    }
}

/// The label of node `id`, if it has one.
pub fn label_for(nodes: &Vec<ResolvedNode>, roots: &Vec<(String, NodeId)>, id: u64) -> (res: Option<String>)
    ensures
        label_of(nodes@, roots@, id) == match res {
            Some(s) => Some(s@),
            None => None::<Seq<char>>,
        },
{
    match find_node(nodes, id) {
        Some(i) => {
            let mut s = String::from_str(nodes[i].coordinate.as_str());
            s.append(":");
            s.append(nodes[i].selected.as_str());
            proof {
                reveal_strlit(":");
                assert(s@ =~= node_label(nodes@[i as int]));
            }
            Some(s)
        },
        None => match find_root_name(roots, id) {
            Some(j) => {
                let mut s = String::from_str(roots[j].0.as_str());
                s.append(" (workspace module)");
                Some(s)
            },
            None => None,
        },
    }
}

/// Index of the first module whose root node is `id`.
pub fn find_root_name(roots: &Vec<(String, NodeId)>, id: u64) -> (res: Option<usize>)
    ensures
        match res {
            Some(j) => j < roots@.len() && root_name_of(roots@, id) == Some(roots@[j as int].0@),
            None => root_name_of(roots@, id) is None,
        },
{
    let mut j: usize = 0;
    proof {
        assert(roots@.skip(0) =~= roots@);
    }
    while j < roots.len()
        invariant
            j <= roots@.len(),
            root_name_of(roots@, id) == root_name_of(roots@.skip(j as int), id),
        decreases roots@.len() - j,
    {
        proof {
            assert(roots@.skip(j as int)[0] == roots@[j as int]);
            assert(roots@.skip(j as int).drop_first() =~= roots@.skip(j + 1));
        }
        if roots[j].1.0 == id {
            return Some(j);
        }
        j = j + 1;
    }
    None
}

/// Root node of the first module named `name`.
pub fn find_root(roots: &Vec<(String, NodeId)>, name: &str) -> (res: Option<u64>)
    ensures
        root_of(roots@, name@) == res,
{
    let mut j: usize = 0;
    proof {
        assert(roots@.skip(0) =~= roots@);
    }
    while j < roots.len()
        invariant
            j <= roots@.len(),
            root_of(roots@, name@) == root_of(roots@.skip(j as int), name@),
        decreases roots@.len() - j,
    {
        proof {
            assert(roots@.skip(j as int)[0] == roots@[j as int]);
            assert(roots@.skip(j as int).drop_first() =~= roots@.skip(j + 1));
        }
        if str_eq(roots[j].0.as_str(), name) {
            return Some(roots[j].1.0);
        }
        j = j + 1;
    }
    None
}

} // verus!
