//! `jvmfast why`: where an artifact of the resolved graph comes from.
use crate::cli::error::CliError;
use crate::cli::labels::{find_root, label_for, label_of, root_of};
use crate::domain::{DependencyGraph, MediationReason, NodeId, ResolvedNode};
use crate::lockfile::{insert_sorted, strings_view};
use crate::text::{lemma_strictly_sorted_unique, str_eq, strictly_sorted};
use crate::walk::{law_shortest_path, shortest_path, shortest_path_spec};
use vstd::prelude::*;

verus! {

/// `items` separated by `sep`.
pub open spec fn joined(items: Seq<Seq<char>>, sep: Seq<char>) -> Seq<char>
    decreases items.len(),
{
    if items.len() == 0 {
        Seq::empty()
    } else if items.len() == 1 {
        items[0]
    } else {
        joined(items.drop_last(), sep) + sep + items.last()
    }
}

/// `items` separated by `sep`.
pub fn join_strings(items: &Vec<String>, sep: &str) -> (res: String)
    ensures
        res@ == joined(strings_view(items@), sep@),
{
    let mut out = String::new();
    let mut i: usize = 0;
    proof {
        assert(strings_view(items@).take(0) =~= Seq::<Seq<char>>::empty());
    }
    while i < items.len()
        invariant
            i <= items@.len(),
            out@ == joined(strings_view(items@).take(i as int), sep@),
        decreases items@.len() - i,
    {
        let ghost t = strings_view(items@).take(i + 1);
        proof {
            assert(t.drop_last() =~= strings_view(items@).take(i as int));
            assert(t.last() == items@[i as int]@);
        }
        if i > 0 {
            out.append(sep);
        }
        out.append(items[i].as_str());
        proof {
            if i == 0 {
                assert(out@ =~= t[0]);
            }
        }
        i = i + 1;
    }
    proof {
        assert(strings_view(items@).take(i as int) =~= strings_view(items@));
    }
    out
}

/// The explanation of a mediation decision.
pub open spec fn reason_text(reason: MediationReason) -> Seq<char> {
    match reason {
        MediationReason::SingleRequest => "only one version was requested"@,
        MediationReason::NearestDepthWins { rejected } => "nearest dependency wins over: "@ + joined(
            strings_view(rejected@),
            ", "@,
        ),
        MediationReason::HigherVersionWins { rejected } => "same dependency depth; higher version selected as tie-breaker over: "@
            + joined(strings_view(rejected@), ", "@),
        MediationReason::DeterministicTieBreak { rejected } => "same depth and version; deterministic tie-break over: "@
            + joined(strings_view(rejected@), ", "@),
    }
}

fn format_reason(reason: &MediationReason) -> (res: String)
    ensures
        res@ == reason_text(*reason),
{
    match reason {
        MediationReason::SingleRequest => String::from_str("only one version was requested"),
        MediationReason::NearestDepthWins { rejected } => {
            let mut s = String::from_str("nearest dependency wins over: ");
            let list = join_strings(rejected, ", ");
            s.append(list.as_str());
            s
        },
        MediationReason::HigherVersionWins { rejected } => {
            let mut s = String::from_str("same dependency depth; higher version selected as tie-breaker over: ");
            let list = join_strings(rejected, ", ");
            s.append(list.as_str());
            s
        },
        MediationReason::DeterministicTieBreak { rejected } => {
            let mut s = String::from_str("same depth and version; deterministic tie-break over: ");
            let list = join_strings(rejected, ", ");
            s.append(list.as_str());
            s
        },
    }
}

/// The first node of `nodes` for the artifact `coordinate`.
pub open spec fn node_with_coordinate(nodes: Seq<ResolvedNode>, coordinate: Seq<char>) -> Option<ResolvedNode>
    decreases nodes.len(),
{
    if nodes.len() == 0 {
        None
    } else if nodes[0].coordinate@ == coordinate {
        Some(nodes[0])
    } else {
        node_with_coordinate(nodes.drop_first(), coordinate)
    }
}

fn find_by_coordinate(nodes: &Vec<ResolvedNode>, coordinate: &str) -> (res: Option<usize>)
    ensures
        match res {
            Some(i) => i < nodes@.len() && node_with_coordinate(nodes@, coordinate@) == Some(nodes@[i as int]),
            None => node_with_coordinate(nodes@, coordinate@) is None,
        },
{
    let mut i: usize = 0;
    proof {
        assert(nodes@.skip(0) =~= nodes@);
    }
    while i < nodes.len()
        invariant
            i <= nodes@.len(),
            node_with_coordinate(nodes@, coordinate@) == node_with_coordinate(nodes@.skip(i as int), coordinate@),
        decreases nodes@.len() - i,
    {
        proof {
            assert(nodes@.skip(i as int)[0] == nodes@[i as int]);
            assert(nodes@.skip(i as int).drop_first() =~= nodes@.skip(i + 1));
        }
        if str_eq(nodes[i].coordinate.as_str(), coordinate) {
            return Some(i);
        }
        i = i + 1;
    }
    None
}

/// The module names of `roots`.
pub open spec fn root_names(roots: Seq<(String, NodeId)>) -> Seq<Seq<char>> {
    roots.map_values(|e: (String, NodeId)| e.0@)
}

/// The distinct module names, sorted.
pub open spec fn sorted_names(roots: Seq<(String, NodeId)>) -> Seq<Seq<char>> {
    choose|s: Seq<Seq<char>>| strictly_sorted(s) && s.to_set() == root_names(roots).to_set()
}

/// `s` repeated `n` times.
pub open spec fn repeat(s: Seq<char>, n: nat) -> Seq<char>
    decreases n,
{
    if n == 0 {
        Seq::empty()
    } else {
        repeat(s, (n - 1) as nat) + s
    }
}

/// One line per step of a path below a module, indented by its position.
pub open spec fn step_lines(nodes: Seq<ResolvedNode>, roots: Seq<(String, NodeId)>, steps: Seq<u64>) -> Seq<char>
    decreases steps.len(),
{
    if steps.len() == 0 {
        Seq::empty()
    } else {
        step_lines(nodes, roots, steps.drop_last()) + match label_of(nodes, roots, steps.last()) {
            Some(label) => repeat("    "@, (steps.len() - 1) as nat) + "└── "@ + label + "\n"@,
            None => Seq::empty(),
        }
    }
}

/// The part of the report for module `name`: its shortest path to `target`, if any.
pub open spec fn module_section(g: DependencyGraph, roots: Seq<(String, NodeId)>, name: Seq<char>, target: u64) -> Seq<char> {
    match root_of(roots, name) {
        Some(root) => match shortest_path_spec(g.edges@, root, target) {
            Some(path) => name + "\n"@ + step_lines(g.nodes@, roots, path.drop_first()) + "\n"@,
            None => Seq::empty(),
        },
        None => Seq::empty(),
    }
}

pub open spec fn module_sections(g: DependencyGraph, roots: Seq<(String, NodeId)>, names: Seq<Seq<char>>, target: u64) -> Seq<
    char,
>
    decreases names.len(),
{
    if names.len() == 0 {
        Seq::empty()
    } else {
        module_sections(g, roots, names.drop_last(), target) + module_section(g, roots, names.last(), target)
    }
}

/// The whole report for the node `node` of the artifact `coordinate`.
pub open spec fn why_text(g: DependencyGraph, roots: Seq<(String, NodeId)>, coordinate: Seq<char>, node: ResolvedNode) -> Seq<
    char,
> {
    coordinate + ":"@ + node.selected@ + "\n\nRequested by:\n\n"@ + module_sections(g, roots, sorted_names(roots), node.id.0)
        + "Resolution:\n"@ + "  selected: "@ + coordinate + ":"@ + node.selected@ + "\n"@ + "  reason: "@ + reason_text(
        node.mediation_reason,
    ) + "\n"@
}

fn sorted_module_names(roots: &Vec<(String, NodeId)>) -> (res: Vec<String>)
    ensures
        strings_view(res@) == sorted_names(roots@),
{
    let mut names: Vec<String> = Vec::new();
    let mut j: usize = 0;
    proof {
        assert(strings_view(names@).to_set() =~= root_names(roots@).take(0).to_set());
    }
    while j < roots.len()
        invariant
            j <= roots@.len(),
            strictly_sorted(strings_view(names@)),
            strings_view(names@).to_set() == root_names(roots@).take(j as int).to_set(),
        decreases roots@.len() - j,
    {
        let ghost before = root_names(roots@).take(j as int);
        insert_sorted(&mut names, roots[j].0.clone());
        proof {
            assert(root_names(roots@).take(j + 1) =~= before.push(roots@[j as int].0@));
            before.lemma_push_to_set_commute(roots@[j as int].0@);
        }
        j = j + 1;
    }
    proof {
        assert(root_names(roots@).take(j as int) =~= root_names(roots@));
        let s = strings_view(names@);
        assert(strictly_sorted(s) && s.to_set() == root_names(roots@).to_set());
        let c = sorted_names(roots@);
        lemma_strictly_sorted_unique(s, c);
    }
    names
}

fn push_repeat(out: &mut String, s: &str, n: usize)
    ensures
        final(out)@ == old(out)@ + repeat(s@, n as nat),
{
    let mut i: usize = 0;
    let ghost start = out@;
    proof {
        assert(start + repeat(s@, 0) =~= start);
    }
    while i < n
        invariant
            i <= n,
            out@ == start + repeat(s@, i as nat),
        decreases n - i,
    {
        out.append(s);
        proof {
            assert(start + repeat(s@, (i + 1) as nat) =~= start + repeat(s@, i as nat) + s@);
        }
        i = i + 1;
    }
}

fn write_section(output: &mut String, graph: &DependencyGraph, roots: &Vec<(String, NodeId)>, name: &String, target: u64)
    ensures
        final(output)@ == old(output)@ + module_section(*graph, roots@, name@, target),
{
    let root = match find_root(roots, name.as_str()) {
        Some(r) => r,
        None => {
            return ;
        },
    };
    let path = match shortest_path(&graph.edges, root, target) {
        Some(p) => p,
        None => {
            return ;
        },
    };
    proof {
        law_shortest_path(graph.edges@, root, target);
    }
    let ghost start = output@;
    output.append(name.as_str());
    output.append("\n");
    let ghost head = output@;
    let ghost steps = path@.drop_first();
    let mut t: usize = 1;
    proof {
        assert(steps.take(0) =~= Seq::<u64>::empty());
    }
    while t < path.len()
        invariant
            1 <= t <= path@.len(),
            steps == path@.drop_first(),
            output@ == head + step_lines(graph.nodes@, roots@, steps.take(t - 1)),
        decreases path@.len() - t,
    {
        let step = path[t];
        proof {
            assert(steps.take(t as int).drop_last() =~= steps.take(t - 1));
            assert(steps.take(t as int).last() == step);
        }
        match label_for(&graph.nodes, roots, step) {
            Some(label) => {
                push_repeat(output, "    ", t - 1);
                output.append("└── ");
                output.append(label.as_str());
                output.append("\n");
            },
            None => {},
        }
        t = t + 1;
    }
    output.append("\n");
    proof {
        assert(steps.take(t - 1) =~= steps);
    }
}

/// Where `coordinate` comes from: its selected version, then, for each module in
/// name order, the shortest chain of dependencies from the module to it (modules
/// that do not reach it are left out), then the version chosen and why.
/// `None` when no node of the graph is for `coordinate`.
pub fn format_why(graph: &DependencyGraph, module_roots: &Vec<(String, NodeId)>, coordinate: &str) -> (res: Option<String>)
    ensures
        match node_with_coordinate(graph.nodes@, coordinate@) {
            Some(node) => res is Some && res->0@ == why_text(*graph, module_roots@, coordinate@, node),
            None => res is None,
        },
{
    let index = match find_by_coordinate(&graph.nodes, coordinate) {
        Some(i) => i,
        None => {
            return None;
        },
    };
    let node = &graph.nodes[index];
    let target = node.id.0;
    let mut output = String::from_str(coordinate);
    output.append(":");
    output.append(node.selected.as_str());
    output.append("\n\nRequested by:\n\n");
    let ghost head = output@;
    let names = sorted_module_names(module_roots);
    let ghost ns = strings_view(names@);
    let mut m: usize = 0;
    proof {
        assert(ns.take(0) =~= Seq::<Seq<char>>::empty());
    }
    while m < names.len()
        invariant
            ns == strings_view(names@),
            m <= names@.len(),
            output@ == head + module_sections(*graph, module_roots@, ns.take(m as int), target),
        decreases names@.len() - m,
    {
        proof {
            assert(ns.take(m + 1).drop_last() =~= ns.take(m as int));
            assert(ns.take(m + 1).last() == names@[m as int]@);
        }
        write_section(&mut output, graph, module_roots, &names[m], target);
        proof {
            assert(output@ =~= head + module_sections(*graph, module_roots@, ns.take(m + 1), target));
        }
        m = m + 1;
    }
    proof {
        assert(ns.take(m as int) =~= ns);
    }
    output.append("Resolution:\n");
    output.append("  selected: ");
    output.append(coordinate);
    output.append(":");
    output.append(node.selected.as_str());
    output.append("\n");
    output.append("  reason: ");
    let reason = format_reason(&node.mediation_reason);
    output.append(reason.as_str());
    output.append("\n");
    proof {
        assert(output@ =~= why_text(*graph, module_roots@, coordinate@, *node));
    }
    Some(output)
}

/// The answer of `jvmfast why <coordinate>`: the explanation of `format_why`, or
/// `CoordinateNotResolved` when the resolved graph has no node for it.
pub fn why_output(graph: &DependencyGraph, module_roots: &Vec<(String, NodeId)>, coordinate: &str) -> (res: Result<
    String,
    CliError,
>)
    ensures
        match node_with_coordinate(graph.nodes@, coordinate@) {
            Some(node) => res matches Ok(text) && text@ == why_text(*graph, module_roots@, coordinate@, node),
            None => res matches Err(CliError::CoordinateNotResolved(c)) && c@ == coordinate@,
        },
{
    match format_why(graph, module_roots, coordinate) {
        Some(text) => Ok(text),
        None => Err(CliError::CoordinateNotResolved(String::from_str(coordinate))),
    }
}


/// The reason line of `why` states the mediation rule recorded on the node: the
/// report ends with `  reason: ` and the rule's own explanation, the same-depth
/// higher-version tie-break for `HigherVersionWins`, nearest-wins for
/// `NearestDepthWins`, and so on, each followed by the rejected versions.
pub proof fn law_reason_line_states_the_recorded_rule(
    g: DependencyGraph,
    roots: Seq<(String, NodeId)>,
    coordinate: Seq<char>,
    node: ResolvedNode,
)
    ensures
        node.mediation_reason is SingleRequest ==> exists|p: Seq<char>|
            why_text(g, roots, coordinate, node) == p + "  reason: "@ + "only one version was requested"@ + "\n"@,
        node.mediation_reason matches MediationReason::NearestDepthWins { rejected } ==> exists|p: Seq<char>|
            why_text(g, roots, coordinate, node) == p + "  reason: "@ + "nearest dependency wins over: "@ + joined(
                strings_view(rejected@),
                ", "@,
            ) + "\n"@,
        node.mediation_reason matches MediationReason::HigherVersionWins { rejected } ==> exists|p: Seq<char>|
            why_text(g, roots, coordinate, node) == p + "  reason: "@
                + "same dependency depth; higher version selected as tie-breaker over: "@ + joined(
                strings_view(rejected@),
                ", "@,
            ) + "\n"@,
        node.mediation_reason matches MediationReason::DeterministicTieBreak { rejected } ==> exists|p: Seq<char>|
            why_text(g, roots, coordinate, node) == p + "  reason: "@ + "same depth and version; deterministic tie-break over: "@
                + joined(strings_view(rejected@), ", "@) + "\n"@,
{
    let p = coordinate + ":"@ + node.selected@ + "\n\nRequested by:\n\n"@ + module_sections(
        g,
        roots,
        sorted_names(roots),
        node.id.0,
    ) + "Resolution:\n"@ + "  selected: "@ + coordinate + ":"@ + node.selected@ + "\n"@;
    assert(why_text(g, roots, coordinate, node) == p + "  reason: "@ + reason_text(node.mediation_reason) + "\n"@);
    match node.mediation_reason {
        MediationReason::SingleRequest => {},
        MediationReason::NearestDepthWins { rejected } => {
            let lit = "nearest dependency wins over: "@;
            let j = joined(strings_view(rejected@), ", "@);
            assert(p + "  reason: "@ + (lit + j) + "\n"@ =~= p + "  reason: "@ + lit + j + "\n"@);
        },
        MediationReason::HigherVersionWins { rejected } => {
            let lit = "same dependency depth; higher version selected as tie-breaker over: "@;
            let j = joined(strings_view(rejected@), ", "@);
            assert(p + "  reason: "@ + (lit + j) + "\n"@ =~= p + "  reason: "@ + lit + j + "\n"@);
        },
        MediationReason::DeterministicTieBreak { rejected } => {
            let lit = "same depth and version; deterministic tie-break over: "@;
            let j = joined(strings_view(rejected@), ", "@);
            assert(p + "  reason: "@ + (lit + j) + "\n"@ =~= p + "  reason: "@ + lit + j + "\n"@);
        },
    }
}

/// Distinct mediation rules are explained by distinct texts, whatever versions
/// they rejected: no report can present one rule as another.
pub proof fn law_distinct_rules_distinct_explanations(a: MediationReason, b: MediationReason)
    requires
        !(a is SingleRequest && b is SingleRequest),
        !(a is NearestDepthWins && b is NearestDepthWins),
        !(a is HigherVersionWins && b is HigherVersionWins),
        !(a is DeterministicTieBreak && b is DeterministicTieBreak),
    ensures
        reason_text(a) != reason_text(b),
{
    reveal_strlit("only one version was requested");
    reveal_strlit("nearest dependency wins over: ");
    reveal_strlit("same dependency depth; higher version selected as tie-breaker over: ");
    reveal_strlit("same depth and version; deterministic tie-break over: ");
    let ta = reason_text(a);
    let tb = reason_text(b);
    lemma_reason_text_marks(a);
    lemma_reason_text_marks(b);
    if ta == tb {
        assert(ta[0] == tb[0] && ta[8] == tb[8]);
    }
}

/// The first and ninth characters of each explanation: `o`/`n`/`s`/`s` and
/// `e`/`d`/`e`/`t`, which tell the four rules apart.
proof fn lemma_reason_text_marks(r: MediationReason)
    ensures
        reason_text(r).len() > 8,
        r is SingleRequest ==> reason_text(r)[0] == 'o',
        r is NearestDepthWins ==> reason_text(r)[0] == 'n',
        r is HigherVersionWins ==> reason_text(r)[0] == 's' && reason_text(r)[8] == 'e',
        r is DeterministicTieBreak ==> reason_text(r)[0] == 's' && reason_text(r)[8] == 't',
{
    reveal_strlit("only one version was requested");
    reveal_strlit("nearest dependency wins over: ");
    reveal_strlit("same dependency depth; higher version selected as tie-breaker over: ");
    reveal_strlit("same depth and version; deterministic tie-break over: ");
    match r {
        MediationReason::SingleRequest => {},
        MediationReason::NearestDepthWins { rejected } => {
            let lit = "nearest dependency wins over: "@;
            assert((lit + joined(strings_view(rejected@), ", "@))[0] == lit[0]);
        },
        MediationReason::HigherVersionWins { rejected } => {
            let lit = "same dependency depth; higher version selected as tie-breaker over: "@;
            assert((lit + joined(strings_view(rejected@), ", "@))[0] == lit[0]);
            assert((lit + joined(strings_view(rejected@), ", "@))[8] == lit[8]);
        },
        MediationReason::DeterministicTieBreak { rejected } => {
            let lit = "same depth and version; deterministic tie-break over: "@;
            assert((lit + joined(strings_view(rejected@), ", "@))[0] == lit[0]);
            assert((lit + joined(strings_view(rejected@), ", "@))[8] == lit[8]);
        },
    }
}

} // verus!
