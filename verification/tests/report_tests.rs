use jvmfast::cli::tree::format_tree;
use jvmfast::cli::error::CliError;
use jvmfast::cli::why::{format_why, why_output};
use jvmfast::domain::{
    DependencyGraph, EdgeKind, GraphEdge, MediationReason, Module, NodeId, ResolvedNode,
};
use jvmfast::walk::shortest_path;

fn node(id: u64, coordinate: &str, selected: &str, reason: MediationReason) -> ResolvedNode {
    ResolvedNode {
        id: NodeId(id),
        coordinate: coordinate.to_string(),
        requests: Vec::new(),
        selected: selected.to_string(),
        mediation_reason: reason,
    }
}

fn edge(from: u64, to: u64, kind: EdgeKind) -> GraphEdge {
    GraphEdge { from: NodeId(from), to: NodeId(to), kind }
}

fn module(name: &str) -> Module {
    Module {
        name: name.to_string(),
        root: format!("/{name}"),
        declared_dependencies: Vec::new(),
        boms: Vec::new(),
        exclusions: Vec::new(),
        workspace_dependencies: Vec::new(),
    }
}

/// app (0) -> a (10) -> b (11) -> a (cycle); app -> lib (1, workspace module); lib -> b
fn sample() -> (DependencyGraph, Vec<(String, NodeId)>, Vec<Module>) {
    let graph = DependencyGraph {
        nodes: vec![
            node(10, "g:a", "1.0", MediationReason::SingleRequest),
            node(
                11,
                "g:b",
                "2.0",
                MediationReason::NearestDepthWins { rejected: vec!["1.5".to_string(), "1.6".to_string()] },
            ),
        ],
        edges: vec![
            edge(0, 10, EdgeKind::ModuleDeclared),
            edge(0, 1, EdgeKind::WorkspaceModule),
            edge(10, 11, EdgeKind::External),
            edge(11, 10, EdgeKind::External),
            edge(1, 11, EdgeKind::ModuleDeclared),
        ],
    };
    let roots = vec![("app".to_string(), NodeId(0)), ("lib".to_string(), NodeId(1))];
    (graph, roots, vec![module("app"), module("lib")])
}

#[test]
fn tree_draws_each_module_with_cycles_and_workspace_modules() {
    let (graph, roots, modules) = sample();
    let expected = [
        "app\n",
        "├── g:a:1.0\n",
        "│   └── g:b:2.0\n",
        "│       └── g:a:1.0 (cycle)\n",
        "└── lib (workspace module)\n",
        "    └── g:b:2.0\n",
        "        └── g:a:1.0\n",
        "            └── g:b:2.0 (cycle)\n",
        "lib\n",
        "└── g:b:2.0\n",
        "    └── g:a:1.0\n",
        "        └── g:b:2.0 (cycle)\n",
    ]
    .concat();
    assert_eq!(format_tree(&graph, &roots, &modules), expected);
}

#[test]
fn tree_of_a_module_without_root_is_its_name() {
    let (graph, roots, _) = sample();
    assert_eq!(format_tree(&graph, &roots, &[module("other")]), "other\n");
}

#[test]
fn why_shows_the_shortest_path_from_each_module() {
    let (graph, roots, _) = sample();
    let expected = [
        "g:b:2.0\n\nRequested by:\n\n",
        "app\n",
        "└── g:a:1.0\n",
        "    └── g:b:2.0\n",
        "\n",
        "lib\n",
        "└── g:b:2.0\n",
        "\n",
        "Resolution:\n",
        "  selected: g:b:2.0\n",
        "  reason: nearest dependency wins over: 1.5, 1.6\n",
    ]
    .concat();
    assert_eq!(format_why(&graph, &roots, "g:b").unwrap(), expected);
}

#[test]
fn why_of_an_unknown_coordinate_is_none() {
    let (graph, roots, _) = sample();
    assert_eq!(format_why(&graph, &roots, "g:zzz"), None);
}

#[test]
fn why_reports_a_single_request() {
    let (graph, roots, _) = sample();
    let text = format_why(&graph, &roots, "g:a").unwrap();
    assert!(text.ends_with("  reason: only one version was requested\n"));
}

#[test]
fn breadth_first_search_finds_a_shortest_path() {
    let edges = vec![
        edge(1, 2, EdgeKind::External),
        edge(2, 3, EdgeKind::External),
        edge(3, 4, EdgeKind::External),
        edge(1, 4, EdgeKind::External),
    ];
    assert_eq!(shortest_path(&edges, 1, 4), Some(vec![1, 4]));
    assert_eq!(shortest_path(&edges, 1, 3), Some(vec![1, 2, 3]));
    assert_eq!(shortest_path(&edges, 1, 1), Some(vec![1]));
    assert_eq!(shortest_path(&edges, 4, 1), None);
}

#[test]
fn why_command_reports_an_unresolved_coordinate() {
    let (graph, roots, _) = sample();
    assert_eq!(why_output(&graph, &roots, "g:b"), Ok(format_why(&graph, &roots, "g:b").unwrap()));
    assert_eq!(why_output(&graph, &roots, "g:zzz"), Err(CliError::CoordinateNotResolved("g:zzz".to_string())));
}
