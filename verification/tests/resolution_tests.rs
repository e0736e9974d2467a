use jvmfast::bom::{resolve_boms, BomResolutionError, MAX_IMPORT_DEPTH};
use jvmfast::build::module_order;
use jvmfast::build::BuildError;
use jvmfast::domain::{BomReference, Dependency, EdgeKind, Module, NodeId, VersionReq};
use jvmfast::exclusion::{is_excluded, merge_exclusions};
use jvmfast::graph::{build_graph, GraphError};
use jvmfast::pom::{ManagedDependencyEntry, ParsedPom, PomDependency, PomTable};

fn pom(deps: Vec<PomDependency>, managed: Vec<ManagedDependencyEntry>) -> ParsedPom {
    ParsedPom {
        project_artifact_id: "x".to_string(),
        project_version: "1".to_string(),
        properties: Vec::new(),
        dependencies: deps,
        managed_dependencies: managed,
        repositories: Vec::new(),
        has_profiles: false,
        has_plugins: false,
    }
}

fn managed(c: &str, v: &str, import: bool) -> ManagedDependencyEntry {
    ManagedDependencyEntry { coordinate: c.to_string(), version: v.to_string(), is_bom_import: import }
}

fn dep(c: &str, v: &str, scope: &str) -> PomDependency {
    PomDependency { coordinate: c.to_string(), version: v.to_string(), scope: scope.to_string(), exclusions: Vec::new() }
}

fn module(name: &str, deps: Vec<Dependency>, ws: Vec<&str>) -> Module {
    Module {
        name: name.to_string(),
        root: format!("/ws/{name}"),
        declared_dependencies: deps,
        boms: Vec::new(),
        exclusions: Vec::new(),
        workspace_dependencies: ws.into_iter().map(|s| s.to_string()).collect(),
    }
}

fn explicit(c: &str, v: &str) -> Dependency {
    Dependency { coordinate: c.to_string(), version_req: VersionReq::Explicit(v.to_string()) }
}

#[test]
fn first_root_bom_wins_and_first_entry_wins_within_a_bom() {
    let provider = PomTable {
        entries: vec![
            ("a:bom".to_string(), "1".to_string(), pom(vec![], vec![managed("g:x", "1.0", false), managed("g:x", "9.9", false), managed("b:bom", "2", true)])),
            ("b:bom".to_string(), "2".to_string(), pom(vec![], vec![managed("g:y", "2.0", false), managed("g:x", "3.0", false)])),
            ("c:bom".to_string(), "3".to_string(), pom(vec![], vec![managed("g:y", "7.0", false), managed("g:z", "5.0", false)])),
        ],
    };
    let roots = vec![
        BomReference { coordinate: "a:bom".to_string(), version: "1".to_string() },
        BomReference { coordinate: "c:bom".to_string(), version: "3".to_string() },
    ];
    let table = resolve_boms(&roots, &provider).unwrap();
    assert_eq!(
        table,
        vec![
            ("g:x".to_string(), "1.0".to_string()),
            ("g:y".to_string(), "2.0".to_string()),
            ("g:z".to_string(), "5.0".to_string()),
        ]
    );
}

#[test]
fn bom_fetch_failure_names_the_missing_pom() {
    let provider = PomTable { entries: vec![] };
    let roots = vec![BomReference { coordinate: "a:bom".to_string(), version: "1".to_string() }];
    match resolve_boms(&roots, &provider) {
        Err(BomResolutionError::Fetch { coordinate, version, .. }) => {
            assert_eq!(coordinate, "a:bom");
            assert_eq!(version, "1");
        }
        other => panic!("unexpected {other:?}"),
    }
}

#[test]
fn bom_import_cycle_hits_the_depth_limit() {
    let provider = PomTable {
        entries: vec![("a:bom".to_string(), "1".to_string(), pom(vec![], vec![managed("a:bom", "1", true)]))],
    };
    let roots = vec![BomReference { coordinate: "a:bom".to_string(), version: "1".to_string() }];
    match resolve_boms(&roots, &provider) {
        Err(BomResolutionError::ImportDepthExceeded { coordinate, max }) => {
            assert_eq!(coordinate, "a:bom");
            assert_eq!(max, MAX_IMPORT_DEPTH);
            assert_eq!(max, 10);
        }
        other => panic!("unexpected {other:?}"),
    }
}

#[test]
fn exclusions_of_all_modules_are_merged_globally() {
    let mut a = module("a", vec![], vec![]);
    a.exclusions = vec![("p:one".to_string(), vec!["c:x".to_string(), "c:y".to_string()])];
    let mut b = module("b", vec![], vec![]);
    b.exclusions = vec![("p:one".to_string(), vec!["c:y".to_string(), "c:z".to_string()]), ("p:two".to_string(), vec![])];
    let merged = merge_exclusions(&[a, b]);
    assert_eq!(
        merged,
        vec![
            ("p:one".to_string(), vec!["c:x".to_string(), "c:y".to_string(), "c:z".to_string()]),
            ("p:two".to_string(), vec![]),
        ]
    );
    assert!(is_excluded(&merged, "p:one", "c:z"));
    assert!(is_excluded(&merged, "p:one", "c:x"));
    assert!(!is_excluded(&merged, "p:two", "c:x"));
    assert!(!is_excluded(&merged, "p:three", "c:x"));
}

#[test]
fn wildcard_exclusion_only_matches_a_literal_star() {
    let table = vec![("p:one".to_string(), vec!["*".to_string()])];
    assert!(!is_excluded(&table, "p:one", "c:x"));
    assert!(is_excluded(&table, "p:one", "*"));
}

#[test]
fn modules_are_ordered_dependencies_first() {
    let modules = vec![module("app", vec![], vec!["lib", "core"]), module("lib", vec![], vec!["core"]), module("core", vec![], vec![])];
    let order = module_order(&modules).unwrap();
    assert_eq!(order, vec![2, 1, 0]);
}

#[test]
fn unknown_workspace_dependency_is_reported() {
    let modules = vec![module("app", vec![], vec!["ghost"])];
    assert_eq!(
        module_order(&modules),
        Err(BuildError::UnknownWorkspaceModule { module: "app".to_string(), dependency: "ghost".to_string() })
    );
}

#[test]
fn cyclic_workspace_dependencies_are_reported() {
    let modules = vec![module("a", vec![], vec!["b"]), module("b", vec![], vec!["a"]), module("c", vec![], vec![])];
    assert_eq!(
        module_order(&modules),
        Err(BuildError::CyclicModuleDependency(vec!["a".to_string(), "b".to_string()]))
    );
}

#[test]
fn graph_walks_transitive_dependencies_breadth_first() {
    let provider = PomTable {
        entries: vec![
            ("g:a".to_string(), "1".to_string(), pom(vec![dep("g:b", "2", ""), dep("g:t", "1", "test")], vec![])),
            ("g:b".to_string(), "2".to_string(), pom(vec![dep("g:c", "3", "runtime")], vec![])),
            ("g:c".to_string(), "3".to_string(), pom(vec![], vec![])),
        ],
    };
    let modules = vec![module("app", vec![explicit("g:a", "1")], vec![])];
    let graph = build_graph(&modules, &vec![], &vec![], &provider).unwrap();
    assert_eq!(graph.module_roots, vec![("app".to_string(), NodeId(0))]);
    let coords: Vec<String> = graph.candidates.iter().map(|(_, c)| c.coordinate.clone()).collect();
    assert_eq!(coords, vec!["g:a".to_string(), "g:b".to_string(), "g:c".to_string()]);
    assert_eq!(graph.edges.len(), 3);
    assert_eq!(graph.edges[0].from, NodeId(0));
    assert_eq!(graph.edges[0].kind, EdgeKind::ModuleDeclared);
    assert_eq!(graph.edges[1].kind, EdgeKind::External);
    let c = &graph.candidates[2].1;
    assert_eq!(c.requests[0].depth, 3);
    assert_eq!(c.requests[0].origin_module, "app");
}

#[test]
fn excluded_transitive_dependency_is_dropped() {
    let provider = PomTable {
        entries: vec![
            ("g:a".to_string(), "1".to_string(), pom(vec![dep("g:b", "2", "compile")], vec![])),
            ("g:b".to_string(), "2".to_string(), pom(vec![], vec![])),
        ],
    };
    let modules = vec![module("app", vec![explicit("g:a", "1")], vec![])];
    let exclusions = vec![("g:a".to_string(), vec!["g:b".to_string()])];
    let graph = build_graph(&modules, &vec![], &exclusions, &provider).unwrap();
    assert_eq!(graph.candidates.len(), 1);
    assert_eq!(graph.edges.len(), 1);
}

#[test]
fn bom_managed_dependency_needs_a_bom_version() {
    let provider = PomTable { entries: vec![] };
    let modules = vec![module(
        "app",
        vec![Dependency { coordinate: "g:a".to_string(), version_req: VersionReq::BomManaged }],
        vec![],
    )];
    assert_eq!(
        build_graph(&modules, &vec![], &vec![], &provider).unwrap_err(),
        GraphError::MissingBomManagedVersion("g:a".to_string())
    );
    let table = vec![("g:a".to_string(), "4.0".to_string())];
    let provider = PomTable { entries: vec![("g:a".to_string(), "4.0".to_string(), pom(vec![], vec![]))] };
    let graph = build_graph(&modules, &table, &vec![], &provider).unwrap();
    assert_eq!(graph.candidates[0].1.requests[0].version, "4.0");
}

#[test]
fn version_ranges_are_not_resolved() {
    let provider = PomTable { entries: vec![] };
    let modules = vec![module("app", vec![explicit("g:a", "^1.2")], vec![])];
    assert_eq!(
        build_graph(&modules, &vec![], &vec![], &provider).unwrap_err(),
        GraphError::UnresolvedVersionRange { coordinate: "g:a".to_string(), requirement: "^1.2".to_string() }
    );
}

#[test]
fn unfetchable_pom_fails_the_graph() {
    let provider = PomTable { entries: vec![] };
    let modules = vec![module("app", vec![explicit("g:a", "1")], vec![])];
    match build_graph(&modules, &vec![], &vec![], &provider) {
        Err(GraphError::Fetch { coordinate, version, .. }) => {
            assert_eq!(coordinate, "g:a");
            assert_eq!(version, "1");
        }
        other => panic!("unexpected {other:?}"),
    }
}

#[test]
fn graph_rejects_a_workspace_dependency_on_an_unknown_module() {
    let provider = PomTable { entries: vec![] };
    let modules = vec![module("app", vec![], vec!["lib"]), module("lib", vec![], vec!["ghost"])];
    assert_eq!(
        build_graph(&modules, &vec![], &vec![], &provider).err(),
        Some(GraphError::UnknownWorkspaceModule { module: "lib".to_string(), dependency: "ghost".to_string() })
    );
    let known = vec![module("app", vec![], vec!["lib"]), module("lib", vec![], vec![])];
    assert!(build_graph(&known, &vec![], &vec![], &provider).is_ok());
}
