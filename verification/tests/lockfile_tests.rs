use jvmfast::domain::{
    DependencyGraph, EdgeKind, GraphEdge, Lockfile, MediationReason, NodeId, ResolvedNode, VersionRequest,
};
use jvmfast::lockfile::{build_lockfile, compute_manifest_hash, is_lockfile_valid, LockfileError};

fn lockfile_with_hash(hash: &str) -> Lockfile {
    Lockfile {
        version: 1,
        manifest_hash: hash.to_string(),
        java_version: "21".to_string(),
        packages: Vec::new(),
        requests: Vec::new(),
    }
}

fn node(id: u64, coordinate: &str, selected: &str, requests: Vec<VersionRequest>) -> ResolvedNode {
    ResolvedNode {
        id: NodeId(id),
        coordinate: coordinate.to_string(),
        requests,
        selected: selected.to_string(),
        mediation_reason: MediationReason::SingleRequest,
    }
}

fn request(version: &str, module: &str, depth: u32) -> VersionRequest {
    VersionRequest { version: version.to_string(), origin_module: module.to_string(), depth }
}

fn edge(from: u64, to: u64) -> GraphEdge {
    GraphEdge { from: NodeId(from), to: NodeId(to), kind: EdgeKind::External }
}

fn sample_graph() -> DependencyGraph {
    DependencyGraph {
        nodes: vec![
            node(7, "g:c", "3.0", vec![request("3.0", "app", 2)]),
            node(2, "g:a", "1.0", vec![request("1.0", "app", 1), request("1.1", "lib", 1)]),
            node(5, "g:b", "2.0", vec![request("2.0", "app", 2)]),
        ],
        edges: vec![edge(0, 2), edge(2, 7), edge(2, 5), edge(2, 7), edge(2, 99)],
    }
}

#[test]
fn lockfile_is_valid_only_for_its_manifest_hash() {
    let lockfile = lockfile_with_hash("sha256:abc");
    assert!(is_lockfile_valid(&lockfile, "sha256:abc"));
    assert!(!is_lockfile_valid(&lockfile, "sha256:abd"));
}

#[test]
fn lockfile_lists_packages_by_id_with_sorted_distinct_dependencies() {
    let checksums = vec![
        ("g:a@1.0".to_string(), "aaa".to_string()),
        ("g:b@2.0".to_string(), "bbb".to_string()),
        ("g:c@3.0".to_string(), "ccc".to_string()),
    ];
    let lock = build_lockfile(&sample_graph(), "sha256:h".to_string(), &checksums, "https://repo", "21").unwrap();
    assert_eq!(lock.version, 1);
    assert_eq!(lock.manifest_hash, "sha256:h");
    assert_eq!(lock.java_version, "21");
    let names: Vec<&str> = lock.packages.iter().map(|p| p.name.as_str()).collect();
    assert_eq!(names, vec!["g:a", "g:b", "g:c"]);
    assert_eq!(lock.packages[0].sha256, "aaa");
    assert_eq!(lock.packages[0].resolved_from, "https://repo");
    assert_eq!(lock.packages[0].dependencies, vec!["g:b@2.0".to_string(), "g:c@3.0".to_string()]);
    assert!(lock.packages[1].dependencies.is_empty());
    let requests: Vec<(String, String, String, u32)> =
        lock.requests.iter().map(|r| (r.module.clone(), r.name.clone(), r.version.clone(), r.depth)).collect();
    assert_eq!(
        requests,
        vec![
            ("app".to_string(), "g:a".to_string(), "1.0".to_string(), 1),
            ("lib".to_string(), "g:a".to_string(), "1.1".to_string(), 1),
            ("app".to_string(), "g:b".to_string(), "2.0".to_string(), 2),
            ("app".to_string(), "g:c".to_string(), "3.0".to_string(), 2),
        ]
    );
    assert!(is_lockfile_valid(&lock, "sha256:h"));
}

#[test]
fn missing_checksum_names_the_first_package_by_id() {
    let checksums = vec![("g:a@1.0".to_string(), "aaa".to_string())];
    assert_eq!(
        build_lockfile(&sample_graph(), "h".to_string(), &checksums, "r", "21"),
        Err(LockfileError::MissingChecksum("g:b@2.0".to_string()))
    );
}

#[test]
fn manifest_hash_is_sha256_of_the_concatenated_manifests() {
    assert_eq!(
        compute_manifest_hash(&vec![]),
        "sha256:e3b0c44298fc1c149afbf4c8996fb92427ae41e4649b934ca495991b7852b855"
    );
    assert_eq!(
        compute_manifest_hash(&vec!["ab".to_string(), "c".to_string()]),
        "sha256:ba7816bf8f01cfea414140de5dae2223b00361a396177a9cb410ff61f20015ad"
    );
    assert_ne!(
        compute_manifest_hash(&vec!["abc".to_string()]),
        compute_manifest_hash(&vec!["abd".to_string()])
    );
}

#[test]
fn lockfile_built_from_the_manifests_stays_valid_until_one_changes() {
    let manifests = vec!["[project]\nname = \"app\"\n".to_string()];
    let hash = compute_manifest_hash(&manifests);
    let checksums = vec![
        ("g:a@1.0".to_string(), "aaa".to_string()),
        ("g:b@2.0".to_string(), "bbb".to_string()),
        ("g:c@3.0".to_string(), "ccc".to_string()),
    ];
    let lock = build_lockfile(&sample_graph(), hash, &checksums, "r", "21").unwrap();
    assert!(is_lockfile_valid(&lock, &compute_manifest_hash(&manifests)));
    let edited = vec!["[project]\nname = \"app2\"\n".to_string()];
    assert!(!is_lockfile_valid(&lock, &compute_manifest_hash(&edited)));
}
