use jvmfast::build::fingerprint::{compute_module_fingerprint, parse_stored_fingerprint, sort_files, sort_strings};
use jvmfast::build::plan::{is_up_to_date, BuildPlanner};
use jvmfast::build::BuildError;
use jvmfast::cache::{check_artifact, CacheError, CacheStore};
use jvmfast::digest::{hash_bytes, hash_sha1};
use jvmfast::domain::Module;
use jvmfast::download::{
    after_sha256_sidecar, attempts_for, cached_artifact, classify_status, parse_sidecar, verify_download, ChecksumStep,
    DownloadError, PublishedChecksum, SidecarOutcome, StatusClass,
};
use jvmfast::jdk::{
    available_releases_url, check_archive, find_installed, first_release, has_major, latest_release_url, jdk_install_dir, parse_major_version, platform_for, JdkError,
    JdkRelease,
};
use jvmfast::paths::{has_extension, join_path};
use jvmfast::text::{quote, to_decimal, trim};
use sha2::{Digest, Sha256};

const ABC_SHA256: &str = "ba7816bf8f01cfea414140de5dae2223b00361a396177a9cb410ff61f20015ad";
const ABC_SHA1: &str = "a9993e364706816aba3e25717850c26c9cd0d89d";

#[test]
fn digests_are_lowercase_hex() {
    assert_eq!(hash_bytes(b"abc"), ABC_SHA256);
    assert_eq!(hash_sha1(b"abc"), ABC_SHA1);
    assert_eq!(hash_bytes(b""), "e3b0c44298fc1c149afbf4c8996fb92427ae41e4649b934ca495991b7852b855");
}

#[test]
fn artifacts_are_sharded_by_checksum() {
    let store = CacheStore::new("/c");
    assert_eq!(store.artifact_path(ABC_SHA256, "x-1.jar"), format!("/c/artifacts/sha256/ba/78/{ABC_SHA256}/x-1.jar"));
    let store = CacheStore::new("/c/");
    assert_eq!(store.artifact_path("abcdef", "/abs.jar"), "/abs.jar");
}

#[test]
fn stored_artifact_must_match_its_checksum() {
    assert_eq!(check_artifact(b"abc", ABC_SHA256, "x.jar"), Ok(ABC_SHA256.to_string()));
    assert_eq!(
        check_artifact(b"abd", ABC_SHA256, "x.jar"),
        Err(CacheError::ChecksumMismatch {
            filename: "x.jar".to_string(),
            expected: ABC_SHA256.to_string(),
            actual: hash_bytes(b"abd"),
        })
    );
}

#[test]
fn checksum_files_give_their_first_word_lowercased() {
    assert_eq!(parse_sidecar("  ABCDEF  x.jar\n", "u"), Ok("abcdef".to_string()));
    assert_eq!(parse_sidecar("\n\t ", "u.sha1"), Err(DownloadError::EmptyChecksum { url: "u.sha1".to_string() }));
    assert_eq!(PublishedChecksum::Sha1("x".to_string()).algorithm_name(), "sha1");
    assert_eq!(PublishedChecksum::Sha256("x".to_string()).algorithm_name(), "sha256");
}

#[test]
fn sha1_is_tried_only_after_a_missing_sha256() {
    assert_eq!(
        after_sha256_sidecar(SidecarOutcome::Found("h".to_string())),
        ChecksumStep::Use(PublishedChecksum::Sha256("h".to_string()))
    );
    assert_eq!(after_sha256_sidecar(SidecarOutcome::NotFound), ChecksumStep::FetchSha1);
    assert_eq!(after_sha256_sidecar(SidecarOutcome::Failed), ChecksumStep::Fail);
}

#[test]
fn downloads_are_verified_against_the_published_checksum() {
    let sha256 = PublishedChecksum::Sha256(ABC_SHA256.to_string());
    assert_eq!(verify_download(&sha256, b"abc", "u"), Ok(ABC_SHA256.to_string()));
    let sha1 = PublishedChecksum::Sha1(ABC_SHA1.to_string());
    assert_eq!(verify_download(&sha1, b"abc", "u"), Ok(ABC_SHA256.to_string()));
    assert_eq!(
        verify_download(&sha1, b"abd", "u"),
        Err(DownloadError::ChecksumMismatch {
            url: "u".to_string(),
            algorithm: "sha1".to_string(),
            expected: ABC_SHA1.to_string(),
            actual: hash_sha1(b"abd"),
        })
    );
    let store = CacheStore::new("/c");
    let hit = cached_artifact(&store, &sha256, "a.jar", true).unwrap();
    assert!(hit.reused_from_cache);
    assert_eq!(hit.sha256, ABC_SHA256);
    assert_eq!(cached_artifact(&store, &sha256, "a.jar", false), None);
    assert_eq!(cached_artifact(&store, &sha1, "a.jar", true), None);
}

#[test]
fn jdk_versions_and_directories() {
    assert_eq!(parse_major_version("21"), Ok("21"));
    assert_eq!(parse_major_version("21.0.2-tem"), Err(JdkError::ExactVersionNotSupported("21.0.2-tem".to_string())));
    assert_eq!(parse_major_version(""), Err(JdkError::ExactVersionNotSupported(String::new())));
    let release = JdkRelease {
        version: "21.0.2".to_string(),
        download_url: "u".to_string(),
        checksum: ABC_SHA256.to_string(),
        filename: "jdk.tar.gz".to_string(),
    };
    assert_eq!(jdk_install_dir("/j", &release), "/j/21.0.2-tem");
    assert!(has_major("21.0.2-tem", "21"));
    assert!(!has_major("210-tem", "21"));
    let installed = vec!["17.0.1-tem".to_string(), "21.0.2-tem".to_string(), "21.0.3-tem".to_string()];
    assert_eq!(find_installed(&installed, "21"), Some("21.0.2-tem".to_string()));
    assert_eq!(find_installed(&installed, "11"), None);
    assert_eq!(check_archive(b"abc", &release), Ok(()));
    assert!(matches!(check_archive(b"x", &release), Err(JdkError::ChecksumMismatch { .. })));
}

#[test]
fn platforms_map_to_the_distribution_api() {
    assert_eq!(platform_for("linux", "x86_64"), Ok(("linux".to_string(), "x64".to_string())));
    assert_eq!(platform_for("macos", "aarch64"), Ok(("mac".to_string(), "aarch64".to_string())));
    assert_eq!(
        platform_for("windows", "x86_64"),
        Err(JdkError::UnsupportedPlatform { os: "windows".to_string(), arch: "x86_64".to_string() })
    );
    assert_eq!(
        platform_for("linux", "riscv64"),
        Err(JdkError::UnsupportedPlatform { os: "linux".to_string(), arch: "riscv64".to_string() })
    );
}

#[test]
fn text_helpers() {
    assert_eq!(quote(r#"a"b\c"#), r#""a\"b\\c""#);
    assert_eq!(to_decimal(0), "0");
    assert_eq!(to_decimal(1907), "1907");
    assert_eq!(trim(" \t x y \n"), "x y");
    assert_eq!(join_path("a", "b"), "a/b");
    assert_eq!(join_path("a/", "b"), "a/b");
    assert_eq!(join_path("", "b"), "b");
    assert_eq!(join_path("a", "/b"), "/b");
    assert!(has_extension("src/Main.java", "java"));
    assert!(!has_extension("src/.java", "java"));
    assert!(!has_extension("src/Main.javax", "java"));
}

fn module(name: &str, deps: &[&str]) -> Module {
    Module {
        name: name.to_string(),
        root: format!("/ws/{name}"),
        declared_dependencies: vec![],
        boms: vec![],
        exclusions: vec![],
        workspace_dependencies: deps.iter().map(|s| s.to_string()).collect(),
    }
}

#[test]
fn build_planner_goes_through_modules_dependencies_first() {
    let modules = vec![module("app", &["lib"]), module("lib", &[])];
    let planner = BuildPlanner::start(modules, vec!["/c/dep.jar".to_string()]).unwrap();
    let step = planner.next_step().unwrap();
    assert_eq!(step.index, 1);
    assert_eq!(step.sources_dir, "/ws/lib/src/main/java");
    assert_eq!(step.classes_dir, "/ws/lib/target/classes");
    assert_eq!(step.resources_dir, "/ws/lib/src/main/resources");
    assert_eq!(step.classpath, vec!["/c/dep.jar".to_string()]);
    let planner = planner.record("f-lib".to_string(), false, 4, 2);
    let step = planner.next_step().unwrap();
    assert_eq!(step.index, 0);
    assert_eq!(step.classpath, vec!["/c/dep.jar".to_string(), "/ws/lib/target/classes".to_string()]);
    assert_eq!(step.dependency_fingerprints, vec!["f-lib".to_string()]);
    let planner = planner.record("f-app".to_string(), true, 9, 9);
    assert!(planner.next_step().is_none());
    let summaries = planner.finish();
    assert_eq!(summaries.len(), 2);
    assert_eq!(summaries[0].module, "lib");
    assert_eq!((summaries[0].compiled_files, summaries[0].copied_resources, summaries[0].up_to_date), (4, 2, false));
    assert_eq!(summaries[1].module, "app");
    assert_eq!((summaries[1].compiled_files, summaries[1].copied_resources, summaries[1].up_to_date), (0, 0, true));
}

#[test]
fn build_planner_refuses_cycles() {
    let modules = vec![module("a", &["b"]), module("b", &["a"])];
    assert!(matches!(BuildPlanner::start(modules, vec![]), Err(BuildError::CyclicModuleDependency(_))));
}

#[test]
fn up_to_date_needs_the_stored_fingerprint() {
    assert!(is_up_to_date(true, Some("f"), "f"));
    assert!(!is_up_to_date(false, Some("f"), "f"));
    assert!(!is_up_to_date(true, None, "f"));
    assert!(!is_up_to_date(true, Some("g"), "f"));
    assert_eq!(parse_stored_fingerprint("  abc\n"), "abc");
}

#[test]
fn fingerprint_hashes_inputs_in_a_fixed_order() {
    let sources = vec![("A.java".to_string(), b"class A".to_vec())];
    let resources = vec![("r.txt".to_string(), b"r".to_vec())];
    let classpath = vec!["b.jar".to_string(), "a.jar".to_string()];
    let deps = vec!["f2".to_string(), "f1".to_string()];
    let fingerprint = compute_module_fingerprint(&sources, &resources, &classpath, "/jdk/bin/javac", &deps);
    let mut hasher = Sha256::new();
    hasher.update(b"A.java\0class A");
    hasher.update(b"r.txt\0r");
    hasher.update(b"a.jar\0b.jar\0");
    hasher.update(b"/jdk/bin/javac");
    hasher.update(b"f1f2");
    let expected: String = hasher.finalize().iter().map(|b| format!("{b:02x}")).collect();
    assert_eq!(fingerprint, expected);
    let reordered = compute_module_fingerprint(&sources, &resources, &vec!["a.jar".to_string(), "b.jar".to_string()], "/jdk/bin/javac", &vec!["f1".to_string(), "f2".to_string()]);
    assert_eq!(fingerprint, reordered);
    assert_eq!(sort_strings(&vec!["b".to_string(), "a".to_string(), "b".to_string()]), vec!["a", "b", "b"]);
}

#[test]
fn response_statuses_decide_between_answer_fallback_and_retry() {
    assert_eq!(classify_status(200), StatusClass::Success);
    assert_eq!(classify_status(299), StatusClass::Success);
    assert_eq!(classify_status(404), StatusClass::NotFound);
    assert_eq!(classify_status(500), StatusClass::Retry);
    assert_eq!(classify_status(301), StatusClass::Retry);
    assert_eq!(attempts_for(0), 1);
    assert_eq!(attempts_for(3), 3);
}

#[test]
fn first_listed_asset_is_the_release() {
    assert_eq!(first_release(&vec![], "21"), Err(JdkError::NoReleaseFound("21".to_string())));
    let assets = vec![
        (21, 0, 2, "https://x/jdk.tar.gz".to_string(), "abc".to_string(), "jdk.tar.gz".to_string()),
        (21, 0, 1, "https://x/old.tar.gz".to_string(), "def".to_string(), "old.tar.gz".to_string()),
    ];
    assert_eq!(
        first_release(&assets, "21"),
        Ok(JdkRelease {
            version: "21.0.2".to_string(),
            download_url: "https://x/jdk.tar.gz".to_string(),
            checksum: "abc".to_string(),
            filename: "jdk.tar.gz".to_string(),
        })
    );
}

#[test]
fn distribution_api_queries() {
    assert_eq!(
        latest_release_url("https://api.adoptium.net//", "21", "linux", "x64"),
        "https://api.adoptium.net/v3/assets/latest/21/hotspot?architecture=x64&image_type=jdk&os=linux"
    );
    assert_eq!(available_releases_url("http://h"), "http://h/v3/info/available_releases");
}

#[test]
fn fingerprint_ignores_the_order_files_were_listed_in() {
    let a = ("src/B.java".to_string(), b"class B".to_vec());
    let b = ("src/A.java".to_string(), b"class A".to_vec());
    let r1 = ("res/x.txt".to_string(), b"x".to_vec());
    let r2 = ("res/a.txt".to_string(), b"a".to_vec());
    let cp = vec!["c.jar".to_string()];
    let one = compute_module_fingerprint(&vec![a.clone(), b.clone()], &vec![r1.clone(), r2.clone()], &cp, "javac", &vec![]);
    let two = compute_module_fingerprint(&vec![b.clone(), a.clone()], &vec![r2.clone(), r1.clone()], &cp, "javac", &vec![]);
    assert_eq!(one, two);
    let mut hasher = Sha256::new();
    hasher.update(b"src/A.java\0class Asrc/B.java\0class B");
    hasher.update(b"res/a.txt\0ares/x.txt\0x");
    hasher.update(b"c.jar\0");
    hasher.update(b"javac");
    let expected: String = hasher.finalize().iter().map(|b| format!("{b:02x}")).collect();
    assert_eq!(one, expected);
    assert_eq!(
        sort_files(&vec![("p".to_string(), vec![2]), ("o".to_string(), vec![9]), ("p".to_string(), vec![1])]),
        vec![("o".to_string(), vec![9]), ("p".to_string(), vec![1]), ("p".to_string(), vec![2])]
    );
}
