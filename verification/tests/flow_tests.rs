use jvmfast::build::classpath::{check_locked_artifacts, locked_artifact_paths};
use jvmfast::build::fingerprint::compute_module_fingerprint;
use jvmfast::build::BuildError;
use jvmfast::cache::CacheStore;
use jvmfast::cli::command::test_outcome;
use jvmfast::cli::error::CliError;
use jvmfast::cli::install::{install_step, InstallAction, InstallEvent, InstallState, InstallSummary};
use jvmfast::domain::{LockedPackage, Lockfile};
use jvmfast::gradle::{bridge_outcome, check_gradle_targets, GradleImportError};
use jvmfast::import::{check_import_target, ImportError};

#[test]
fn install_reuses_a_valid_lockfile() {
    let (s, a) = install_step(
        InstallState::Start { force: false },
        InstallEvent::LockChecked { lock_exists: true, lock_matches: true, package_count: 3 },
    );
    assert_eq!(a, InstallAction::EnsureJdk);
    let (s, a) = install_step(s, InstallEvent::JdkReady);
    assert_eq!(a, InstallAction::DownloadLocked);
    let (s, a) = install_step(s, InstallEvent::LockedDownloadsDone { outcomes: vec![true], reused: 2 });
    assert_eq!(s, InstallState::Finished);
    assert_eq!(
        a,
        InstallAction::Finish(Ok(InstallSummary {
            package_count: 3,
            downloaded_count: 1,
            reused_from_cache_count: 2,
            reused_lockfile: true
        }))
    );
}

#[test]
fn install_resolves_when_forced_or_stale() {
    let (s, a) = install_step(
        InstallState::Start { force: true },
        InstallEvent::LockChecked { lock_exists: true, lock_matches: true, package_count: 3 },
    );
    assert_eq!((s.clone(), a), (InstallState::Resolving, InstallAction::Resolve));
    let (s, a) = install_step(s, InstallEvent::Resolved);
    assert_eq!(a, InstallAction::PlanDownloads);
    let (s, a) = install_step(s, InstallEvent::DownloadsPlanned { reused: 4 });
    assert_eq!(a, InstallAction::Download);
    let (s2, a) = install_step(s.clone(), InstallEvent::DownloadsDone { outcomes: vec![true, false, false] });
    assert_eq!(s2, InstallState::Finished);
    assert_eq!(a, InstallAction::Finish(Err(CliError::DownloadsFailed(2, 3))));
    let (s, a) = install_step(s, InstallEvent::DownloadsDone { outcomes: vec![true, true] });
    assert_eq!(a, InstallAction::WriteLockfile);
    let (_, a) = install_step(s, InstallEvent::LockfileWritten);
    assert_eq!(
        a,
        InstallAction::Finish(Ok(InstallSummary {
            package_count: 6,
            downloaded_count: 2,
            reused_from_cache_count: 4,
            reused_lockfile: false
        }))
    );
    let (s, a) = install_step(
        InstallState::Start { force: false },
        InstallEvent::LockChecked { lock_exists: false, lock_matches: true, package_count: 0 },
    );
    assert_eq!((s, a), (InstallState::Resolving, InstallAction::Resolve));
    assert_eq!(install_step(InstallState::Resolving, InstallEvent::JdkReady), (InstallState::Resolving, InstallAction::Wait));
}

#[test]
fn test_run_outcome() {
    assert_eq!(
        test_outcome(3, 1, true, Some(0)),
        Ok("compiled 3 test file(s), copied 1 test resource(s) — all tests passed".to_string())
    );
    assert_eq!(test_outcome(3, 1, false, Some(1)), Err(CliError::TestsFailed(1)));
    assert_eq!(test_outcome(3, 1, false, None), Err(CliError::TestsFailed(-1)));
}

#[test]
fn imports_never_overwrite_and_need_gradlew() {
    assert_eq!(check_import_target(true, "/p/project.toml"), Err(ImportError::ManifestAlreadyExists("/p/project.toml".to_string())));
    assert_eq!(check_import_target(false, "/p/project.toml"), Ok(()));
    assert_eq!(
        check_gradle_targets(true, "/p/project.toml", false, "/p"),
        Err(GradleImportError::ManifestAlreadyExists("/p/project.toml".to_string()))
    );
    assert_eq!(check_gradle_targets(false, "m", false, "/p"), Err(GradleImportError::GradlewNotFound("/p".to_string())));
    assert_eq!(check_gradle_targets(false, "m", true, "/p"), Ok(()));
    assert_eq!(bridge_outcome(true, Some(0), "x"), Ok(()));
    assert_eq!(
        bridge_outcome(false, None, "  boom\n"),
        Err(GradleImportError::BridgeFailed { status: -1, stderr: "boom".to_string() })
    );
}

fn package(name: &str, sha: &str) -> LockedPackage {
    LockedPackage {
        name: name.to_string(),
        version: "1.0".to_string(),
        sha256: sha.to_string(),
        resolved_from: "r".to_string(),
        dependencies: vec![],
    }
}

#[test]
fn locked_classpath_paths_and_missing_artifacts() {
    let lock = Lockfile {
        version: 1,
        manifest_hash: "h".to_string(),
        java_version: "21".to_string(),
        packages: vec![package("g:a", "abcd11"), package("g:b", "ef0122")],
        requests: vec![],
    };
    let store = CacheStore::new("/c");
    let paths = locked_artifact_paths(&lock, &store, &vec!["a-1.0.jar".to_string(), "b-1.0.jar".to_string()]);
    assert_eq!(
        paths,
        vec!["/c/artifacts/sha256/ab/cd/abcd11/a-1.0.jar".to_string(), "/c/artifacts/sha256/ef/01/ef0122/b-1.0.jar".to_string()]
    );
    assert_eq!(check_locked_artifacts(&lock, &vec![true, true]), Ok(()));
    assert_eq!(check_locked_artifacts(&lock, &vec![true, false]), Err(BuildError::MissingArtifact("g:b@1.0".to_string())));
}

#[test]
fn fingerprint_is_64_lowercase_hex_digits() {
    let f = compute_module_fingerprint(&vec![], &vec![], &vec![], "javac", &vec![]);
    assert_eq!(f.len(), 64);
    assert!(f.chars().all(|c| c.is_ascii_digit() || ('a'..='f').contains(&c)));
}
