use jvmfast::cli::command::{check_command, check_test_options, Command, JdkCommand, TestOptions};
use jvmfast::cli::context::{cache_root_under, jdks_root, resolve_base_url, resolve_target_module, MAVEN_CENTRAL};
use jvmfast::cli::error::CliError;
use jvmfast::cli::install::{
    check_downloads, check_lock_for_run, check_removed, format_summary, lock_is_reusable, max_concurrent,
    parse_add_spec, require_main_class, run_outcome, InstallSummary,
};
use jvmfast::cli::jdk::{format_install_jdk, format_jdk_list, format_use_jdk, select_default_jdk};
use jvmfast::domain::{
    ColorMode, DefaultsConfig, Lockfile, Module, NetworkConfig, OutputConfig, Workspace, WorkspaceConfig,
};
use jvmfast::jdk::JdkError;

fn lock(hash: &str) -> Lockfile {
    Lockfile { version: 1, manifest_hash: hash.to_string(), java_version: "21".to_string(), packages: vec![], requests: vec![] }
}

fn module(name: &str) -> Module {
    Module {
        name: name.to_string(),
        root: format!("/ws/{name}"),
        declared_dependencies: vec![],
        boms: vec![],
        exclusions: vec![],
        workspace_dependencies: vec![],
    }
}

fn workspace(names: &[&str]) -> Workspace {
    Workspace {
        root: "/ws".to_string(),
        modules: names.iter().map(|n| module(n)).collect(),
        lockfile: lock("h"),
        config: WorkspaceConfig {
            defaults: DefaultsConfig::default(),
            network: NetworkConfig::with_parallelism(Some(8)),
            output: OutputConfig::default(),
        },
    }
}

#[test]
fn base_url_defaults_to_maven_central() {
    assert_eq!(resolve_base_url(&vec![]), MAVEN_CENTRAL);
    assert_eq!(MAVEN_CENTRAL, "https://repo1.maven.org/maven2");
    let repos = vec![("internal".to_string(), "https://i".to_string()), ("default".to_string(), "https://d".to_string())];
    assert_eq!(resolve_base_url(&repos), "https://d");
}

#[test]
fn cache_and_jdk_roots() {
    assert_eq!(cache_root_under(Some("/home/me")), "/home/me/.cache/jvmfast");
    assert_eq!(cache_root_under(None), "./.cache/jvmfast");
    assert_eq!(jdks_root("/home/me/.cache/jvmfast"), "/home/me/.cache/jvmfast/jdks");
}

#[test]
fn target_module_defaults_to_the_root_module() {
    let ws = workspace(&["root", "lib"]);
    assert_eq!(resolve_target_module(&ws, None).unwrap().name, "root");
    assert_eq!(resolve_target_module(&ws, Some("lib")).unwrap().name, "lib");
    assert_eq!(resolve_target_module(&ws, Some("nope")).unwrap_err(), CliError::ModuleNotFound("nope".to_string()));
}

#[test]
fn workspace_defaults() {
    let ws = workspace(&["root"]);
    assert_eq!(ws.config.network.connect_timeout_secs, 10);
    assert_eq!(ws.config.network.max_retries, 3);
    assert_eq!(ws.config.network.concurrent_downloads, 8);
    assert_eq!(NetworkConfig::with_parallelism(None).concurrent_downloads, 4);
    assert_eq!(ws.config.output.color, ColorMode::Auto);
    assert!(ws.config.output.progress_bar);
    assert_eq!(ws.config.defaults.java_version, None);
}

#[test]
fn install_summaries() {
    let reused = InstallSummary { package_count: 12, downloaded_count: 2, reused_from_cache_count: 10, reused_lockfile: true };
    assert_eq!(format_summary(&reused), "12 package(s) in project.lock — 2 downloaded, 10 already cached");
    let fresh = InstallSummary { package_count: 3, downloaded_count: 3, reused_from_cache_count: 0, reused_lockfile: false };
    assert_eq!(format_summary(&fresh), "resolved 3 package(s) — 3 downloaded, 0 already cached — project.lock written");
}

#[test]
fn lock_reuse_needs_an_existing_matching_lock_and_no_force() {
    let l = lock("h");
    assert!(lock_is_reusable(false, true, &l, "h"));
    assert!(!lock_is_reusable(true, true, &l, "h"));
    assert!(!lock_is_reusable(false, false, &l, "h"));
    assert!(!lock_is_reusable(false, true, &l, "other"));
    assert_eq!(max_concurrent(0), 1);
    assert_eq!(max_concurrent(6), 6);
}

#[test]
fn add_spec_needs_an_explicit_version() {
    assert_eq!(parse_add_spec("g:a@1.0", false), Ok(("g:a".to_string(), "1.0".to_string())));
    assert_eq!(parse_add_spec("g:a@1@2", false), Ok(("g:a".to_string(), "1@2".to_string())));
    assert_eq!(parse_add_spec("g:a", false), Err(CliError::VersionOmittedNotSupported("g:a".to_string())));
    assert_eq!(parse_add_spec("g:a@1", true), Err(CliError::DevDependenciesNotSupported));
    assert_eq!(check_removed(false, "g:a"), Err(CliError::DependencyNotDeclared("g:a".to_string())));
    assert_eq!(check_removed(true, "g:a"), Ok(()));
}

#[test]
fn failed_downloads_are_counted() {
    assert_eq!(check_downloads(&vec![true, true]), Ok(2));
    assert_eq!(check_downloads(&vec![true, false, false]), Err(CliError::DownloadsFailed(2, 3)));
    assert_eq!(check_downloads(&vec![]), Ok(0));
}

#[test]
fn run_checks_the_lock_and_reports_the_exit() {
    let l = lock("h");
    assert_eq!(check_lock_for_run(false, &l, "h"), Err(CliError::LockfileMissing));
    assert_eq!(check_lock_for_run(true, &l, "x"), Err(CliError::LockfileStale));
    assert_eq!(check_lock_for_run(true, &l, "h"), Ok(()));
    assert_eq!(run_outcome("Main", true, Some(0)), Ok("Main exited successfully".to_string()));
    assert_eq!(run_outcome("Main", false, Some(3)), Err(CliError::ProgramExited(3)));
    assert_eq!(run_outcome("Main", false, None), Err(CliError::ProgramExited(-1)));
}

#[test]
fn jdk_list_marks_the_default() {
    let installed = vec!["17.0.9-tem".to_string(), "21.0.2-tem".to_string()];
    assert_eq!(format_jdk_list(&installed, Some("21")), "17.0.9-tem\n21.0.2-tem (default)");
    assert_eq!(format_jdk_list(&installed, None), "17.0.9-tem\n21.0.2-tem");
    assert_eq!(format_jdk_list(&vec![], Some("21")), "no JDKs installed — run `jvmfast jdk install <version>`");
}

#[test]
fn default_jdk_must_be_installed() {
    let installed = vec!["17.0.9-tem".to_string(), "21.0.2-tem".to_string()];
    assert_eq!(select_default_jdk("21", &installed), Ok("21".to_string()));
    assert_eq!(select_default_jdk("11", &installed), Err(CliError::JavaVersionNotInstalled("11".to_string())));
    assert_eq!(
        select_default_jdk("21.0.2", &installed),
        Err(CliError::Jdk(JdkError::ExactVersionNotSupported("21.0.2".to_string())))
    );
    assert_eq!(format_use_jdk("21"), "default JDK set to 21");
    assert_eq!(format_install_jdk("21.0.2", "/j/21.0.2-tem"), "Temurin 21.0.2 installed at /j/21.0.2-tem");
}

#[test]
fn targeted_update_is_refused_before_any_work() {
    assert_eq!(
        check_command(&Command::Update { coordinate: Some("g:a".to_string()) }),
        Err(CliError::TargetedUpdateNotSupported)
    );
    assert_eq!(check_command(&Command::Update { coordinate: None }), Ok(()));
    assert_eq!(check_command(&Command::Install), Ok(()));
    assert_eq!(check_command(&Command::Jdk { action: JdkCommand::List }), Ok(()));
}

#[test]
fn run_needs_a_main_class() {
    assert_eq!(require_main_class(Some("app.Main".to_string())), Ok("app.Main".to_string()));
    assert_eq!(require_main_class(None), Err(CliError::MainClassNotConfigured));
}

#[test]
fn test_refuses_fail_fast() {
    let mut options = TestOptions { filter: Some("Foo".to_string()), fail_fast: true, report_xml: false };
    assert_eq!(check_test_options(&options), Err(CliError::FailFastNotSupported));
    options.fail_fast = false;
    assert_eq!(check_test_options(&options), Ok(()));
}
