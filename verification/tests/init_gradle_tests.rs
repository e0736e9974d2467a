use jvmfast::gradle::{
    escape_groovy_string, init_script_contents, plan_gradle_import, BridgeDependency, BridgeModel, BridgeModule,
    GradleImportError,
};
use jvmfast::init::{
    check_init_targets, derive_name, format_init_summary, plan_init, render_manifest, InitError, InitReport,
    MAIN_JAVA_TEMPLATE,
};

#[test]
fn init_manifest_has_run_table_only_with_a_main_class() {
    assert_eq!(
        render_manifest("demo", "21", Some("Main")),
        "[project]\nname = \"demo\"\nversion = \"0.1.0\"\njava-version = \"21\"\n\n[run]\nmain-class = \"Main\"\n\n[dependencies]\n"
    );
    assert_eq!(
        render_manifest("demo", "lts", None),
        "[project]\nname = \"demo\"\nversion = \"0.1.0\"\njava-version = \"lts\"\n\n[dependencies]\n"
    );
}

#[test]
fn init_defaults_are_reported() {
    let plan = plan_init("demo", true, None, false);
    assert!(plan.write_main_java);
    assert_eq!(plan.manifest, render_manifest("demo", "lts", Some("Main")));
    assert_eq!(
        plan.report.notes,
        vec![
            "no --name given, derived \"demo\" from the directory name".to_string(),
            "no --java-version given, defaulted to \"lts\"".to_string(),
        ]
    );
    let plan = plan_init("demo", false, Some("17"), true);
    assert!(!plan.write_main_java);
    assert_eq!(plan.manifest, render_manifest("demo", "17", None));
    assert_eq!(
        plan.report.notes,
        vec!["src/main/java already contains .java files — skipped writing a Main.java placeholder".to_string()]
    );
    assert!(MAIN_JAVA_TEMPLATE.contains("Hello, World!"));
}

#[test]
fn init_refuses_existing_manifest_then_pom() {
    assert_eq!(
        check_init_targets(true, "/p/project.toml", true, "/p/pom.xml"),
        Err(InitError::ManifestAlreadyExists("/p/project.toml".to_string()))
    );
    assert_eq!(
        check_init_targets(false, "/p/project.toml", true, "/p/pom.xml"),
        Err(InitError::PomXmlDetected("/p/pom.xml".to_string()))
    );
    assert_eq!(check_init_targets(false, "/p/project.toml", false, "/p/pom.xml"), Ok(()));
}

#[test]
fn project_name_is_the_last_path_component() {
    assert_eq!(derive_name(".", "/home/me/demo"), Ok("demo".to_string()));
    assert_eq!(derive_name(".", "/home/me/demo/"), Ok("demo".to_string()));
    assert_eq!(derive_name(".", "/home/me/demo/."), Ok("demo".to_string()));
    assert_eq!(derive_name(".", "/"), Err(InitError::CouldNotDeriveName(".".to_string())));
    assert_eq!(derive_name("x", "/a/.."), Err(InitError::CouldNotDeriveName("x".to_string())));
}

#[test]
fn init_summary_lists_the_notes() {
    let report = InitReport { notes: vec!["one".to_string(), "two".to_string()] };
    assert_eq!(format_init_summary("/p", &report), "project.toml written at /p\n  - one\n  - two");
    assert_eq!(format_init_summary("/p", &InitReport { notes: vec![] }), "project.toml written at /p");
}

#[test]
fn groovy_strings_are_escaped() {
    assert_eq!(escape_groovy_string(r#"C:\a "b""#), r#"C:\\a \"b\""#);
    let script = init_script_contents("/tmp/bridge.jar");
    assert!(script.starts_with("initscript {\n    dependencies {\n        classpath(files(\"/tmp/bridge.jar\"))\n"));
    assert!(script.ends_with("allprojects {\n    apply plugin: dev.jvmfast.gradlebridge.JvmfastModelBuilderPlugin\n}\n"));
}

fn bdep(c: &str, v: &str, conf: &str) -> BridgeDependency {
    BridgeDependency { coordinate: c.to_string(), version: v.to_string(), configuration: conf.to_string() }
}

#[test]
fn gradle_model_without_modules_is_refused() {
    assert_eq!(plan_gradle_import(&BridgeModel { modules: vec![] }), Err(GradleImportError::NoModulesInBridgeOutput));
}

#[test]
fn gradle_import_keeps_each_coordinate_once() {
    let module = BridgeModule {
        name: "app".to_string(),
        version: "unspecified".to_string(),
        dependencies: vec![
            bdep("g:a", "1", "compileClasspath"),
            bdep("g:a", "1", "runtimeClasspath"),
            bdep("g:b", "2", "runtimeClasspath"),
            bdep("g:a", "1", "testCompileClasspath"),
            bdep("g:t", "3", "testCompileClasspath"),
            bdep("g:t", "3", "testCompileClasspath"),
            bdep("g:x", "9", "annotationProcessor"),
        ],
    };
    let other = BridgeModule { name: "other".to_string(), version: "1".to_string(), dependencies: vec![] };
    let plan = plan_gradle_import(&BridgeModel { modules: vec![module, other] }).unwrap();
    assert_eq!(
        plan.manifest,
        "[project]\nname = \"app\"\nversion = \"0.1.0\"\njava-version = \"lts\"\n\n[dependencies]\n\"g:a\" = \"1\"\n\"g:b\" = \"2\"\n\n[dev-dependencies]\n\"g:t\" = \"3\"\n"
    );
    assert_eq!(plan.report.notes.len(), 5);
    assert_eq!(
        plan.report.notes[0],
        "gradle build has 2 modules — jvmfast import-gradle only imports the first one today (multi-project import is Fase 5 scope)"
    );
    assert_eq!(plan.report.notes[1], "gradle project has no version set — defaulted to \"0.1.0\", adjust manually if needed");
}
