use jvmfast::import::generate::{render_manifest, ImportedVersion};
use jvmfast::import::interp::interpolate;
use jvmfast::import::range::{is_maven_range, translate_maven_range, RangeTranslation};
use jvmfast::import::{format_import_summary, plan_import, ImportError, ImportReport};
use jvmfast::pom::{ManagedDependencyEntry, ParsedPom, PomDependency};

fn props(pairs: &[(&str, &str)]) -> Vec<(String, String)> {
    pairs.iter().map(|(k, v)| (k.to_string(), v.to_string())).collect()
}

fn dep(c: &str, v: &str, scope: &str, exclusions: &[&str]) -> PomDependency {
    PomDependency {
        coordinate: c.to_string(),
        version: v.to_string(),
        scope: scope.to_string(),
        exclusions: exclusions.iter().map(|s| s.to_string()).collect(),
    }
}

fn base_pom() -> ParsedPom {
    ParsedPom {
        project_artifact_id: "demo".to_string(),
        project_version: "1.0".to_string(),
        properties: Vec::new(),
        dependencies: Vec::new(),
        managed_dependencies: Vec::new(),
        repositories: Vec::new(),
        has_profiles: false,
        has_plugins: false,
    }
}

#[test]
fn maven_ranges_are_recognised() {
    assert!(is_maven_range("[1.0,2.0)"));
    assert!(is_maven_range("  [1.5,)  "));
    assert!(is_maven_range("(,2.0]"));
    assert!(is_maven_range("[1.0]"));
    assert!(!is_maven_range("^2.17.0"));
    assert!(!is_maven_range("1.0"));
    assert!(!is_maven_range("["));
    assert!(!is_maven_range(""));
}

#[test]
fn only_single_bracketed_versions_translate() {
    assert_eq!(translate_maven_range(" [1.2.3] "), RangeTranslation::Direct("1.2.3".to_string()));
    assert_eq!(translate_maven_range("[1.0,2.0)"), RangeTranslation::Unresolved);
    assert_eq!(translate_maven_range("[1.0,]"), RangeTranslation::Unresolved);
    assert_eq!(translate_maven_range("[]"), RangeTranslation::Unresolved);
    assert_eq!(translate_maven_range("(1.0)"), RangeTranslation::Unresolved);
}

#[test]
fn interpolation_replaces_every_property() {
    let p = props(&[("a", "1"), ("b", "two"), ("a", "shadowed")]);
    assert_eq!(interpolate("${a}-${b}", &p), Some("1-two".to_string()));
    assert_eq!(interpolate("v${a}${a}x", &p), Some("v11x".to_string()));
    assert_eq!(interpolate("plain", &p), Some("plain".to_string()));
    assert_eq!(interpolate("${missing}", &p), None);
    assert_eq!(interpolate("${a", &p), None);
    assert_eq!(interpolate("$a}", &p), Some("$a}".to_string()));
}

#[test]
fn manifest_is_rendered_with_optional_tables() {
    let text = render_manifest(
        "demo",
        "1.0",
        "21",
        Some("UTF-8"),
        &[("g:a".to_string(), ImportedVersion::Explicit("1.2".to_string())), ("g:b".to_string(), ImportedVersion::BomManaged)],
        &[("g:t".to_string(), ImportedVersion::Explicit("4".to_string()))],
        &[("g:bom".to_string(), "3".to_string())],
        &[("g:a".to_string(), vec!["x:y".to_string(), "x:z".to_string()])],
        &[("default".to_string(), "https://r".to_string())],
    );
    let expected = [
        "[project]\n",
        "name = \"demo\"\n",
        "version = \"1.0\"\n",
        "java-version = \"21\"\n",
        "source-encoding = \"UTF-8\"\n",
        "\n[dependencies]\n",
        "\"g:a\" = \"1.2\"\n",
        "\"g:b\" = true\n",
        "\n[dev-dependencies]\n",
        "\"g:t\" = \"4\"\n",
        "\n[boms]\n",
        "\"g:bom\" = \"3\"\n",
        "\n[exclusions]\n",
        "\"g:a\" = [\"x:y\", \"x:z\"]\n",
        "\n[repositories]\n",
        "\"default\" = \"https://r\"\n",
    ]
    .concat();
    assert_eq!(text, expected);
}

#[test]
fn empty_tables_except_dependencies_are_left_out_and_quotes_escaped() {
    let text = render_manifest("a\"b\\c", "1", "lts", None, &[], &[], &[], &[], &[]);
    assert_eq!(
        text,
        "[project]\nname = \"a\\\"b\\\\c\"\nversion = \"1\"\njava-version = \"lts\"\n\n[dependencies]\n"
    );
}

#[test]
fn pom_without_artifact_id_or_version_is_refused() {
    let mut pom = base_pom();
    pom.project_artifact_id = String::new();
    assert_eq!(plan_import(&pom), Err(ImportError::MissingArtifactId));
    let mut pom = base_pom();
    pom.project_version = String::new();
    assert_eq!(plan_import(&pom), Err(ImportError::MissingVersion));
}

#[test]
fn pom_import_converts_and_reports() {
    let mut pom = base_pom();
    pom.properties = props(&[("maven.compiler.release", ""), ("maven.compiler.target", "17"), ("lib.version", "2.5"), ("project.build.sourceEncoding", "UTF-8")]);
    pom.dependencies = vec![
        dep("g:lib", "${lib.version}", "", &["x:bad"]),
        dep("g:prov", "1", "provided", &[]),
        dep("g:test", "[4.13]", "test", &[]),
        dep("g:range", "[1,2)", "", &[]),
        dep("g:unset", "${nope}", "", &[]),
        dep("g:managed", "", "compile", &[]),
    ];
    pom.managed_dependencies = vec![
        ManagedDependencyEntry { coordinate: "g:bom".to_string(), version: "${lib.version}".to_string(), is_bom_import: true },
        ManagedDependencyEntry { coordinate: "g:plain".to_string(), version: "1".to_string(), is_bom_import: false },
        ManagedDependencyEntry { coordinate: "g:nover".to_string(), version: String::new(), is_bom_import: true },
    ];
    pom.repositories = props(&[("central", "https://a"), ("", "https://b"), ("corp", "https://c")]);
    pom.has_profiles = true;
    pom.has_plugins = true;
    let plan = plan_import(&pom).unwrap();
    let expected = [
        "[project]\n",
        "name = \"demo\"\n",
        "version = \"1.0\"\n",
        "java-version = \"17\"\n",
        "source-encoding = \"UTF-8\"\n",
        "\n[dependencies]\n",
        "\"g:lib\" = \"2.5\"\n",
        "\"g:managed\" = true\n",
        "\n[dev-dependencies]\n",
        "\"g:test\" = \"4.13\"\n",
        "\n[boms]\n",
        "\"g:bom\" = \"2.5\"\n",
        "\n[exclusions]\n",
        "\"g:lib\" = [\"x:bad\"]\n",
        "\n[repositories]\n",
        "\"default\" = \"https://a\"\n",
        "\"repo-1\" = \"https://b\"\n",
        "\"corp\" = \"https://c\"\n",
    ]
    .concat();
    assert_eq!(plan.manifest, expected);
    assert_eq!(
        plan.report.notes,
        vec![
            "dependency `g:prov`: scope `provided` has no jvm-fast equivalent — skipped, add manually if needed".to_string(),
            "dependency `g:range`: version range `[1,2)` has no direct jvm-fast equivalent — skipped, pin a version manually (seção 10)".to_string(),
            "dependency `g:unset`: version property in `${nope}` could not be resolved — skipped, add a version manually".to_string(),
            "BOM `g:nover`: no <version> declared — skipped, add manually".to_string(),
            "2 additional repositories imported into [repositories] beyond `default` — jvm-fast only resolves against `default` today, see the project documentation".to_string(),
            "pom.xml declares <profiles> — profiles have no jvm-fast equivalent and were not imported".to_string(),
            "pom.xml declares <build><plugins> — plugins have no jvm-fast equivalent and were not imported".to_string(),
        ]
    );
}

#[test]
fn pom_without_java_version_defaults_to_lts_with_a_note() {
    let mut pom = base_pom();
    pom.dependencies = vec![dep("g:nover", "", "", &[])];
    pom.repositories = props(&[("x", "https://a"), ("y", "https://b")]);
    let plan = plan_import(&pom).unwrap();
    assert!(plan.manifest.contains("java-version = \"lts\"\n"));
    assert!(!plan.manifest.contains("g:nover"));
    assert_eq!(
        plan.report.notes,
        vec![
            "no maven.compiler.release/target/source or java.version property found in pom.xml — defaulted java-version to \"lts\", adjust if needed".to_string(),
            "dependency `g:nover`: no <version> and no imported BOM found in <dependencyManagement> — skipped, add a version manually".to_string(),
            "1 additional repository imported into [repositories] beyond `default` — jvm-fast only resolves against `default` today, see the project documentation".to_string(),
        ]
    );
}

#[test]
fn import_summary_lists_the_notes() {
    let none = ImportReport { notes: vec![] };
    assert_eq!(format_import_summary("/p/pom.xml", &none), "project.toml written from /p/pom.xml");
    let two = ImportReport { notes: vec!["a".to_string(), "b".to_string()] };
    assert_eq!(
        format_import_summary("pom.xml", &two),
        "project.toml written from pom.xml\n2 item(s) need manual attention:\n  - a\n  - b"
    );
}
