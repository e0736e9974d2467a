use jvmfast::cli::edit::{add_dependency_to_manifest, remove_dependency_from_manifest, ManifestEditError};
use jvmfast::config::{set_default_java_version_text, ConfigError};

const MANIFEST: &str = "[project]\nname = \"app\"\n\n[dependencies]\n# pinned\n\"g:a\" = \"1.0\"\n";

fn dependency(text: &str, key: &str) -> Option<String> {
    let doc: toml_edit::DocumentMut = text.parse().unwrap();
    doc.get("dependencies")?.as_table_like()?.get(key)?.as_str().map(|s| s.to_string())
}

#[test]
fn adding_a_dependency_keeps_the_rest_of_the_manifest() {
    let edited = add_dependency_to_manifest(MANIFEST, "g:b", "2.0").unwrap();
    assert!(edited.starts_with("[project]\nname = \"app\"\n"));
    assert!(edited.contains("# pinned\n\"g:a\" = \"1.0\"\n"));
    assert_eq!(dependency(&edited, "g:b"), Some("2.0".to_string()));
    assert_eq!(dependency(&edited, "g:a"), Some("1.0".to_string()));
    let replaced = add_dependency_to_manifest(MANIFEST, "g:a", "1.1").unwrap();
    assert_eq!(dependency(&replaced, "g:a"), Some("1.1".to_string()));
}

#[test]
fn adding_creates_a_missing_dependencies_table() {
    let edited = add_dependency_to_manifest("[project]\nname = \"app\"\n", "g:b", "2.0").unwrap();
    assert_eq!(dependency(&edited, "g:b"), Some("2.0".to_string()));
}

#[test]
fn manifest_edits_refuse_invalid_toml_and_a_non_table() {
    assert!(matches!(add_dependency_to_manifest("[[", "g:b", "2.0"), Err(ManifestEditError::Parse(_))));
    assert!(matches!(remove_dependency_from_manifest("[[", "g:b"), Err(ManifestEditError::Parse(_))));
    assert_eq!(
        add_dependency_to_manifest("dependencies = 5\n", "g:b", "2.0"),
        Err(ManifestEditError::DependenciesNotATable)
    );
    assert_eq!(remove_dependency_from_manifest("dependencies = 5\n", "g:b"), Ok(None));
}

#[test]
fn removing_a_dependency_only_when_declared() {
    let edited = remove_dependency_from_manifest(MANIFEST, "g:a").unwrap().unwrap();
    assert_eq!(dependency(&edited, "g:a"), None);
    assert!(edited.starts_with("[project]\nname = \"app\"\n"));
    assert_eq!(remove_dependency_from_manifest(MANIFEST, "g:zzz"), Ok(None));
    let added_then_removed =
        remove_dependency_from_manifest(&add_dependency_to_manifest(MANIFEST, "g:b", "2.0").unwrap(), "g:b")
            .unwrap()
            .unwrap();
    assert_eq!(dependency(&added_then_removed, "g:b"), None);
    assert_eq!(dependency(&added_then_removed, "g:a"), Some("1.0".to_string()));
}

#[test]
fn default_java_version_is_set_in_the_global_config() {
    let fresh = set_default_java_version_text("", "21").unwrap();
    let doc: toml_edit::DocumentMut = fresh.parse().unwrap();
    assert_eq!(doc["defaults"]["java-version"].as_str(), Some("21"));
    let kept = set_default_java_version_text("# mine\n[network]\nmax-retries = 5\n", "17").unwrap();
    assert!(kept.contains("# mine\n[network]\nmax-retries = 5\n"));
    let doc: toml_edit::DocumentMut = kept.parse().unwrap();
    assert_eq!(doc["defaults"]["java-version"].as_str(), Some("17"));
    assert!(matches!(set_default_java_version_text("[[", "17"), Err(ConfigError::TomlEdit(_))));
    assert_eq!(set_default_java_version_text("defaults = \"x\"\n", "17"), Err(ConfigError::DefaultsNotATable));
}

#[test]
fn quoted_strings_read_back_as_toml() {
    for raw in ["plain", "a\"b", "back\\slash", "both \\\" end", "tab\there", ""] {
        let text = format!("k = {}\n", jvmfast::text::quote(raw));
        let doc: toml_edit::DocumentMut = text.parse().unwrap();
        assert_eq!(doc["k"].as_str(), Some(raw));
    }
}
