//! `jvmfast add` and `jvmfast remove` on the text of `project.toml`: the entry of
//! `[dependencies]` is edited in place, the rest of the file kept as it was.
use crate::toml_doc::{
    document_text, parse_document, remove_entry, render_document, set_string_entry, table_entries, table_is_settable, text_table_entries,
    toml_parses,
};
use vstd::prelude::*;

verus! {

/// Failures of a manifest edit that do not come from the file system.
#[derive(Debug, Clone, PartialEq, Eq)]
pub enum ManifestEditError {
    /// The manifest is not valid TOML; toml_edit's message.
    Parse(String),
    /// `dependencies` holds something other than a table.
    DependenciesNotATable,
}

/// `contents` with `[dependencies]` holding `coordinate = "version"` (added, or
/// replacing the former value).
pub fn add_dependency_to_manifest(contents: &str, coordinate: &str, version: &str) -> (res: Result<
    String,
    ManifestEditError,
>)
    ensures
        !toml_parses(contents@) ==> res matches Err(ManifestEditError::Parse(_)),
        toml_parses(contents@) && text_table_entries(contents@, "dependencies"@) is None ==> res
            == Err::<String, ManifestEditError>(ManifestEditError::DependenciesNotATable),
        toml_parses(contents@) && text_table_entries(contents@, "dependencies"@) is Some ==> (res matches Ok(out)
            && exists|d: toml_edit::DocumentMut|
            #![trigger document_text(d)]
            table_entries(d, "dependencies"@) == Some(
                text_table_entries(contents@, "dependencies"@)->0.insert(coordinate@, Some(version@)),
            ) && (forall|t: Seq<char>|
                t != "dependencies"@ ==> #[trigger] table_entries(d, t) == text_table_entries(contents@, t))
                && out@ == document_text(d)),
{
    let mut doc = match parse_document(contents) {
        Ok(doc) => doc,
        Err(message) => return Err(ManifestEditError::Parse(message)),
    };
    proof {
        assert(table_entries(doc, "dependencies"@) == text_table_entries(contents@, "dependencies"@));
    }
    if !table_is_settable(&doc, "dependencies") {
        return Err(ManifestEditError::DependenciesNotATable);
    }
    set_string_entry(&mut doc, "dependencies", coordinate, version);
    let out = render_document(&doc);
    proof {
        assert(table_entries(doc, "dependencies"@) == Some(
            text_table_entries(contents@, "dependencies"@)->0.insert(coordinate@, Some(version@)),
        ) && out@ == document_text(doc));
    }
    Ok(out)
}

/// `contents` without `coordinate` in `[dependencies]`; `None` when it is not declared
/// there (or `dependencies` is not a table), the file then left as it is.
pub fn remove_dependency_from_manifest(contents: &str, coordinate: &str) -> (res: Result<
    Option<String>,
    ManifestEditError,
>)
    ensures
        !toml_parses(contents@) ==> res matches Err(ManifestEditError::Parse(_)),
        toml_parses(contents@) && !(text_table_entries(contents@, "dependencies"@) matches Some(m) && m.contains_key(
            coordinate@,
        )) ==> res == Ok::<Option<String>, ManifestEditError>(None),
        toml_parses(contents@) && (text_table_entries(contents@, "dependencies"@) matches Some(m) && m.contains_key(
            coordinate@,
        )) ==> (res matches Ok(Some(out)) && exists|d: toml_edit::DocumentMut|
            #![trigger document_text(d)]
            table_entries(d, "dependencies"@) == Some(
                text_table_entries(contents@, "dependencies"@)->0.remove(coordinate@),
            ) && (forall|t: Seq<char>|
                t != "dependencies"@ ==> #[trigger] table_entries(d, t) == text_table_entries(contents@, t))
                && out@ == document_text(d)),
{
    let mut doc = match parse_document(contents) {
        Ok(doc) => doc,
        Err(message) => return Err(ManifestEditError::Parse(message)),
    };
    proof {
        assert(table_entries(doc, "dependencies"@) == text_table_entries(contents@, "dependencies"@));
    }
    if !remove_entry(&mut doc, "dependencies", coordinate) {
        return Ok(None);
    }
    let out = render_document(&doc);
    proof {
        assert(table_entries(doc, "dependencies"@) == Some(
            text_table_entries(contents@, "dependencies"@)->0.remove(coordinate@),
        ) && out@ == document_text(doc));
    }
    Ok(Some(out))
}

} // verus!
