//! The global `config.toml`: setting `[defaults].java-version` in its text.
use crate::toml_doc::{document_text, parse_document, render_document, set_string_entry, table_entries, table_is_settable, text_table_entries, toml_parses};
use vstd::prelude::*;

verus! {

/// Failures of a `config.toml` edit that do not come from the file system.
#[derive(Debug, Clone, PartialEq, Eq)]
pub enum ConfigError {
    /// The file is not valid TOML; toml_edit's message.
    TomlEdit(String),
    /// `defaults` holds something other than a table.
    DefaultsNotATable,
}

/// `contents` (empty for a file not written yet) with `[defaults]` holding
/// `java-version = "version"`; the rest of the file is kept.
pub fn set_default_java_version_text(contents: &str, version: &str) -> (res: Result<String, ConfigError>)
    ensures
        !toml_parses(contents@) ==> res matches Err(ConfigError::TomlEdit(_)),
        toml_parses(contents@) && text_table_entries(contents@, "defaults"@) is None ==> res == Err::<
            String,
            ConfigError,
        >(ConfigError::DefaultsNotATable),
        toml_parses(contents@) && text_table_entries(contents@, "defaults"@) is Some ==> (res matches Ok(out)
            && exists|d: toml_edit::DocumentMut|
            #![trigger document_text(d)]
            table_entries(d, "defaults"@) == Some(
                text_table_entries(contents@, "defaults"@)->0.insert("java-version"@, Some(version@)),
            ) && (forall|t: Seq<char>|
                t != "defaults"@ ==> #[trigger] table_entries(d, t) == text_table_entries(contents@, t))
                && out@ == document_text(d)),
{
    let mut doc = match parse_document(contents) {
        Ok(doc) => doc,
        Err(message) => return Err(ConfigError::TomlEdit(message)),
    };
    proof {
        assert(table_entries(doc, "defaults"@) == text_table_entries(contents@, "defaults"@));
    }
    if !table_is_settable(&doc, "defaults") {
        return Err(ConfigError::DefaultsNotATable);
    }
    set_string_entry(&mut doc, "defaults", "java-version", version);
    let out = render_document(&doc);
    proof {
        assert(table_entries(doc, "defaults"@) == Some(
            text_table_entries(contents@, "defaults"@)->0.insert("java-version"@, Some(version@)),
        ) && out@ == document_text(doc));
    }
    Ok(out)
}

} // verus!
