//! `jvmfast import-pom`: a `project.toml` from a parsed `pom.xml`.
pub mod convert;
pub mod generate;
pub mod interp;
pub mod range;

use crate::bom::pairs_view;
use crate::graph::{lookup_value, table_get};
use crate::import::convert::{
    boms_of, convert_all, convert_boms, convert_dependencies, convert_repositories, java_choice, note_extra_repositories,
    note_no_java_version, repository_key, resolve_java_version,
};
use crate::import::generate::{manifest_text, render_manifest};
use crate::lockfile::strings_view;
use crate::text::{decimal, to_decimal};
use crate::pom::{ManagedDependencyEntry, ParsedPom};
use vstd::prelude::*;

verus! {

/// What was left out of the generated manifest and needs manual attention; an
/// import never fails on these.
#[derive(Debug, Clone, PartialEq, Eq)]
pub struct ImportReport {
    pub notes: Vec<String>,
}

/// Refusals of `import-pom`.
#[derive(Debug, Clone, PartialEq, Eq)]
pub enum ImportError {
    /// The manifest at this path already exists; it is never overwritten.
    ManifestAlreadyExists(String),
    /// The POM has no direct `<project><artifactId>` (parent POMs are not followed).
    MissingArtifactId,
    /// The POM has no direct `<project><version>`.
    MissingVersion,
}

/// The manifest to write and the report to show.
#[derive(Debug, Clone, PartialEq, Eq)]
pub struct ImportPlan {
    pub manifest: String,
    pub report: ImportReport,
}

pub open spec fn has_bom_import(managed: Seq<ManagedDependencyEntry>) -> bool {
    exists|i: int| 0 <= i < managed.len() && (#[trigger] managed[i]).is_bom_import
}

/// `[repositories]` entries of a POM's repositories.
pub open spec fn repositories_of(repos: Seq<(String, String)>) -> Seq<(Seq<char>, Seq<char>)> {
    Seq::new(repos.len(), |i: int| (repository_key(repos[i].0@, i as nat), repos[i].1@))
}

pub open spec fn note_profiles() -> Seq<char> {
    "pom.xml declares <profiles> — profiles have no jvm-fast equivalent and were not imported"@
}

pub open spec fn note_plugins() -> Seq<char> {
    "pom.xml declares <build><plugins> — plugins have no jvm-fast equivalent and were not imported"@
}

/// The Java version written for a POM.
pub open spec fn imported_java_version(pom: ParsedPom) -> Seq<char> {
    match java_choice(pairs_view(pom.properties@)) {
        Some(v) => v,
        None => "lts"@,
    }
}

/// Notes gathered before converting dependencies.
pub open spec fn java_notes(pom: ParsedPom) -> Seq<Seq<char>> {
    if java_choice(pairs_view(pom.properties@)) is Some {
        Seq::empty()
    } else {
        seq![note_no_java_version()]
    }
}

/// The manifest written for a POM with an artifact id and a version.
pub open spec fn imported_manifest(pom: ParsedPom) -> Seq<char> {
    let props = pairs_view(pom.properties@);
    let c = convert_all(pom.dependencies@, props, has_bom_import(pom.managed_dependencies@), java_notes(pom));
    let boms = boms_of(pom.managed_dependencies@, props, c.notes).0;
    manifest_text(
        pom.project_artifact_id@,
        pom.project_version@,
        imported_java_version(pom),
        table_get(props, "project.build.sourceEncoding"@),
        c.dependencies,
        c.dev_dependencies,
        boms,
        c.exclusions,
        repositories_of(pom.repositories@),
    )
}

/// The notes of an import: Java version, dependencies, BOMs, repositories, then
/// profiles and plugins.
pub open spec fn imported_notes(pom: ParsedPom) -> Seq<Seq<char>> {
    let props = pairs_view(pom.properties@);
    let c = convert_all(pom.dependencies@, props, has_bom_import(pom.managed_dependencies@), java_notes(pom));
    let n1 = boms_of(pom.managed_dependencies@, props, c.notes).1;
    let n2 = if pom.repositories@.len() > 1 {
        n1.push(note_extra_repositories((pom.repositories@.len() - 1) as nat))
    } else {
        n1
    };
    let n3 = if pom.has_profiles {
        n2.push(note_profiles())
    } else {
        n2
    };
    if pom.has_plugins {
        n3.push(note_plugins())
    } else {
        n3
    }
}

fn any_bom_import(managed: &Vec<ManagedDependencyEntry>) -> (res: bool)
    ensures
        res == has_bom_import(managed@),
{
    let mut i: usize = 0;
    while i < managed.len()
        invariant
            i <= managed@.len(),
            forall|j: int| 0 <= j < i ==> !(#[trigger] managed@[j]).is_bom_import,
        decreases managed@.len() - i,
    {
        if managed[i].is_bom_import {
            return true;
        }
        i = i + 1;
    }
    false
}

/// The `project.toml` that `import-pom` writes for a parsed `pom.xml`, and its
/// report. A POM without a direct artifact id or version is refused.
pub fn plan_import(pom: &ParsedPom) -> (res: Result<ImportPlan, ImportError>)
    ensures
        pom.project_artifact_id@.len() == 0 ==> res == Err::<ImportPlan, ImportError>(ImportError::MissingArtifactId),
        pom.project_artifact_id@.len() > 0 && pom.project_version@.len() == 0 ==> res == Err::<ImportPlan, ImportError>(
            ImportError::MissingVersion,
        ),
        pom.project_artifact_id@.len() > 0 && pom.project_version@.len() > 0 ==> (res matches Ok(plan) && plan.manifest@
            == imported_manifest(*pom) && strings_view(plan.report.notes@) == imported_notes(*pom)),
{
    if pom.project_artifact_id.as_str().unicode_len() == 0 {
        return Err(ImportError::MissingArtifactId);
    }
    if pom.project_version.as_str().unicode_len() == 0 {
        return Err(ImportError::MissingVersion);
    }
    let ghost props = pairs_view(pom.properties@);
    let mut notes: Vec<String> = Vec::new();
    let java_version = resolve_java_version(&pom.properties, &mut notes);
    proof {
        assert(strings_view(notes@) =~= java_notes(*pom));
    }
    let source_encoding = lookup_value(&pom.properties, "project.build.sourceEncoding");
    let has_bom = any_bom_import(&pom.managed_dependencies);
    let (dependencies, dev_dependencies, exclusions) = convert_dependencies(
        pom.dependencies.as_slice(),
        &pom.properties,
        has_bom,
        &mut notes,
    );
    let boms = convert_boms(pom.managed_dependencies.as_slice(), &pom.properties, &mut notes);
    let repositories = convert_repositories(pom.repositories.as_slice(), &mut notes);
    proof {
        assert(crate::bom::pairs_view(repositories@) =~= repositories_of(pom.repositories@));
    }
    if pom.has_profiles {
        notes.push(
            String::from_str("pom.xml declares <profiles> — profiles have no jvm-fast equivalent and were not imported"),
        );
    }
    if pom.has_plugins {
        notes.push(
            String::from_str(
                "pom.xml declares <build><plugins> — plugins have no jvm-fast equivalent and were not imported",
            ),
        );
    }
    let encoding = match &source_encoding {
        Some(e) => Some(e.as_str()),
        None => None,
    };
    let manifest = render_manifest(
        pom.project_artifact_id.as_str(),
        pom.project_version.as_str(),
        java_version.as_str(),
        encoding,
        dependencies.as_slice(),
        dev_dependencies.as_slice(),
        boms.as_slice(),
        exclusions.as_slice(),
        repositories.as_slice(),
    );
    proof {
        assert(strings_view(notes@) =~= imported_notes(*pom));
    }
    Ok(ImportPlan { manifest, report: ImportReport { notes } })
}

/// The lines listing the notes of an import, each `\n  - note`.
pub open spec fn note_lines(notes: Seq<Seq<char>>) -> Seq<char>
    decreases notes.len(),
{
    if notes.len() == 0 {
        Seq::empty()
    } else {
        note_lines(notes.drop_last()) + "\n  - "@ + notes.last()
    }
}

/// The message of `import-pom`: where the manifest came from, then, when there are
/// notes, how many items need attention and one line per note.
pub open spec fn import_summary(pom_path: Seq<char>, notes: Seq<Seq<char>>) -> Seq<char> {
    if notes.len() == 0 {
        "project.toml written from "@ + pom_path
    } else {
        "project.toml written from "@ + pom_path + "\n"@ + decimal(notes.len()) + " item(s) need manual attention:"@
            + note_lines(notes)
    }
}

pub fn format_import_summary(pom_path: &str, report: &ImportReport) -> (res: String)
    ensures
        res@ == import_summary(pom_path@, strings_view(report.notes@)),
{
    let mut summary = String::from_str("project.toml written from ");
    summary.append(pom_path);
    if report.notes.len() == 0 {
        return summary;
    }
    summary.append("\n");
    let count = to_decimal(report.notes.len());
    summary.append(count.as_str());
    summary.append(" item(s) need manual attention:");
    let ghost head = summary@;
    let ghost ns = strings_view(report.notes@);
    let mut i: usize = 0;
    proof {
        assert(ns.take(0) =~= Seq::<Seq<char>>::empty());
        assert(head + note_lines(ns.take(0)) =~= head);
    }
    while i < report.notes.len()
        invariant
            ns == strings_view(report.notes@),
            i <= report.notes@.len(),
            summary@ == head + note_lines(ns.take(i as int)),
        decreases report.notes@.len() - i,
    {
        proof {
            assert(ns.take(i + 1).drop_last() =~= ns.take(i as int));
            assert(ns.take(i + 1).last() == report.notes@[i as int]@);
        }
        summary.append("\n  - ");
        summary.append(report.notes[i].as_str());
        proof {
            assert(summary@ =~= head + note_lines(ns.take(i + 1)));
        }
        i = i + 1;
    }
    proof {
        assert(ns.take(i as int) =~= ns);
    }
    summary
}

/// `import-pom` never overwrites an existing manifest.
pub fn check_import_target(manifest_exists: bool, manifest_path: &str) -> (res: Result<(), ImportError>)
    ensures
        manifest_exists ==> (res matches Err(ImportError::ManifestAlreadyExists(p)) && p@ == manifest_path@),
        !manifest_exists ==> res is Ok,
{
    if manifest_exists {
        return Err(ImportError::ManifestAlreadyExists(String::from_str(manifest_path)));
    }
    Ok(())
}

} // verus!
