//! `jvmfast init`: a minimal `project.toml` for a new project.
use crate::lockfile::strings_view;
use crate::paths::{file_name_of, file_name_upto};
use crate::text::{quote, quoted, str_eq};
use vstd::prelude::*;

verus! {

/// The `Main.java` placeholder written into `src/main/java`.
pub const MAIN_JAVA_TEMPLATE: &'static str = "public class Main {\n    public static void main(String[] args) {\n        System.out.println(\"Hello, World!\");\n    }\n}\n";

/// Notes about the defaults that were applied.
#[derive(Debug, Clone, PartialEq, Eq)]
pub struct InitReport {
    pub notes: Vec<String>,
}

/// Refusals of `init`; paths are given as text.
#[derive(Debug, Clone, PartialEq, Eq)]
pub enum InitError {
    /// `project.toml` already exists: the project is already initialized.
    ManifestAlreadyExists(String),
    /// A `pom.xml` exists: `import-pom` keeps its dependencies, `init` would drop them.
    PomXmlDetected(String),
    /// The directory gives no usable name; an explicit `--name` is needed.
    CouldNotDeriveName(String),
}

/// The text of the manifest that `init` writes.
pub open spec fn init_manifest_text(name: Seq<char>, java_version: Seq<char>, main_class: Option<Seq<char>>) -> Seq<char> {
    "[project]\n"@ + "name = "@ + quoted(name) + "\n"@ + "version = \"0.1.0\"\n"@ + "java-version = "@ + quoted(java_version)
        + "\n"@ + match main_class {
        Some(m) => "\n[run]\n"@ + "main-class = "@ + quoted(m) + "\n"@,
        None => Seq::empty(),
    } + "\n[dependencies]\n"@
}

/// `[project]` with the name, version `0.1.0` and the Java version; `[run]` with the
/// main class when there is one; and an empty `[dependencies]`.
pub fn render_manifest(name: &str, java_version: &str, main_class: Option<&str>) -> (res: String)
    ensures
        res@ == init_manifest_text(
            name@,
            java_version@,
            match main_class {
                Some(m) => Some(m@),
                None => None,
            },
        ),
{
    let mut out = String::from_str("[project]\n");
    out.append("name = ");
    let q = quote(name);
    out.append(q.as_str());
    out.append("\n");
    out.append("version = \"0.1.0\"\n");
    out.append("java-version = ");
    let q = quote(java_version);
    out.append(q.as_str());
    out.append("\n");
    let ghost head = out@;
    match main_class {
        Some(main_class) => {
            out.append("\n[run]\n");
            out.append("main-class = ");
            let q = quote(main_class);
            out.append(q.as_str());
            out.append("\n");
            assert(out@ =~= head + ("\n[run]\n"@ + "main-class = "@ + quoted(main_class@) + "\n"@));
        },
        None => {},
    }
    out.append("\n[dependencies]\n");
    out
}

/// The first check that refuses to initialize: an existing manifest, then an
/// existing `pom.xml`.
pub fn check_init_targets(manifest_exists: bool, manifest_path: &str, pom_exists: bool, pom_path: &str) -> (res: Result<(), InitError>)
    ensures
        manifest_exists ==> (res matches Err(InitError::ManifestAlreadyExists(p)) && p@ == manifest_path@),
        !manifest_exists && pom_exists ==> (res matches Err(InitError::PomXmlDetected(p)) && p@ == pom_path@),
        !manifest_exists && !pom_exists ==> res is Ok,
{
    if manifest_exists {
        return Err(InitError::ManifestAlreadyExists(String::from_str(manifest_path)));
    }
    if pom_exists {
        return Err(InitError::PomXmlDetected(String::from_str(pom_path)));
    }
    Ok(())
}

pub open spec fn note_derived_name(name: Seq<char>) -> Seq<char> {
    "no --name given, derived \""@ + name + "\" from the directory name"@
}

pub open spec fn note_default_java() -> Seq<char> {
    "no --java-version given, defaulted to \"lts\""@
}

pub open spec fn note_existing_sources() -> Seq<char> {
    "src/main/java already contains .java files — skipped writing a Main.java placeholder"@
}

/// What `init` writes once its checks passed.
#[derive(Debug, Clone, PartialEq, Eq)]
pub struct InitPlan {
    pub manifest: String,
    /// Whether to write `src/main/java/Main.java` from `MAIN_JAVA_TEMPLATE`.
    pub write_main_java: bool,
    pub report: InitReport,
}

pub open spec fn init_notes(name: Seq<char>, name_derived: bool, java_given: bool, has_existing_sources: bool) -> Seq<Seq<char>> {
    let a = if name_derived {
        seq![note_derived_name(name)]
    } else {
        Seq::empty()
    };
    let b = if java_given {
        a
    } else {
        a.push(note_default_java())
    };
    if has_existing_sources {
        b.push(note_existing_sources())
    } else {
        b
    }
}

/// The manifest and notes of `init`: the name (`name_derived` when it came from
/// the directory), the Java version (`"lts"` when none is given), and a `Main`
/// class with its placeholder unless `src/main/java` already holds `.java` files.
pub fn plan_init(name: &str, name_derived: bool, java_version: Option<&str>, has_existing_sources: bool) -> (res: InitPlan)
    ensures
        res.manifest@ == init_manifest_text(
            name@,
            match java_version {
                Some(v) => v@,
                None => "lts"@,
            },
            if has_existing_sources {
                None
            } else {
                Some("Main"@)
            },
        ),
        res.write_main_java == !has_existing_sources,
        strings_view(res.report.notes@) == init_notes(name@, name_derived, java_version is Some, has_existing_sources),
{
    let mut notes: Vec<String> = Vec::new();
    if name_derived {
        let mut note = String::from_str("no --name given, derived \"");
        note.append(name);
        note.append("\" from the directory name");
        notes.push(note);
    }
    let java = match java_version {
        Some(v) => v,
        None => {
            notes.push(String::from_str("no --java-version given, defaulted to \"lts\""));
            "lts"
        },
    };
    let main_class = if has_existing_sources {
        notes.push(String::from_str("src/main/java already contains .java files — skipped writing a Main.java placeholder"));
        None
    } else {
        Some("Main")
    };
    let manifest = render_manifest(name, java, main_class);
    proof {
        assert(strings_view(notes@) =~= init_notes(name@, name_derived, java_version is Some, has_existing_sources));
    }
    InitPlan { manifest, write_main_java: !has_existing_sources, report: InitReport { notes } }
}

/// The project name derived from the directory: the last component of its
/// canonical path `canonical`; `CouldNotDeriveName(project_dir)` when it has none.
pub fn derive_name(project_dir: &str, canonical: &str) -> (res: Result<String, InitError>)
    ensures
        match file_name_of(canonical@) {
            Some(n) => res matches Ok(s) && s@ == n,
            None => res matches Err(InitError::CouldNotDeriveName(d)) && d@ == project_dir@,
        },
{
    let n = canonical.unicode_len();
    proof {
        assert(canonical@.take(n as int) =~= canonical@);
    }
    match file_name_upto(canonical, n) {
        Some(name) => Ok(name),
        None => Err(InitError::CouldNotDeriveName(String::from_str(project_dir))),
    }
}

/// The message shown after `init`: where the manifest was written, then one line
/// per note.
pub open spec fn init_summary(root: Seq<char>, notes: Seq<Seq<char>>) -> Seq<char>
    decreases notes.len(),
{
    if notes.len() == 0 {
        "project.toml written at "@ + root
    } else {
        init_summary(root, notes.drop_last()) + "\n  - "@ + notes.last()
    }
}

pub fn format_init_summary(root: &str, report: &InitReport) -> (res: String)
    ensures
        res@ == init_summary(root@, strings_view(report.notes@)),
{
    let mut summary = String::from_str("project.toml written at ");
    summary.append(root);
    let ghost ns = strings_view(report.notes@);
    let mut i: usize = 0;
    proof {
        assert(ns.take(0) =~= Seq::<Seq<char>>::empty());
    }
    while i < report.notes.len()
        invariant
            ns == strings_view(report.notes@),
            i <= report.notes@.len(),
            summary@ == init_summary(root@, ns.take(i as int)),
        decreases report.notes@.len() - i,
    {
        proof {
            assert(ns.take(i + 1).drop_last() =~= ns.take(i as int));
            assert(ns.take(i + 1).last() == report.notes@[i as int]@);
        }
        summary.append("\n  - ");
        summary.append(report.notes[i].as_str());
        i = i + 1;
    }
    proof {
        assert(ns.take(i as int) =~= ns);
    }
    summary
}

} // verus!
