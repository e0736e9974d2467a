//! `jvmfast import-gradle`: the init-script handed to Gradle, and a `project.toml`
//! from the dependency model that the Tooling API bridge reports.
use crate::import::generate::{entries_view, manifest_text, render_manifest, ImportedVersion};
use crate::import::{ImportPlan, ImportReport};
use crate::lockfile::strings_view;
use crate::text::{escape_quotes, push_escaped, quoted, str_eq, to_decimal, decimal};
use vstd::prelude::*;

verus! {

/// The dependency model printed by the bridge: one entry per Gradle project.
#[derive(Debug, Clone, PartialEq, Eq)]
pub struct BridgeModel {
    pub modules: Vec<BridgeModule>,
}

#[derive(Debug, Clone, PartialEq, Eq)]
pub struct BridgeModule {
    pub name: String,
    pub version: String,
    pub dependencies: Vec<BridgeDependency>,
}

/// A resolved dependency of one Gradle configuration.
#[derive(Debug, Clone, PartialEq, Eq)]
pub struct BridgeDependency {
    pub coordinate: String,
    pub version: String,
    pub configuration: String,
}

/// Refusals of `import-gradle` that do not come from the system.
#[derive(Debug, Clone, PartialEq, Eq)]
pub enum GradleImportError {
    /// The manifest at this path already exists; it is never overwritten.
    ManifestAlreadyExists(String),
    /// The project at this path has no `gradlew`: the Tooling API needs one.
    GradlewNotFound(String),
    /// The bridge exited with this status and error output.
    BridgeFailed { status: i32, stderr: String },
    /// The bridge reported no Gradle project.
    NoModulesInBridgeOutput,
}

/// `raw` with `\` and `"` escaped, for a Groovy double-quoted string.
pub fn escape_groovy_string(raw: &str) -> (res: String)
    ensures
        res@ == escape_quotes(raw@),
{
    let mut out = String::new();
    push_escaped(&mut out, raw);
    proof {
        assert(out@ =~= escape_quotes(raw@));
    }
    out
}

/// The init-script that applies the model builder plugin to every project of the
/// build, with the bridge jar at `bridge_jar` on its classpath.
pub open spec fn init_script_text(bridge_jar: Seq<char>) -> Seq<char> {
    "initscript {\n    dependencies {\n        classpath(files(\""@ + escape_quotes(bridge_jar)
        + "\"))\n    }\n}\n\nallprojects {\n    apply plugin: dev.jvmfast.gradlebridge.JvmfastModelBuilderPlugin\n}\n"@
}

pub fn init_script_contents(bridge_jar: &str) -> (res: String)
    ensures
        res@ == init_script_text(bridge_jar@),
{
    let mut out = String::from_str("initscript {\n    dependencies {\n        classpath(files(\"");
    push_escaped(&mut out, bridge_jar);
    out.append("\"))\n    }\n}\n\nallprojects {\n    apply plugin: dev.jvmfast.gradlebridge.JvmfastModelBuilderPlugin\n}\n");
    out
}

pub open spec fn coordinates(es: Seq<(Seq<char>, Option<Seq<char>>)>) -> Seq<Seq<char>> {
    es.map_values(|e: (Seq<char>, Option<Seq<char>>)| e.0)
}

/// Main dependencies: those of `compileClasspath` and `runtimeClasspath`, each
/// coordinate once (its first occurrence), with the version Gradle resolved.
pub open spec fn main_dependencies(deps: Seq<BridgeDependency>) -> Seq<(Seq<char>, Option<Seq<char>>)>
    decreases deps.len(),
{
    if deps.len() == 0 {
        Seq::empty()
    } else {
        let acc = main_dependencies(deps.drop_last());
        let d = deps.last();
        if (d.configuration@ == "compileClasspath"@ || d.configuration@ == "runtimeClasspath"@) && !coordinates(
            acc,
        ).contains(d.coordinate@) {
            acc.push((d.coordinate@, Some(d.version@)))
        } else {
            acc
        }
    }
}

/// Dev dependencies: those of `testCompileClasspath` that are not main
/// dependencies, each coordinate once.
pub open spec fn dev_dependencies(deps: Seq<BridgeDependency>, main: Seq<Seq<char>>) -> Seq<(Seq<char>, Option<Seq<char>>)>
    decreases deps.len(),
{
    if deps.len() == 0 {
        Seq::empty()
    } else {
        let acc = dev_dependencies(deps.drop_last(), main);
        let d = deps.last();
        if d.configuration@ == "testCompileClasspath"@ && !main.contains(d.coordinate@) && !coordinates(acc).contains(
            d.coordinate@,
        ) {
            acc.push((d.coordinate@, Some(d.version@)))
        } else {
            acc
        }
    }
}

pub open spec fn note_many_modules(n: nat) -> Seq<char> {
    "gradle build has "@ + decimal(n)
        + " modules — jvmfast import-gradle only imports the first one today (multi-project import is Fase 5 scope)"@
}

pub open spec fn note_unspecified_version() -> Seq<char> {
    "gradle project has no version set — defaulted to \"0.1.0\", adjust manually if needed"@
}

pub open spec fn note_java_unknown() -> Seq<char> {
    "java-version could not be read from the Gradle model (not exposed by JvmfastDependencyModel yet) — defaulted to \"lts\", adjust manually if needed"@
}

pub open spec fn note_versions_as_resolved() -> Seq<char> {
    "dependency versions were imported exactly as Gradle resolved them; a subsequent `jvmfast update` may select different versions, since jvm-fast mediates conflicts by nearest-depth-wins while Gradle uses highest-version-wins (seção 6.2)"@
}

pub open spec fn note_no_repositories() -> Seq<char> {
    "no [repositories] were generated — jvm-fast defaults to Maven Central; add [repositories].default manually if the Gradle build used a different repository"@
}

/// The version written for the module: Gradle's `unspecified` becomes `0.1.0`.
pub open spec fn gradle_version(v: Seq<char>) -> Seq<char> {
    if v == "unspecified"@ {
        "0.1.0"@
    } else {
        v
    }
}

pub open spec fn gradle_notes(model_len: nat, version: Seq<char>) -> Seq<Seq<char>> {
    let a = if model_len > 1 {
        seq![note_many_modules(model_len)]
    } else {
        Seq::empty()
    };
    let b = if version == "unspecified"@ {
        a.push(note_unspecified_version())
    } else {
        a
    };
    b.push(note_java_unknown()).push(note_versions_as_resolved()).push(note_no_repositories())
}

fn has_coordinate(es: &Vec<(String, ImportedVersion)>, c: &String) -> (res: bool)
    ensures
        res == coordinates(entries_view(es@)).contains(c@),
{
    let ghost cs = coordinates(entries_view(es@));
    let mut i: usize = 0;
    while i < es.len()
        invariant
            cs == coordinates(entries_view(es@)),
            i <= es@.len(),
            forall|j: int| 0 <= j < i ==> cs[j] != c@,
        decreases es@.len() - i,
    {
        proof {
            assert(cs[i as int] == es@[i as int].0@);
        }
        if str_eq(es[i].0.as_str(), c.as_str()) {
            return true;
        }
        i = i + 1;
    }
    false
}

fn collect_main(deps: &Vec<BridgeDependency>) -> (res: Vec<(String, ImportedVersion)>)
    ensures
        entries_view(res@) == main_dependencies(deps@),
{
    let mut out: Vec<(String, ImportedVersion)> = Vec::new();
    let mut i: usize = 0;
    proof {
        assert(deps@.take(0) =~= Seq::<BridgeDependency>::empty());
        assert(entries_view(out@) =~= Seq::<(Seq<char>, Option<Seq<char>>)>::empty());
    }
    while i < deps.len()
        invariant
            i <= deps@.len(),
            entries_view(out@) == main_dependencies(deps@.take(i as int)),
        decreases deps@.len() - i,
    {
        let d = &deps[i];
        proof {
            assert(deps@.take(i + 1).drop_last() =~= deps@.take(i as int));
            assert(deps@.take(i + 1).last() == *d);
            reveal_strlit("compileClasspath");
            reveal_strlit("runtimeClasspath");
        }
        if (str_eq(d.configuration.as_str(), "compileClasspath") || str_eq(d.configuration.as_str(), "runtimeClasspath"))
            && !has_coordinate(&out, &d.coordinate) {
            let ghost before = out@;
            out.push((d.coordinate.clone(), ImportedVersion::Explicit(d.version.clone())));
            proof {
                assert(entries_view(out@) =~= entries_view(before).push((d.coordinate@, Some(d.version@))));
            }
        }
        i = i + 1;
    }
    proof {
        assert(deps@.take(i as int) =~= deps@);
    }
    out
}

fn collect_dev(deps: &Vec<BridgeDependency>, main: &Vec<(String, ImportedVersion)>) -> (res: Vec<(String, ImportedVersion)>)
    ensures
        entries_view(res@) == dev_dependencies(deps@, coordinates(entries_view(main@))),
{
    let ghost m = coordinates(entries_view(main@));
    let mut out: Vec<(String, ImportedVersion)> = Vec::new();
    let mut i: usize = 0;
    proof {
        assert(deps@.take(0) =~= Seq::<BridgeDependency>::empty());
        assert(entries_view(out@) =~= Seq::<(Seq<char>, Option<Seq<char>>)>::empty());
    }
    while i < deps.len()
        invariant
            i <= deps@.len(),
            m == coordinates(entries_view(main@)),
            entries_view(out@) == dev_dependencies(deps@.take(i as int), m),
        decreases deps@.len() - i,
    {
        let d = &deps[i];
        proof {
            assert(deps@.take(i + 1).drop_last() =~= deps@.take(i as int));
            assert(deps@.take(i + 1).last() == *d);
            reveal_strlit("testCompileClasspath");
        }
        if str_eq(d.configuration.as_str(), "testCompileClasspath") && !has_coordinate(main, &d.coordinate)
            && !has_coordinate(&out, &d.coordinate) {
            let ghost before = out@;
            out.push((d.coordinate.clone(), ImportedVersion::Explicit(d.version.clone())));
            proof {
                assert(entries_view(out@) =~= entries_view(before).push((d.coordinate@, Some(d.version@))));
            }
        }
        i = i + 1;
    }
    proof {
        assert(deps@.take(i as int) =~= deps@);
    }
    out
}

/// The manifest and report of `import-gradle` for the model the bridge printed:
/// only the first Gradle project is imported (a note says so when there are
/// more), `unspecified` versions become `0.1.0`, the Java version is `lts`, and no
/// BOM, exclusion or repository is written.
pub fn plan_gradle_import(model: &BridgeModel) -> (res: Result<ImportPlan, GradleImportError>)
    ensures
        model.modules@.len() == 0 ==> res == Err::<ImportPlan, GradleImportError>(
            GradleImportError::NoModulesInBridgeOutput,
        ),
        model.modules@.len() > 0 ==> ({
            let m = model.modules@[0];
            let main = main_dependencies(m.dependencies@);
            &&& res matches Ok(plan)
            &&& plan.manifest@ == manifest_text(
                m.name@,
                gradle_version(m.version@),
                "lts"@,
                None,
                main,
                dev_dependencies(m.dependencies@, coordinates(main)),
                Seq::empty(),
                Seq::empty(),
                Seq::empty(),
            )
            &&& strings_view(plan.report.notes@) == gradle_notes(model.modules@.len(), m.version@)
        }),
{
    if model.modules.len() == 0 {
        return Err(GradleImportError::NoModulesInBridgeOutput);
    }
    let module = &model.modules[0];
    let mut notes: Vec<String> = Vec::new();
    if model.modules.len() > 1 {
        let mut note = String::from_str("gradle build has ");
        let n = to_decimal(model.modules.len());
        note.append(n.as_str());
        note.append(" modules — jvmfast import-gradle only imports the first one today (multi-project import is Fase 5 scope)");
        notes.push(note);
    }
    proof {
        reveal_strlit("unspecified");
    }
    let version = if str_eq(module.version.as_str(), "unspecified") {
        notes.push(String::from_str("gradle project has no version set — defaulted to \"0.1.0\", adjust manually if needed"));
        String::from_str("0.1.0")
    } else {
        module.version.clone()
    };
    notes.push(
        String::from_str(
            "java-version could not be read from the Gradle model (not exposed by JvmfastDependencyModel yet) — defaulted to \"lts\", adjust manually if needed",
        ),
    );
    notes.push(
        String::from_str(
            "dependency versions were imported exactly as Gradle resolved them; a subsequent `jvmfast update` may select different versions, since jvm-fast mediates conflicts by nearest-depth-wins while Gradle uses highest-version-wins (seção 6.2)",
        ),
    );
    notes.push(
        String::from_str(
            "no [repositories] were generated — jvm-fast defaults to Maven Central; add [repositories].default manually if the Gradle build used a different repository",
        ),
    );
    let dependencies = collect_main(&module.dependencies);
    let dev = collect_dev(&module.dependencies, &dependencies);
    let no_boms: Vec<(String, String)> = Vec::new();
    let no_exclusions: Vec<(String, Vec<String>)> = Vec::new();
    let no_repositories: Vec<(String, String)> = Vec::new();
    let manifest = render_manifest(
        module.name.as_str(),
        version.as_str(),
        "lts",
        None,
        dependencies.as_slice(),
        dev.as_slice(),
        no_boms.as_slice(),
        no_exclusions.as_slice(),
        no_repositories.as_slice(),
    );
    proof {
        assert(strings_view(notes@) =~= gradle_notes(model.modules@.len(), module.version@));
        assert(crate::bom::pairs_view(no_boms@) =~= Seq::<(Seq<char>, Seq<char>)>::empty());
        assert(crate::import::generate::lists_of(no_exclusions@) =~= Seq::<(Seq<char>, Seq<Seq<char>>)>::empty());
        assert(crate::bom::pairs_view(no_repositories@) =~= Seq::<(Seq<char>, Seq<char>)>::empty());
    }
    Ok(ImportPlan { manifest, report: ImportReport { notes } })
}

proof fn lemma_coordinates_push(acc: Seq<(Seq<char>, Option<Seq<char>>)>, e: (Seq<char>, Option<Seq<char>>))
    ensures
        coordinates(acc.push(e)) == coordinates(acc).push(e.0),
{
    assert(coordinates(acc.push(e)) =~= coordinates(acc).push(e.0));
}

/// The `[project]` table of an imported Gradle project names the module and
/// carries its version: the Gradle version itself whenever it is not
/// `unspecified`; for `unspecified` it carries `0.1.0`, and the report then holds
/// the note that says so.
pub proof fn law_imported_version_is_the_module_version(model: BridgeModel)
    requires
        model.modules@.len() > 0,
    ensures
        ({
            let m = model.modules@[0];
            let main = main_dependencies(m.dependencies@);
            let text = manifest_text(
                m.name@,
                gradle_version(m.version@),
                "lts"@,
                None,
                main,
                dev_dependencies(m.dependencies@, coordinates(main)),
                Seq::empty(),
                Seq::empty(),
                Seq::empty(),
            );
            &&& m.version@ != "unspecified"@ ==> exists|rest: Seq<char>|
                text == "[project]\n"@ + "name = "@ + quoted(m.name@) + "\n"@ + "version = "@ + quoted(m.version@) + "\n"@
                    + rest
            &&& m.version@ == "unspecified"@ ==> exists|rest: Seq<char>|
                text == "[project]\n"@ + "name = "@ + quoted(m.name@) + "\n"@ + "version = "@ + quoted("0.1.0"@) + "\n"@
                    + rest
            &&& m.version@ == "unspecified"@ ==> gradle_notes(model.modules@.len(), m.version@).contains(
                note_unspecified_version(),
            )
        }),
{
    let m = model.modules@[0];
    let main = main_dependencies(m.dependencies@);
    let v = gradle_version(m.version@);
    let text = manifest_text(
        m.name@,
        v,
        "lts"@,
        None,
        main,
        dev_dependencies(m.dependencies@, coordinates(main)),
        Seq::empty(),
        Seq::empty(),
        Seq::empty(),
    );
    let prefix = "[project]\n"@ + "name = "@ + quoted(m.name@) + "\n"@ + "version = "@ + quoted(v) + "\n"@;
    let pt = crate::import::generate::project_text(m.name@, v, "lts"@, None);
    let tail = text.skip(pt.len() as int);
    assert(text =~= pt + tail);
    let rest = pt.skip(prefix.len() as int) + tail;
    assert(pt =~= prefix + pt.skip(prefix.len() as int));
    assert(text =~= prefix + rest);
    if m.version@ == "unspecified"@ {
        let notes = gradle_notes(model.modules@.len(), m.version@);
        let a = if model.modules@.len() > 1 {
            seq![note_many_modules(model.modules@.len())]
        } else {
            Seq::empty()
        };
        let b = a.push(note_unspecified_version());
        assert(notes == b.push(note_java_unknown()).push(note_versions_as_resolved()).push(note_no_repositories()));
        assert(notes[a.len() as int] == note_unspecified_version());
    }
}

proof fn lemma_push_no_duplicates(s: Seq<Seq<char>>, x: Seq<char>)
    requires
        s.no_duplicates(),
        !s.contains(x),
    ensures
        s.push(x).no_duplicates(),
{
    assert forall|i: int, j: int| 0 <= i < s.push(x).len() && 0 <= j < s.push(x).len() && i != j implies s.push(x)[i]
        != s.push(x)[j] by {
        if i < s.len() && j < s.len() {
        } else if i == s.len() {
            assert(s[j] == s.push(x)[j]);
        } else {
            assert(s[i] == s.push(x)[i]);
        }
    }
}

/// Every coordinate is imported at most once: main dependencies have distinct
/// coordinates, and dev dependencies have distinct coordinates none of which is a
/// main dependency.
pub proof fn law_imported_coordinates_distinct(deps: Seq<BridgeDependency>)
    ensures
        coordinates(main_dependencies(deps)).no_duplicates(),
        coordinates(dev_dependencies(deps, coordinates(main_dependencies(deps)))).no_duplicates(),
        forall|c: Seq<char>|
            #[trigger] coordinates(dev_dependencies(deps, coordinates(main_dependencies(deps)))).contains(c)
                ==> !coordinates(main_dependencies(deps)).contains(c),
{
    lemma_main_distinct(deps);
    lemma_dev_distinct(deps, coordinates(main_dependencies(deps)));
}

proof fn lemma_main_distinct(deps: Seq<BridgeDependency>)
    ensures
        coordinates(main_dependencies(deps)).no_duplicates(),
    decreases deps.len(),
{
    if deps.len() > 0 {
        lemma_main_distinct(deps.drop_last());
        let acc = main_dependencies(deps.drop_last());
        let d = deps.last();
        if main_dependencies(deps) != acc {
            lemma_coordinates_push(acc, (d.coordinate@, Some(d.version@)));
            lemma_push_no_duplicates(coordinates(acc), d.coordinate@);
        }
    }
}

proof fn lemma_dev_distinct(deps: Seq<BridgeDependency>, main: Seq<Seq<char>>)
    ensures
        coordinates(dev_dependencies(deps, main)).no_duplicates(),
        forall|c: Seq<char>| #[trigger] coordinates(dev_dependencies(deps, main)).contains(c) ==> !main.contains(c),
    decreases deps.len(),
{
    if deps.len() > 0 {
        lemma_dev_distinct(deps.drop_last(), main);
        let acc = dev_dependencies(deps.drop_last(), main);
        let d = deps.last();
        if dev_dependencies(deps, main) != acc {
            lemma_coordinates_push(acc, (d.coordinate@, Some(d.version@)));
            lemma_push_no_duplicates(coordinates(acc), d.coordinate@);
            assert forall|c: Seq<char>| #[trigger] coordinates(dev_dependencies(deps, main)).contains(c) implies !main.contains(
                c,
            ) by {
                let cs = coordinates(acc).push(d.coordinate@);
                let i = choose|i: int| 0 <= i < cs.len() && cs[i] == c;
                if i < coordinates(acc).len() {
                    assert(coordinates(acc)[i] == c);
                    assert(coordinates(acc).contains(c));
                }
            }
        }
    }
}

/// The checks `import-gradle` makes before running the bridge: an existing manifest
/// is never overwritten, and the project needs its `gradlew`.
pub fn check_gradle_targets(
    manifest_exists: bool,
    manifest_path: &str,
    gradlew_exists: bool,
    project_dir: &str,
) -> (res: Result<(), GradleImportError>)
    ensures
        manifest_exists ==> (res matches Err(GradleImportError::ManifestAlreadyExists(p)) && p@ == manifest_path@),
        !manifest_exists && !gradlew_exists ==> (res matches Err(GradleImportError::GradlewNotFound(p)) && p@
            == project_dir@),
        !manifest_exists && gradlew_exists ==> res is Ok,
{
    if manifest_exists {
        return Err(GradleImportError::ManifestAlreadyExists(String::from_str(manifest_path)));
    }
    if !gradlew_exists {
        return Err(GradleImportError::GradlewNotFound(String::from_str(project_dir)));
    }
    Ok(())
}

/// The bridge's exit: a failure carries its status (-1 when a signal ended it)
/// and its error output without surrounding whitespace.
pub fn bridge_outcome(success: bool, code: Option<i32>, stderr: &str) -> (res: Result<(), GradleImportError>)
    ensures
        success ==> res is Ok,
        !success ==> (res matches Err(GradleImportError::BridgeFailed { status, stderr: e }) && status == match code {
            Some(c) => c,
            None => -1i32,
        } && e@ == crate::text::trimmed(stderr@)),
{
    if success {
        return Ok(());
    }
    let status = match code {
        Some(c) => c,
        None => -1,
    };
    Err(GradleImportError::BridgeFailed { status, stderr: String::from_str(crate::text::trim(stderr)) })
}

} // verus!
