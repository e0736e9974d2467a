//! From the parts of a `pom.xml` to the entries of a `project.toml`, with a note for
//! everything left out.
use crate::bom::pairs_view;
use crate::graph::{lookup_value, table_get};
use crate::import::generate::{entries_view, lists_of, ImportedVersion};
use crate::import::interp::{interp, interpolate};
use crate::import::range::{is_maven_range, maven_range, range_translation, translate_maven_range, RangeTranslation};
use crate::lockfile::strings_view;
use crate::pom::{clone_strings, ManagedDependencyEntry, PomDependency};
use crate::text::{decimal, str_eq, to_decimal};
use vstd::prelude::*;

verus! {

pub open spec fn nonempty_value(v: Option<Seq<char>>) -> Option<Seq<char>> {
    match v {
        Some(s) => if s.len() > 0 {
            Some(s)
        } else {
            None
        },
        None => None,
    }
}

/// The Java version a POM declares: the first non-empty of
/// `maven.compiler.release`, `maven.compiler.target`, `maven.compiler.source` and
/// `java.version`.
pub open spec fn java_choice(props: Seq<(Seq<char>, Seq<char>)>) -> Option<Seq<char>> {
    let release = nonempty_value(table_get(props, "maven.compiler.release"@));
    let target = nonempty_value(table_get(props, "maven.compiler.target"@));
    let source = nonempty_value(table_get(props, "maven.compiler.source"@));
    let java = nonempty_value(table_get(props, "java.version"@));
    if release is Some {
        release
    } else if target is Some {
        target
    } else if source is Some {
        source
    } else {
        java
    }
}

pub open spec fn note_no_java_version() -> Seq<char> {
    "no maven.compiler.release/target/source or java.version property found in pom.xml — defaulted java-version to \"lts\", adjust if needed"@
}

fn nonempty_lookup(properties: &Vec<(String, String)>, key: &str) -> (res: Option<String>)
    ensures
        nonempty_value(table_get(pairs_view(properties@), key@)) == match res {
            Some(s) => Some(s@),
            None => None::<Seq<char>>,
        },
{
    match lookup_value(properties, key) {
        Some(v) => if v.as_str().unicode_len() > 0 {
            Some(v)
        } else {
            None
        },
        None => None,
    }
}

/// The declared Java version, or `"lts"` with a note when the POM declares none.
pub fn resolve_java_version(properties: &Vec<(String, String)>, notes: &mut Vec<String>) -> (res: String)
    ensures
        match java_choice(pairs_view(properties@)) {
            Some(v) => res@ == v && final(notes)@ == old(notes)@,
            None => res@ == "lts"@ && strings_view(final(notes)@) == strings_view(old(notes)@).push(note_no_java_version()),
        },
{
    if let Some(v) = nonempty_lookup(properties, "maven.compiler.release") {
        return v;
    }
    if let Some(v) = nonempty_lookup(properties, "maven.compiler.target") {
        return v;
    }
    if let Some(v) = nonempty_lookup(properties, "maven.compiler.source") {
        return v;
    }
    if let Some(v) = nonempty_lookup(properties, "java.version") {
        return v;
    }
    let ghost before = notes@;
    notes.push(
        String::from_str(
            "no maven.compiler.release/target/source or java.version property found in pom.xml — defaulted java-version to \"lts\", adjust if needed",
        ),
    );
    proof {
        assert(strings_view(notes@) =~= strings_view(before).push(note_no_java_version()));
    }
    String::from_str("lts")
}

pub open spec fn note_no_version(coordinate: Seq<char>) -> Seq<char> {
    "dependency `"@ + coordinate
        + "`: no <version> and no imported BOM found in <dependencyManagement> — skipped, add a version manually"@
}

pub open spec fn note_unresolved_property(coordinate: Seq<char>, version: Seq<char>) -> Seq<char> {
    "dependency `"@ + coordinate + "`: version property in `"@ + version
        + "` could not be resolved — skipped, add a version manually"@
}

pub open spec fn note_range(coordinate: Seq<char>, version: Seq<char>) -> Seq<char> {
    "dependency `"@ + coordinate + "`: version range `"@ + version
        + "` has no direct jvm-fast equivalent — skipped, pin a version manually (seção 10)"@
}

pub open spec fn note_scope(coordinate: Seq<char>, scope: Seq<char>) -> Seq<char> {
    "dependency `"@ + coordinate + "`: scope `"@ + scope + "` has no jvm-fast equivalent — skipped, add manually if needed"@
}

/// The version written for a dependency (`Some(None)` when a BOM manages it), or
/// `None` when it is skipped; and the note explaining a skip.
pub open spec fn dependency_version(
    coordinate: Seq<char>,
    version: Seq<char>,
    props: Seq<(Seq<char>, Seq<char>)>,
    has_bom_import: bool,
) -> (Option<Option<Seq<char>>>, Option<Seq<char>>) {
    if version.len() == 0 {
        if has_bom_import {
            (Some(None), None)
        } else {
            (None, Some(note_no_version(coordinate)))
        }
    } else {
        match interp(version, props) {
            None => (None, Some(note_unresolved_property(coordinate, version))),
            Some(v) => if maven_range(v) {
                match range_translation(v) {
                    Some(d) => (Some(Some(d)), None),
                    None => (None, Some(note_range(coordinate, v))),
                }
            } else {
                (Some(Some(v)), None)
            },
        }
    }
}

pub open spec fn push_note(notes: Seq<Seq<char>>, note: Option<Seq<char>>) -> Seq<Seq<char>> {
    match note {
        Some(n) => notes.push(n),
        None => notes,
    }
}

fn concat3(a: &str, b: &str, c: &str) -> (res: String)
    ensures
        res@ == a@ + b@ + c@,
{
    let mut s = String::from_str(a);
    s.append(b);
    s.append(c);
    s
}

fn resolve_dependency_version(
    dep: &PomDependency,
    properties: &Vec<(String, String)>,
    has_bom_import: bool,
    notes: &mut Vec<String>,
) -> (res: Option<ImportedVersion>)
    ensures
        ({
            let (v, note) = dependency_version(dep.coordinate@, dep.version@, pairs_view(properties@), has_bom_import);
            &&& v == match res {
                Some(r) => Some(crate::import::generate::version_view(r)),
                None => None::<Option<Seq<char>>>,
            }
            &&& strings_view(final(notes)@) == push_note(strings_view(old(notes)@), note)
        }),
{
    let ghost before = notes@;
    if dep.version.as_str().unicode_len() == 0 {
        if has_bom_import {
            return Some(ImportedVersion::BomManaged);
        }
        let mut note = String::from_str("dependency `");
        note.append(dep.coordinate.as_str());
        note.append("`: no <version> and no imported BOM found in <dependencyManagement> — skipped, add a version manually");
        notes.push(note);
        proof {
            assert(strings_view(notes@) =~= strings_view(before).push(note_no_version(dep.coordinate@)));
        }
        return None;
    }
    let interpolated = match interpolate(dep.version.as_str(), properties) {
        Some(v) => v,
        None => {
            let mut note = concat3("dependency `", dep.coordinate.as_str(), "`: version property in `");
            note.append(dep.version.as_str());
            note.append("` could not be resolved — skipped, add a version manually");
            notes.push(note);
            proof {
                assert(strings_view(notes@) =~= strings_view(before).push(
                    note_unresolved_property(dep.coordinate@, dep.version@),
                ));
            }
            return None;
        },
    };
    if is_maven_range(interpolated.as_str()) {
        match translate_maven_range(interpolated.as_str()) {
            RangeTranslation::Direct(version) => Some(ImportedVersion::Explicit(version)),
            RangeTranslation::Unresolved => {
                let mut note = concat3("dependency `", dep.coordinate.as_str(), "`: version range `");
                note.append(interpolated.as_str());
                note.append("` has no direct jvm-fast equivalent — skipped, pin a version manually (seção 10)");
                notes.push(note);
                proof {
                    assert(strings_view(notes@) =~= strings_view(before).push(note_range(dep.coordinate@, interpolated@)));
                }
                None
            },
        }
    } else {
        Some(ImportedVersion::Explicit(interpolated))
    }
}

/// Dependencies, dev-dependencies, exclusions and notes, as plain values.
pub struct Converted {
    pub dependencies: Seq<(Seq<char>, Option<Seq<char>>)>,
    pub dev_dependencies: Seq<(Seq<char>, Option<Seq<char>>)>,
    pub exclusions: Seq<(Seq<char>, Seq<Seq<char>>)>,
    pub notes: Seq<Seq<char>>,
}

/// Converts the POM dependencies one by one: `provided`/`system` ones are skipped
/// with a note; the others get a version (or are skipped with a note), their
/// exclusions if they have any, and go to `[dev-dependencies]` when their scope
/// is `test`, else to `[dependencies]`.
pub open spec fn convert_all(
    deps: Seq<PomDependency>,
    props: Seq<(Seq<char>, Seq<char>)>,
    has_bom_import: bool,
    notes: Seq<Seq<char>>,
) -> Converted
    decreases deps.len(),
{
    if deps.len() == 0 {
        Converted { dependencies: Seq::empty(), dev_dependencies: Seq::empty(), exclusions: Seq::empty(), notes }
    } else {
        let c = convert_all(deps.drop_last(), props, has_bom_import, notes);
        let dep = deps.last();
        if dep.scope@ == "provided"@ || dep.scope@ == "system"@ {
            Converted { notes: c.notes.push(note_scope(dep.coordinate@, dep.scope@)), ..c }
        } else {
            let (v, note) = dependency_version(dep.coordinate@, dep.version@, props, has_bom_import);
            let notes2 = push_note(c.notes, note);
            match v {
                None => Converted { notes: notes2, ..c },
                Some(version) => {
                    let exclusions = if dep.exclusions@.len() > 0 {
                        c.exclusions.push((dep.coordinate@, strings_view(dep.exclusions@)))
                    } else {
                        c.exclusions
                    };
                    if dep.scope@ == "test"@ {
                        Converted {
                            dependencies: c.dependencies,
                            dev_dependencies: c.dev_dependencies.push((dep.coordinate@, version)),
                            exclusions,
                            notes: notes2,
                        }
                    } else {
                        Converted {
                            dependencies: c.dependencies.push((dep.coordinate@, version)),
                            dev_dependencies: c.dev_dependencies,
                            exclusions,
                            notes: notes2,
                        }
                    }
                },
            }
        }
    }
}

pub open spec fn converted_view(
    deps: Seq<(String, ImportedVersion)>,
    dev: Seq<(String, ImportedVersion)>,
    excl: Seq<(String, Vec<String>)>,
    notes: Seq<String>,
) -> Converted {
    Converted {
        dependencies: entries_view(deps),
        dev_dependencies: entries_view(dev),
        exclusions: lists_of(excl),
        notes: strings_view(notes),
    }
}

pub fn convert_dependencies(
    deps: &[PomDependency],
    properties: &Vec<(String, String)>,
    has_bom_import: bool,
    notes: &mut Vec<String>,
) -> (res: (Vec<(String, ImportedVersion)>, Vec<(String, ImportedVersion)>, Vec<(String, Vec<String>)>))
    ensures
        converted_view(res.0@, res.1@, res.2@, final(notes)@) == convert_all(
            deps@,
            pairs_view(properties@),
            has_bom_import,
            strings_view(old(notes)@),
        ),
{
    let ghost props = pairs_view(properties@);
    let ghost notes0 = strings_view(notes@);
    let mut dependencies: Vec<(String, ImportedVersion)> = Vec::new();
    let mut dev_dependencies: Vec<(String, ImportedVersion)> = Vec::new();
    let mut exclusions: Vec<(String, Vec<String>)> = Vec::new();
    let mut i: usize = 0;
    proof {
        assert(deps@.take(0) =~= Seq::<PomDependency>::empty());
        assert(entries_view(dependencies@) =~= Seq::<(Seq<char>, Option<Seq<char>>)>::empty());
        assert(entries_view(dev_dependencies@) =~= Seq::<(Seq<char>, Option<Seq<char>>)>::empty());
        assert(lists_of(exclusions@) =~= Seq::<(Seq<char>, Seq<Seq<char>>)>::empty());
        assert(converted_view(dependencies@, dev_dependencies@, exclusions@, notes@) == convert_all(
            deps@.take(0),
            props,
            has_bom_import,
            notes0,
        ));
    }
    while i < deps.len()
        invariant
            i <= deps@.len(),
            props == pairs_view(properties@),
            converted_view(dependencies@, dev_dependencies@, exclusions@, notes@) == convert_all(
                deps@.take(i as int),
                props,
                has_bom_import,
                notes0,
            ),
        decreases deps@.len() - i,
    {
        let dep = &deps[i];
        let ghost c = convert_all(deps@.take(i as int), props, has_bom_import, notes0);
        proof {
            assert(deps@.take(i + 1).drop_last() =~= deps@.take(i as int));
            assert(deps@.take(i + 1).last() == *dep);
            reveal_strlit("provided");
            reveal_strlit("system");
            reveal_strlit("test");
        }
        let ghost notes_before = notes@;
        if str_eq(dep.scope.as_str(), "provided") || str_eq(dep.scope.as_str(), "system") {
            let mut note = concat3("dependency `", dep.coordinate.as_str(), "`: scope `");
            note.append(dep.scope.as_str());
            note.append("` has no jvm-fast equivalent — skipped, add manually if needed");
            notes.push(note);
            proof {
                assert(strings_view(notes@) =~= strings_view(notes_before).push(note_scope(dep.coordinate@, dep.scope@)));
            }
        } else {
            match resolve_dependency_version(dep, properties, has_bom_import, notes) {
                None => {},
                Some(version) => {
                    if dep.exclusions.len() > 0 {
                        let ghost eb = exclusions@;
                        exclusions.push((dep.coordinate.clone(), clone_strings(&dep.exclusions)));
                        proof {
                            assert(lists_of(exclusions@) =~= lists_of(eb).push(
                                (dep.coordinate@, strings_view(dep.exclusions@)),
                            ));
                        }
                    }
                    let ghost vv = crate::import::generate::version_view(version);
                    if str_eq(dep.scope.as_str(), "test") {
                        let ghost db = dev_dependencies@;
                        dev_dependencies.push((dep.coordinate.clone(), version));
                        proof {
                            assert(entries_view(dev_dependencies@) =~= entries_view(db).push((dep.coordinate@, vv)));
                        }
                    } else {
                        let ghost db = dependencies@;
                        dependencies.push((dep.coordinate.clone(), version));
                        proof {
                            assert(entries_view(dependencies@) =~= entries_view(db).push((dep.coordinate@, vv)));
                        }
                    }
                },
            }
        }
        i = i + 1;
    }
    proof {
        assert(deps@.take(i as int) =~= deps@);
    }
    (dependencies, dev_dependencies, exclusions)
}

/// A kept POM dependency goes to `[dev-dependencies]` exactly when its scope is
/// `test`: one of scope `test` that gets a version is listed there, one of any
/// other kept scope (none, `compile`, `runtime`, ...) is listed under
/// `[dependencies]`; and every entry of each table comes from a dependency of the
/// matching scope.
pub proof fn law_test_scope_decides_the_table(
    deps: Seq<PomDependency>,
    props: Seq<(Seq<char>, Seq<char>)>,
    has_bom_import: bool,
    notes: Seq<Seq<char>>,
)
    ensures
        forall|i: int|
            #![trigger deps[i]]
            0 <= i < deps.len() && deps[i].scope@ == "test"@ && dependency_version(
                deps[i].coordinate@,
                deps[i].version@,
                props,
                has_bom_import,
            ).0 is Some ==> convert_all(deps, props, has_bom_import, notes).dev_dependencies.contains(
                (
                    deps[i].coordinate@,
                    dependency_version(deps[i].coordinate@, deps[i].version@, props, has_bom_import).0->0,
                ),
            ),
        forall|i: int|
            #![trigger deps[i]]
            0 <= i < deps.len() && deps[i].scope@ != "test"@ && deps[i].scope@ != "provided"@ && deps[i].scope@
                != "system"@ && dependency_version(deps[i].coordinate@, deps[i].version@, props, has_bom_import).0 is Some
                ==> convert_all(deps, props, has_bom_import, notes).dependencies.contains(
                (
                    deps[i].coordinate@,
                    dependency_version(deps[i].coordinate@, deps[i].version@, props, has_bom_import).0->0,
                ),
            ),
    decreases deps.len(),
{
    reveal_strlit("test");
    reveal_strlit("provided");
    reveal_strlit("system");
    if deps.len() > 0 {
        let init = deps.drop_last();
        law_test_scope_decides_the_table(init, props, has_bom_import, notes);
        let c0 = convert_all(init, props, has_bom_import, notes);
        let c = convert_all(deps, props, has_bom_import, notes);
        let n = init.len() as int;
        let dep = deps[n];
        assert(deps.last() == dep);
        assert forall|i: int| 0 <= i < n implies #[trigger] init[i] == deps[i] by {}
        assert forall|e: (Seq<char>, Option<Seq<char>>)| c0.dependencies.contains(e) implies c.dependencies.contains(e) by {
            let k = choose|k: int| 0 <= k < c0.dependencies.len() && c0.dependencies[k] == e;
            if c.dependencies != c0.dependencies {
                assert(c.dependencies[k] == c0.dependencies[k]);
            }
        }
        assert forall|e: (Seq<char>, Option<Seq<char>>)| c0.dev_dependencies.contains(e) implies c.dev_dependencies.contains(e) by {
            let k = choose|k: int| 0 <= k < c0.dev_dependencies.len() && c0.dev_dependencies[k] == e;
            if c.dev_dependencies != c0.dev_dependencies {
                assert(c.dev_dependencies[k] == c0.dev_dependencies[k]);
            }
        }
        let dv = dependency_version(dep.coordinate@, dep.version@, props, has_bom_import).0;
        if !(dep.scope@ == "provided"@ || dep.scope@ == "system"@) && dv is Some {
            if dep.scope@ == "test"@ {
                assert(c.dev_dependencies == c0.dev_dependencies.push((dep.coordinate@, dv->0)));
                assert(c.dependencies == c0.dependencies);
                assert(c.dev_dependencies[c0.dev_dependencies.len() as int] == (dep.coordinate@, dv->0));
            } else {
                assert(c.dependencies == c0.dependencies.push((dep.coordinate@, dv->0)));
                assert(c.dev_dependencies == c0.dev_dependencies);
                assert(c.dependencies[c0.dependencies.len() as int] == (dep.coordinate@, dv->0));
            }
        } else {
            assert(c.dependencies == c0.dependencies);
            assert(c.dev_dependencies == c0.dev_dependencies);
        }
        assert forall|i: int|
            #![trigger deps[i]]
            0 <= i < deps.len() && deps[i].scope@ == "test"@ && dependency_version(
                deps[i].coordinate@,
                deps[i].version@,
                props,
                has_bom_import,
            ).0 is Some implies c.dev_dependencies.contains(
            (deps[i].coordinate@, dependency_version(deps[i].coordinate@, deps[i].version@, props, has_bom_import).0->0),
        ) by {
            if i < n {
                assert(init[i] == deps[i]);
            }
        }
        assert forall|i: int|
            #![trigger deps[i]]
            0 <= i < deps.len() && deps[i].scope@ != "test"@ && deps[i].scope@ != "provided"@ && deps[i].scope@
                != "system"@ && dependency_version(deps[i].coordinate@, deps[i].version@, props, has_bom_import).0 is Some
                implies c.dependencies.contains(
            (deps[i].coordinate@, dependency_version(deps[i].coordinate@, deps[i].version@, props, has_bom_import).0->0),
        ) by {
            if i < n {
                assert(init[i] == deps[i]);
            }
        }
    }
}

/// Every entry of `[dev-dependencies]` comes from a POM dependency of scope `test`,
/// and every entry of `[dependencies]` from one whose scope is none of `test`,
/// `provided` and `system`.
pub proof fn law_table_entries_come_from_matching_scopes(
    deps: Seq<PomDependency>,
    props: Seq<(Seq<char>, Seq<char>)>,
    has_bom_import: bool,
    notes: Seq<Seq<char>>,
)
    ensures
        forall|e: (Seq<char>, Option<Seq<char>>)|
            #[trigger] convert_all(deps, props, has_bom_import, notes).dev_dependencies.contains(e) ==> exists|i: int|
                #![trigger deps[i]]
                0 <= i < deps.len() && deps[i].scope@ == "test"@ && deps[i].coordinate@ == e.0,
        forall|e: (Seq<char>, Option<Seq<char>>)|
            #[trigger] convert_all(deps, props, has_bom_import, notes).dependencies.contains(e) ==> exists|i: int|
                #![trigger deps[i]]
                0 <= i < deps.len() && deps[i].scope@ != "test"@ && deps[i].scope@ != "provided"@ && deps[i].scope@
                    != "system"@ && deps[i].coordinate@ == e.0,
{
    let c = convert_all(deps, props, has_bom_import, notes);
    assert forall|e: (Seq<char>, Option<Seq<char>>)| #[trigger] c.dev_dependencies.contains(e) implies exists|i: int|
        #![trigger deps[i]]
        0 <= i < deps.len() && deps[i].scope@ == "test"@ && deps[i].coordinate@ == e.0 by {
        let j = choose|j: int| 0 <= j < c.dev_dependencies.len() && c.dev_dependencies[j] == e;
        let i = lemma_dev_entry_source(deps, props, has_bom_import, notes, j);
        assert(deps[i].scope@ == "test"@);
    }
    assert forall|e: (Seq<char>, Option<Seq<char>>)| #[trigger] c.dependencies.contains(e) implies exists|i: int|
        #![trigger deps[i]]
        0 <= i < deps.len() && deps[i].scope@ != "test"@ && deps[i].scope@ != "provided"@ && deps[i].scope@ != "system"@
            && deps[i].coordinate@ == e.0 by {
        let j = choose|j: int| 0 <= j < c.dependencies.len() && c.dependencies[j] == e;
        let i = lemma_main_entry_source(deps, props, has_bom_import, notes, j);
        assert(deps[i].scope@ != "test"@);
    }
}

proof fn lemma_dev_entry_source(
    deps: Seq<PomDependency>,
    props: Seq<(Seq<char>, Seq<char>)>,
    has_bom_import: bool,
    notes: Seq<Seq<char>>,
    j: int,
) -> (i: int)
    requires
        0 <= j < convert_all(deps, props, has_bom_import, notes).dev_dependencies.len(),
    ensures
        0 <= i < deps.len(),
        deps[i].scope@ == "test"@,
        deps[i].coordinate@ == convert_all(deps, props, has_bom_import, notes).dev_dependencies[j].0,
    decreases deps.len(),
{
    let init = deps.drop_last();
    let c0 = convert_all(init, props, has_bom_import, notes);
    let c = convert_all(deps, props, has_bom_import, notes);
    let dep = deps.last();
    if j < c0.dev_dependencies.len() {
        assert(c.dev_dependencies[j] == c0.dev_dependencies[j]);
        let i = lemma_dev_entry_source(init, props, has_bom_import, notes, j);
        assert(init[i] == deps[i]);
        i
    } else {
        assert(dep.scope@ == "test"@);
        (deps.len() - 1) as int
    }
}

proof fn lemma_main_entry_source(
    deps: Seq<PomDependency>,
    props: Seq<(Seq<char>, Seq<char>)>,
    has_bom_import: bool,
    notes: Seq<Seq<char>>,
    j: int,
) -> (i: int)
    requires
        0 <= j < convert_all(deps, props, has_bom_import, notes).dependencies.len(),
    ensures
        0 <= i < deps.len(),
        deps[i].scope@ != "test"@,
        deps[i].scope@ != "provided"@,
        deps[i].scope@ != "system"@,
        deps[i].coordinate@ == convert_all(deps, props, has_bom_import, notes).dependencies[j].0,
    decreases deps.len(),
{
    let init = deps.drop_last();
    let c0 = convert_all(init, props, has_bom_import, notes);
    let c = convert_all(deps, props, has_bom_import, notes);
    let dep = deps.last();
    if j < c0.dependencies.len() {
        assert(c.dependencies[j] == c0.dependencies[j]);
        let i = lemma_main_entry_source(init, props, has_bom_import, notes, j);
        assert(init[i] == deps[i]);
        i
    } else {
        (deps.len() - 1) as int
    }
}

/// Every POM dependency that is kept (it gets a version and its scope is neither
/// `provided` nor `system`) and declares exclusions has an `[exclusions]` entry
/// with exactly those exclusions, whatever its scope, `test` included.
pub proof fn law_kept_dependencies_keep_their_exclusions(
    deps: Seq<PomDependency>,
    props: Seq<(Seq<char>, Seq<char>)>,
    has_bom_import: bool,
    notes: Seq<Seq<char>>,
)
    ensures
        forall|i: int|
            #![trigger deps[i]]
            0 <= i < deps.len() && deps[i].scope@ != "provided"@ && deps[i].scope@ != "system"@ && deps[i].exclusions@.len()
                > 0 && dependency_version(deps[i].coordinate@, deps[i].version@, props, has_bom_import).0 is Some
                ==> convert_all(deps, props, has_bom_import, notes).exclusions.contains(
                (deps[i].coordinate@, strings_view(deps[i].exclusions@)),
            ),
    decreases deps.len(),
{
    if deps.len() > 0 {
        let init = deps.drop_last();
        law_kept_dependencies_keep_their_exclusions(init, props, has_bom_import, notes);
        let c0 = convert_all(init, props, has_bom_import, notes);
        let c = convert_all(deps, props, has_bom_import, notes);
        let n = init.len() as int;
        let dep = deps[n];
        assert(deps.last() == dep);
        assert forall|i: int| 0 <= i < n implies #[trigger] init[i] == deps[i] by {}
        assert forall|e: (Seq<char>, Seq<Seq<char>>)| c0.exclusions.contains(e) implies c.exclusions.contains(e) by {
            let k = choose|k: int| 0 <= k < c0.exclusions.len() && c0.exclusions[k] == e;
            if c.exclusions != c0.exclusions {
                assert(c.exclusions == c0.exclusions.push((dep.coordinate@, strings_view(dep.exclusions@))));
                assert(c.exclusions[k] == c0.exclusions[k]);
            }
        }
        let dv = dependency_version(dep.coordinate@, dep.version@, props, has_bom_import).0;
        if dep.scope@ != "provided"@ && dep.scope@ != "system"@ && dep.exclusions@.len() > 0 && dv is Some {
            assert(c.exclusions == c0.exclusions.push((dep.coordinate@, strings_view(dep.exclusions@))));
            assert(c.exclusions[c0.exclusions.len() as int] == (dep.coordinate@, strings_view(dep.exclusions@)));
        }
        assert forall|i: int|
            #![trigger deps[i]]
            0 <= i < deps.len() && deps[i].scope@ != "provided"@ && deps[i].scope@ != "system"@ && deps[i].exclusions@.len()
                > 0 && dependency_version(deps[i].coordinate@, deps[i].version@, props, has_bom_import).0 is Some
                implies c.exclusions.contains((deps[i].coordinate@, strings_view(deps[i].exclusions@))) by {
            if i < n {
                assert(init[i] == deps[i]);
            }
        }
    }
}

pub open spec fn note_bom_no_version(coordinate: Seq<char>) -> Seq<char> {
    "BOM `"@ + coordinate + "`: no <version> declared — skipped, add manually"@
}

pub open spec fn note_bom_unresolved(coordinate: Seq<char>, version: Seq<char>) -> Seq<char> {
    "BOM `"@ + coordinate + "`: version property in `"@ + version + "` could not be resolved — skipped, add manually"@
}

/// `[boms]` entries from the imported BOMs of `<dependencyManagement>` (other
/// managed entries are ignored), with notes for those skipped; as `(boms, notes)`.
pub open spec fn boms_of(
    managed: Seq<ManagedDependencyEntry>,
    props: Seq<(Seq<char>, Seq<char>)>,
    notes: Seq<Seq<char>>,
) -> (Seq<(Seq<char>, Seq<char>)>, Seq<Seq<char>>)
    decreases managed.len(),
{
    if managed.len() == 0 {
        (Seq::empty(), notes)
    } else {
        let (boms, ns) = boms_of(managed.drop_last(), props, notes);
        let e = managed.last();
        if !e.is_bom_import {
            (boms, ns)
        } else if e.version@.len() == 0 {
            (boms, ns.push(note_bom_no_version(e.coordinate@)))
        } else {
            match interp(e.version@, props) {
                Some(v) => (boms.push((e.coordinate@, v)), ns),
                None => (boms, ns.push(note_bom_unresolved(e.coordinate@, e.version@))),
            }
        }
    }
}

pub fn convert_boms(managed: &[ManagedDependencyEntry], properties: &Vec<(String, String)>, notes: &mut Vec<String>) -> (res: Vec<
    (String, String),
>)
    ensures
        (pairs_view(res@), strings_view(final(notes)@)) == boms_of(
            managed@,
            pairs_view(properties@),
            strings_view(old(notes)@),
        ),
{
    let ghost props = pairs_view(properties@);
    let ghost notes0 = strings_view(notes@);
    let mut out: Vec<(String, String)> = Vec::new();
    let mut i: usize = 0;
    proof {
        assert(managed@.take(0) =~= Seq::<ManagedDependencyEntry>::empty());
        assert(pairs_view(out@) =~= Seq::<(Seq<char>, Seq<char>)>::empty());
    }
    while i < managed.len()
        invariant
            i <= managed@.len(),
            props == pairs_view(properties@),
            (pairs_view(out@), strings_view(notes@)) == boms_of(managed@.take(i as int), props, notes0),
        decreases managed@.len() - i,
    {
        let entry = &managed[i];
        proof {
            assert(managed@.take(i + 1).drop_last() =~= managed@.take(i as int));
            assert(managed@.take(i + 1).last() == *entry);
        }
        let ghost nb = notes@;
        let ghost ob = out@;
        if entry.is_bom_import {
            if entry.version.as_str().unicode_len() == 0 {
                let mut note = concat3("BOM `", entry.coordinate.as_str(), "`: no <version> declared — skipped, add manually");
                notes.push(note);
                proof {
                    assert(strings_view(notes@) =~= strings_view(nb).push(note_bom_no_version(entry.coordinate@)));
                }
            } else {
                match interpolate(entry.version.as_str(), properties) {
                    Some(version) => {
                        out.push((entry.coordinate.clone(), version));
                        proof {
                            assert(pairs_view(out@) =~= pairs_view(ob).push((entry.coordinate@, version@)));
                        }
                    },
                    None => {
                        let mut note = concat3("BOM `", entry.coordinate.as_str(), "`: version property in `");
                        note.append(entry.version.as_str());
                        note.append("` could not be resolved — skipped, add manually");
                        notes.push(note);
                        proof {
                            assert(strings_view(notes@) =~= strings_view(nb).push(
                                note_bom_unresolved(entry.coordinate@, entry.version@),
                            ));
                        }
                    },
                }
            }
        }
        i = i + 1;
    }
    proof {
        assert(managed@.take(i as int) =~= managed@);
    }
    out
}

/// The key of the repository at `index` (after the first): its id, or `repo-<index>`.
pub open spec fn repository_key(id: Seq<char>, index: nat) -> Seq<char> {
    if index == 0 {
        "default"@
    } else if id.len() == 0 {
        "repo-"@ + decimal(index)
    } else {
        id
    }
}

pub open spec fn note_extra_repositories(extra: nat) -> Seq<char> {
    decimal(extra) + " additional repositor"@ + (if extra == 1 {
        "y"@
    } else {
        "ies"@
    }) + " imported into [repositories] beyond `default` — jvm-fast only resolves against `default` today, see the project documentation"@
}

/// `[repositories]`: the first repository becomes `default`, the others keep their
/// id (`repo-<index>` when they have none); more than one adds a note.
pub fn convert_repositories(repositories: &[(String, String)], notes: &mut Vec<String>) -> (res: Vec<(String, String)>)
    ensures
        res@.len() == repositories@.len(),
        forall|i: int|
            0 <= i < res@.len() ==> (#[trigger] res@[i]).0@ == repository_key(repositories@[i].0@, i as nat) && res@[i].1@
                == repositories@[i].1@,
        strings_view(final(notes)@) == if repositories@.len() > 1 {
            strings_view(old(notes)@).push(note_extra_repositories((repositories@.len() - 1) as nat))
        } else {
            strings_view(old(notes)@)
        },
{
    let mut out: Vec<(String, String)> = Vec::new();
    let mut i: usize = 0;
    while i < repositories.len()
        invariant
            i <= repositories@.len(),
            out@.len() == i,
            forall|j: int|
                0 <= j < i ==> (#[trigger] out@[j]).0@ == repository_key(repositories@[j].0@, j as nat) && out@[j].1@
                    == repositories@[j].1@,
        decreases repositories@.len() - i,
    {
        let (id, url) = (&repositories[i].0, &repositories[i].1);
        let key = if i == 0 {
            String::from_str("default")
        } else if id.as_str().unicode_len() == 0 {
            let mut k = String::from_str("repo-");
            let digits = to_decimal(i);
            k.append(digits.as_str());
            k
        } else {
            id.clone()
        };
        out.push((key, url.clone()));
        i = i + 1;
    }
    if repositories.len() > 1 {
        let extra = repositories.len() - 1;
        let ghost before = notes@;
        let mut note = to_decimal(extra);
        note.append(" additional repositor");
        if extra == 1 {
            note.append("y");
        } else {
            note.append("ies");
        }
        note.append(
            " imported into [repositories] beyond `default` — jvm-fast only resolves against `default` today, see the project documentation",
        );
        notes.push(note);
        proof {
            assert(strings_view(notes@) =~= strings_view(before).push(note_extra_repositories(extra as nat)));
        }
    }
    out
}

} // verus!
