//! Parsed POMs and the source that serves them during resolution.
use crate::text::str_eq;
use vstd::prelude::*;

verus! {

/// An entry of `<dependencyManagement>`; `is_bom_import` marks `<scope>import</scope>`.
#[derive(Clone, Debug, PartialEq, Eq)]
pub struct ManagedDependencyEntry {
    pub coordinate: String,
    pub version: String,
    pub is_bom_import: bool,
}

/// A `<dependency>` of a POM (`scope` is empty when the POM declares none).
#[derive(Clone, Debug, PartialEq, Eq)]
pub struct PomDependency {
    pub coordinate: String,
    pub version: String,
    pub scope: String,
    pub exclusions: Vec<String>,
}

/// What resolution and `import-pom` read from a `pom.xml`.
#[derive(Clone, Debug, PartialEq, Eq)]
pub struct ParsedPom {
    pub project_artifact_id: String,
    pub project_version: String,
    /// `<properties>`, in document order.
    pub properties: Vec<(String, String)>,
    pub dependencies: Vec<PomDependency>,
    pub managed_dependencies: Vec<ManagedDependencyEntry>,
    /// `<repositories>`: `(id, url)` in document order.
    pub repositories: Vec<(String, String)>,
    pub has_profiles: bool,
    pub has_plugins: bool,
}

/// The part of a POM that resolution reads: its dependencies as
/// `(coordinate, version, scope)` and its managed entries as
/// `(coordinate, version, is_bom_import)`.
pub struct PomView {
    pub dependencies: Seq<(Seq<char>, Seq<char>, Seq<char>)>,
    pub managed: Seq<(Seq<char>, Seq<char>, bool)>,
}

impl View for ParsedPom {
    type V = PomView;

    open spec fn view(&self) -> PomView {
        PomView {
            dependencies: self.dependencies@.map_values(
                |d: PomDependency| (d.coordinate@, d.version@, d.scope@),
            ),
            managed: self.managed_dependencies@.map_values(
                |m: ManagedDependencyEntry| (m.coordinate@, m.version@, m.is_bom_import),
            ),
        }
    }
}

/// Source of POMs during resolution (a remote repository, a local table...).
/// `published` is the POM a provider serves for a `(coordinate, version)`, the same
/// every time one is served. A failed fetch promises nothing: the POM may be missing,
/// or a passing failure (of the network, say) may have hidden it.
pub trait PomProvider {
    spec fn published(&self, coordinate: Seq<char>, version: Seq<char>) -> Option<PomView>;

    fn fetch(&self, coordinate: &str, version: &str) -> (res: Result<ParsedPom, String>)
        ensures
            res matches Ok(pom) ==> self.published(coordinate@, version@) == Some(pom@),
    ;
}

/// An in-memory set of POMs, keyed by `(coordinate, version)`; the first matching
/// entry answers.
#[derive(Clone, Debug)]
pub struct PomTable {
    pub entries: Vec<(String, String, ParsedPom)>,
}

pub open spec fn table_lookup(entries: Seq<(String, String, ParsedPom)>, c: Seq<char>, v: Seq<char>) -> Option<
    PomView,
>
    decreases entries.len(),
{
    if entries.len() == 0 {
        None
    } else if entries[0].0@ == c && entries[0].1@ == v {
        Some(entries[0].2@)
    } else {
        table_lookup(entries.drop_first(), c, v)
    }
}

pub fn clone_strings(v: &Vec<String>) -> (res: Vec<String>)
    ensures
        res@ == v@,
{
    let mut res: Vec<String> = Vec::new();
    let mut i: usize = 0;
    while i < v.len()
        invariant
            i <= v@.len(),
            res@ == v@.take(i as int),
        decreases v@.len() - i,
    {
        res.push(v[i].clone());
        proof {
            assert(v@.take(i + 1) =~= v@.take(i as int).push(v@[i as int]));
        }
        i = i + 1;
    }
    proof {
        assert(v@.take(i as int) =~= v@);
    }
    res
}

pub fn clone_pairs(v: &Vec<(String, String)>) -> (res: Vec<(String, String)>)
    ensures
        res@ == v@,
{
    let mut res: Vec<(String, String)> = Vec::new();
    let mut i: usize = 0;
    while i < v.len()
        invariant
            i <= v@.len(),
            res@ == v@.take(i as int),
        decreases v@.len() - i,
    {
        res.push((v[i].0.clone(), v[i].1.clone()));
        proof {
            assert(v@.take(i + 1) =~= v@.take(i as int).push(v@[i as int]));
        }
        i = i + 1;
    }
    proof {
        assert(v@.take(i as int) =~= v@);
    }
    res
}

impl ParsedPom {
    /// A copy with the same contents.
    pub fn duplicate(&self) -> (res: ParsedPom)
        ensures
            res@ == self@,
            res.project_artifact_id == self.project_artifact_id,
            res.project_version == self.project_version,
            res.properties@ == self.properties@,
            res.repositories@ == self.repositories@,
            res.has_profiles == self.has_profiles,
            res.has_plugins == self.has_plugins,
            res.dependencies@.len() == self.dependencies@.len(),
            forall|k: int|
                0 <= k < self.dependencies@.len() ==> #[trigger] res.dependencies@[k].coordinate
                    == self.dependencies@[k].coordinate && res.dependencies@[k].version
                    == self.dependencies@[k].version && res.dependencies@[k].scope == self.dependencies@[k].scope
                    && res.dependencies@[k].exclusions@ == self.dependencies@[k].exclusions@,
            res.managed_dependencies@ == self.managed_dependencies@,
    {
        let mut dependencies: Vec<PomDependency> = Vec::new();
        let mut i: usize = 0;
        while i < self.dependencies.len()
            invariant
                i <= self.dependencies@.len(),
                dependencies@.len() == i,
                forall|k: int|
                    0 <= k < i ==> #[trigger] dependencies@[k].coordinate == self.dependencies@[k].coordinate
                        && dependencies@[k].version == self.dependencies@[k].version && dependencies@[k].scope
                        == self.dependencies@[k].scope && dependencies@[k].exclusions@
                        == self.dependencies@[k].exclusions@,
            decreases self.dependencies@.len() - i,
        {
            let d = &self.dependencies[i];
            dependencies.push(
                PomDependency {
                    coordinate: d.coordinate.clone(),
                    version: d.version.clone(),
                    scope: d.scope.clone(),
                    exclusions: clone_strings(&d.exclusions),
                },
            );
            i = i + 1;
        }
        let mut managed: Vec<ManagedDependencyEntry> = Vec::new();
        let mut i: usize = 0;
        while i < self.managed_dependencies.len()
            invariant
                i <= self.managed_dependencies@.len(),
                managed@ == self.managed_dependencies@.take(i as int),
            decreases self.managed_dependencies@.len() - i,
        {
            let m = &self.managed_dependencies[i];
            managed.push(
                ManagedDependencyEntry {
                    coordinate: m.coordinate.clone(),
                    version: m.version.clone(),
                    is_bom_import: m.is_bom_import,
                },
            );
            proof {
                assert(self.managed_dependencies@.take(i + 1) =~= self.managed_dependencies@.take(i as int).push(
                    self.managed_dependencies@[i as int],
                ));
            }
            i = i + 1;
        }
        proof {
            assert(self.managed_dependencies@.take(self.managed_dependencies@.len() as int)
                =~= self.managed_dependencies@);
        }
        let res = ParsedPom {
            project_artifact_id: self.project_artifact_id.clone(),
            project_version: self.project_version.clone(),
            properties: clone_pairs(&self.properties),
            dependencies,
            managed_dependencies: managed,
            repositories: clone_pairs(&self.repositories),
            has_profiles: self.has_profiles,
            has_plugins: self.has_plugins,
        };
        proof {
            assert(res@.dependencies =~= self@.dependencies);
            assert(res@.managed =~= self@.managed);
        }
        res
    }
}

impl PomProvider for PomTable {
    open spec fn published(&self, coordinate: Seq<char>, version: Seq<char>) -> Option<PomView> {
        table_lookup(self.entries@, coordinate, version)
    }

    fn fetch(&self, coordinate: &str, version: &str) -> (res: Result<ParsedPom, String>) {
        let mut i: usize = 0;
        proof {
            assert(self.entries@.skip(0) =~= self.entries@);
        }
        while i < self.entries.len()
            invariant
                i <= self.entries@.len(),
                table_lookup(self.entries@, coordinate@, version@) == table_lookup(
                    self.entries@.skip(i as int),
                    coordinate@,
                    version@,
                ),
            decreases self.entries@.len() - i,
        {
            proof {
                assert(self.entries@.skip(i as int).drop_first() =~= self.entries@.skip(i + 1));
                assert(self.entries@.skip(i as int)[0] == self.entries@[i as int]);
            }
            let entry = &self.entries[i];
            if str_eq(entry.0.as_str(), coordinate) && str_eq(entry.1.as_str(), version) {
                return Ok(entry.2.duplicate());
            }
            i = i + 1;
        }
        Err(String::from_str("no such POM in the table"))
    }
}

} // verus!
