//! The decisions of `jvmfast build`, one module at a time in dependency order: the
//! paths and classpath of each module, whether it is up to date, and what was done.
//! Compiling, copying and hashing files happen outside, between the steps.
use super::order::{
    all_known, dependency_edges, deps_of, edges_of_module, edges_upto, ints, kahn_order, last_index_named,
    left_out_upto, module_order,
};
use super::BuildError;
use crate::domain::Module;
use crate::lockfile::strings_view;
use crate::paths::{join_path, path_join};
use crate::pom::clone_strings;
use crate::text::str_eq;
use vstd::prelude::*;

verus! {

/// What the build of one module did.
#[derive(Debug, Clone, PartialEq, Eq)]
pub struct ModuleBuildSummary {
    pub module: String,
    pub compiled_files: usize,
    pub copied_resources: usize,
    pub classes_dir: String,
    /// The module's inputs had the fingerprint of its last successful build:
    /// nothing was compiled or copied (both counts are then 0).
    pub up_to_date: bool,
}

/// The next module to build: its index and where its sources, classes and
/// resources are, the classpath to compile it against (the locked dependencies,
/// then the classes of each of its workspace dependencies) and the fingerprints of
/// those dependencies.
#[derive(Debug, Clone, PartialEq, Eq)]
pub struct ModuleStep {
    pub index: usize,
    pub sources_dir: String,
    pub classes_dir: String,
    pub resources_dir: String,
    pub classpath: Vec<String>,
    pub dependency_fingerprints: Vec<String>,
}

/// A module is up to date when its classes directory exists and the fingerprint
/// stored there equals the one of its current inputs.
pub fn is_up_to_date(classes_dir_exists: bool, stored: Option<&str>, fingerprint: &str) -> (res: bool)
    ensures
        res == (classes_dir_exists && match stored {
            Some(s) => s@ == fingerprint@,
            None => false,
        }),
{
    classes_dir_exists && match stored {
        Some(s) => str_eq(s, fingerprint),
        None => false,
    }
}

pub open spec fn classes_dir_of(root: Seq<char>) -> Seq<char> {
    path_join(root, "target/classes"@)
}

/// A built module as plain values: `(name, classes directory, fingerprint)`.
pub type BuiltView = (Seq<char>, Seq<char>, Seq<char>);

/// The most recently built module called `name`.
pub open spec fn last_built(built: Seq<BuiltView>, name: Seq<char>) -> Option<BuiltView>
    decreases built.len(),
{
    if built.len() == 0 {
        None
    } else if built.last().0 == name {
        Some(built.last())
    } else {
        last_built(built.drop_last(), name)
    }
}

pub open spec fn dep_classes(built: Seq<BuiltView>, names: Seq<Seq<char>>) -> Seq<Seq<char>> {
    names.map_values(|d: Seq<char>| last_built(built, d)->Some_0.1)
}

pub open spec fn dep_fingerprints(built: Seq<BuiltView>, names: Seq<Seq<char>>) -> Seq<Seq<char>> {
    names.map_values(|d: Seq<char>| last_built(built, d)->Some_0.2)
}

/// Drives the build through the modules in dependency order.
pub struct BuildPlanner {
    modules: Vec<Module>,
    order: Vec<usize>,
    dependency_classpath: Vec<String>,
    built: Vec<(String, String, String)>,
    summaries: Vec<ModuleBuildSummary>,
}

pub open spec fn built_view(b: Seq<(String, String, String)>) -> Seq<BuiltView> {
    b.map_values(|e: (String, String, String)| (e.0@, e.1@, e.2@))
}

impl BuildPlanner {
    pub closed spec fn modules(&self) -> Seq<Module> {
        self.modules@
    }

    /// The order in which modules are built, as indices into `modules()`.
    pub closed spec fn order(&self) -> Seq<usize> {
        self.order@
    }

    /// The modules built so far.
    pub closed spec fn built(&self) -> Seq<BuiltView> {
        built_view(self.built@)
    }

    pub closed spec fn summaries(&self) -> Seq<ModuleBuildSummary> {
        self.summaries@
    }

    pub closed spec fn dependency_classpath(&self) -> Seq<Seq<char>> {
        strings_view(self.dependency_classpath@)
    }

    /// How many modules are built.
    pub closed spec fn done(&self) -> nat {
        self.built@.len()
    }

    #[verifier::type_invariant]
    spec fn inv(&self) -> bool {
        &&& self.order@.len() == self.modules@.len()
        &&& forall|q: int| 0 <= q < self.order@.len() ==> #[trigger] self.order@[q] < self.modules@.len()
        &&& all_known(self.modules@)
        &&& forall|p: int, k: int|
            0 <= p < self.order@.len() && 0 <= k < dependency_edges(self.modules@).len() && #[trigger] dependency_edges(
                self.modules@,
            )[k].1 == self.order@[p] as int ==> #[trigger] ints(self.order@).take(p).contains(
                dependency_edges(self.modules@)[k].0,
            )
        &&& self.built@.len() <= self.order@.len()
        &&& self.summaries@.len() == self.built@.len()
        &&& forall|q: int|
            0 <= q < self.built@.len() ==> (#[trigger] self.built@[q]).0@ == self.modules@[self.order@[q] as int].name@
    }

    /// Starts a build of `modules`, ordered as `module_order` orders them; fails as
    /// it fails, on an unknown workspace dependency or a cycle.
    pub fn start(modules: Vec<Module>, dependency_classpath: Vec<String>) -> (res: Result<BuildPlanner, BuildError>)
        ensures
            match res {
                Ok(p) => {
                    &&& p.modules() == modules@
                    &&& ints(p.order()) == kahn_order(modules@)
                    &&& p.order().len() == modules@.len()
                    &&& p.done() == 0
                    &&& p.dependency_classpath() == strings_view(dependency_classpath@)
                },
                Err(BuildError::UnknownWorkspaceModule { module, dependency }) => !all_known(modules@),
                Err(BuildError::CyclicModuleDependency(names)) => {
                    &&& all_known(modules@)
                    &&& kahn_order(modules@).len() < modules@.len()
                    &&& strings_view(names@) == left_out_upto(modules@, kahn_order(modules@), modules@.len() as int)
                },
                Err(_) => false,
            },
    {
        let order = match module_order(modules.as_slice()) {
            Ok(order) => order,
            Err(e) => {
                proof {
                    if e is UnknownWorkspaceModule {
                        let (i, j) = choose|i: int, j: int|
                            #![trigger deps_of(modules@[i])[j]]
                            super::order::first_unknown(modules@, i, j) && e->module@ == modules@[i].name@ && e->dependency@
                                == deps_of(modules@[i])[j];
                        assert(super::order::is_unknown(modules@, i, j));
                    }
                }
                return Err(e);
            },
        };
        proof {
            assert(built_view(Seq::<(String, String, String)>::empty()) =~= Seq::<BuiltView>::empty());
        }
        Ok(
            BuildPlanner {
                modules,
                order,
                dependency_classpath,
                built: Vec::new(),
                summaries: Vec::new(),
            },
        )
    }
}

proof fn lemma_edges_upto(ms: Seq<Module>, i: int, j: int, n: int)
    requires
        0 <= i < n <= ms.len(),
        0 <= j < deps_of(ms[i]).len(),
    ensures
        edges_upto(ms, i).len() + j < edges_upto(ms, n).len(),
        edges_upto(ms, n)[edges_upto(ms, i).len() + j] == (last_index_named(ms, deps_of(ms[i])[j]), i),
    decreases n,
{
    if n == i + 1 {
        assert(edges_upto(ms, n) == edges_upto(ms, i) + edges_of_module(ms, i));
    } else {
        lemma_edges_upto(ms, i, j, n - 1);
    }
}

proof fn lemma_last_index_named(ms: Seq<Module>, name: Seq<char>)
    ensures
        last_index_named(ms, name) < ms.len(),
        last_index_named(ms, name) >= 0 ==> ms[last_index_named(ms, name)].name@ == name,
    decreases ms.len(),
{
    if ms.len() > 0 && ms.last().name@ != name {
        lemma_last_index_named(ms.drop_last(), name);
        let x = last_index_named(ms.drop_last(), name);
        if x >= 0 {
            assert(ms[x] == ms.drop_last()[x]);
        }
    }
}

/// Index of the most recently built module called `name`.
fn find_last_built(built: &Vec<(String, String, String)>, name: &str) -> (res: Option<usize>)
    ensures
        match res {
            Some(q) => q < built@.len() && last_built(built_view(built@), name@) == Some(built_view(built@)[q as int]),
            None => last_built(built_view(built@), name@) is None,
        },
{
    let ghost bv = built_view(built@);
    let mut q: usize = built.len();
    proof {
        assert(bv.take(q as int) =~= bv);
    }
    while q > 0
        invariant
            bv == built_view(built@),
            q <= built@.len(),
            last_built(bv, name@) == last_built(bv.take(q as int), name@),
        decreases q,
    {
        proof {
            assert(bv.take(q as int).last() == bv[q - 1]);
            assert(bv.take(q as int).drop_last() =~= bv.take(q - 1));
        }
        if str_eq(built[q - 1].0.as_str(), name) {
            return Some(q - 1);
        }
        q = q - 1;
    }
    None
}

impl BuildPlanner {
    /// The next module to build, or `None` when every module is built. Every
    /// workspace dependency of the next module is already built.
    pub fn next_step(&self) -> (res: Option<ModuleStep>)
        ensures
            self.done() >= self.order().len() ==> res is None,
            self.done() < self.order().len() ==> ({
                let index = self.order()[self.done() as int];
                let m = self.modules()[index as int];
                &&& res matches Some(step)
                &&& step.index == index
                &&& step.sources_dir@ == path_join(m.root@, "src/main/java"@)
                &&& step.classes_dir@ == classes_dir_of(m.root@)
                &&& step.resources_dir@ == path_join(m.root@, "src/main/resources"@)
                &&& forall|j: int| 0 <= j < deps_of(m).len() ==> #[trigger] last_built(self.built(), deps_of(m)[j]) is Some
                &&& strings_view(step.classpath@) == self.dependency_classpath() + dep_classes(self.built(), deps_of(m))
                &&& strings_view(step.dependency_fingerprints@) == dep_fingerprints(self.built(), deps_of(m))
            }),
    {
        proof {
            use_type_invariant(self);
        }
        let done = self.built.len();
        if done >= self.order.len() {
            return None;
        }
        let index = self.order[done];
        let module = &self.modules[index];
        let ghost ms = self.modules@;
        let ghost deps = deps_of(*module);
        let ghost bv = built_view(self.built@);
        let mut classpath = clone_strings(&self.dependency_classpath);
        let mut fingerprints: Vec<String> = Vec::new();
        let mut j: usize = 0;
        let ghost base = strings_view(classpath@);
        proof {
            assert(deps.take(0) =~= Seq::<Seq<char>>::empty());
            assert(strings_view(fingerprints@) =~= dep_fingerprints(bv, deps.take(0)));
            assert(strings_view(classpath@) =~= base + dep_classes(bv, deps.take(0)));
        }
        while j < module.workspace_dependencies.len()
            invariant
                j <= deps.len(),
                deps == deps_of(*module),
                deps.len() == module.workspace_dependencies@.len(),
                ms == self.modules@,
                bv == built_view(self.built@),
                *module == ms[index as int],
                index == self.order@[done as int],
                done == self.built@.len(),
                done < self.order@.len(),
                base == strings_view(self.dependency_classpath@),
                strings_view(classpath@) == base + dep_classes(bv, deps.take(j as int)),
                strings_view(fingerprints@) == dep_fingerprints(bv, deps.take(j as int)),
                forall|i: int| 0 <= i < j ==> #[trigger] last_built(bv, deps[i]) is Some,
            decreases deps.len() - j,
        {
            let name = &module.workspace_dependencies[j];
            proof {
                use_type_invariant(self);
                assert(deps[j as int] == name@);
                // the dependency is built: module_order put it before this module
                assert(all_known(ms));
                assert(!super::order::is_unknown(ms, index as int, j as int));
                lemma_edges_upto(ms, index as int, j as int, ms.len() as int);
                let k = edges_upto(ms, index as int).len() + j;
                let x = last_index_named(ms, name@);
                assert(dependency_edges(ms)[k] == (x, index as int));
                assert(0 <= k < dependency_edges(self.modules@).len());
                assert(dependency_edges(self.modules@)[k].1 == self.order@[done as int] as int);
                assert(ints(self.order@).take(done as int).contains(dependency_edges(self.modules@)[k].0));
                let q = choose|q: int| 0 <= q < done && ints(self.order@).take(done as int)[q] == x;
                assert(self.order@[q] as int == x);
                lemma_last_index_named(ms, name@);
                assert(self.built@[q].0@ == name@);
                if last_built(bv, name@) is None {
                    lemma_last_built_none(bv, name@, q);
                }
            }
            match find_last_built(&self.built, name.as_str()) {
                Some(q) => {
                    let ghost c0 = classpath@;
                    let ghost f0 = fingerprints@;
                    classpath.push(self.built[q].1.clone());
                    fingerprints.push(self.built[q].2.clone());
                    proof {
                        assert(deps.take(j + 1) =~= deps.take(j as int).push(name@));
                        assert(strings_view(classpath@) =~= strings_view(c0).push(self.built@[q as int].1@));
                        assert(strings_view(fingerprints@) =~= strings_view(f0).push(self.built@[q as int].2@));
                        assert(dep_classes(bv, deps.take(j + 1)) =~= dep_classes(bv, deps.take(j as int)).push(
                            last_built(bv, name@)->Some_0.1,
                        ));
                        assert(dep_fingerprints(bv, deps.take(j + 1)) =~= dep_fingerprints(bv, deps.take(j as int)).push(
                            last_built(bv, name@)->Some_0.2,
                        ));
                    }
                },
                None => {
                    proof {
                        assert(false);
                    }
                },
            }
            j = j + 1;
        }
        proof {
            assert(deps.take(j as int) =~= deps);
        }
        Some(
            ModuleStep {
                index,
                sources_dir: join_path(module.root.as_str(), "src/main/java"),
                classes_dir: join_path(module.root.as_str(), "target/classes"),
                resources_dir: join_path(module.root.as_str(), "src/main/resources"),
                classpath,
                dependency_fingerprints: fingerprints,
            },
        )
    }

    /// Records the build of the next module: the fingerprint of its inputs, whether
    /// it was up to date, how many sources it has and how many resources were
    /// copied. An up-to-date module compiled and copied nothing.
    pub fn record(self, fingerprint: String, up_to_date: bool, source_count: usize, copied_resources: usize) -> (res: Self)
        requires
            self.done() < self.order().len(),
        ensures
            res.modules() == self.modules(),
            res.order() == self.order(),
            res.dependency_classpath() == self.dependency_classpath(),
            res.done() == self.done() + 1,
            ({
                let m = self.modules()[self.order()[self.done() as int] as int];
                let s = res.summaries().last();
                &&& res.built() == self.built().push((m.name@, classes_dir_of(m.root@), fingerprint@))
                &&& res.summaries().len() == self.summaries().len() + 1
                &&& res.summaries().drop_last() == self.summaries()
                &&& s.module@ == m.name@
                &&& s.classes_dir@ == classes_dir_of(m.root@)
                &&& s.up_to_date == up_to_date
                &&& s.compiled_files == if up_to_date { 0 } else { source_count }
                &&& s.copied_resources == if up_to_date { 0 } else { copied_resources }
            }),
    {
        proof {
            use_type_invariant(&self);
        }
        let BuildPlanner { modules, order, dependency_classpath, mut built, mut summaries } = self;
        let done = built.len();
        let index = order[done];
        let name = modules[index].name.clone();
        let classes_dir = join_path(modules[index].root.as_str(), "target/classes");
        let ghost b0 = built@;
        let ghost s0 = summaries@;
        built.push((name.clone(), classes_dir.clone(), fingerprint));
        let (compiled_files, copied) = if up_to_date {
            (0, 0)
        } else {
            (source_count, copied_resources)
        };
        summaries.push(
            ModuleBuildSummary { module: name, compiled_files, copied_resources: copied, classes_dir, up_to_date },
        );
        proof {
            assert(built_view(built@) =~= built_view(b0).push((built@.last().0@, built@.last().1@, built@.last().2@)));
            assert(summaries@.drop_last() =~= s0);
            assert forall|q: int| 0 <= q < built@.len() implies (#[trigger] built@[q]).0@ == modules@[order@[q] as int].name@ by {
                if q < done {
                    assert(built@[q] == b0[q]);
                }
            }
        }
        BuildPlanner { modules, order, dependency_classpath, built, summaries }
    }

    /// The summaries of the modules built, in build order.
    pub fn finish(self) -> (res: Vec<ModuleBuildSummary>)
        ensures
            res@ == self.summaries(),
    {
        let BuildPlanner { modules, order, dependency_classpath, built, summaries } = self;
        summaries
    }
}

proof fn lemma_last_built_none(bv: Seq<BuiltView>, name: Seq<char>, q: int)
    requires
        0 <= q < bv.len(),
        bv[q].0 == name,
    ensures
        last_built(bv, name) is Some,
    decreases bv.len(),
{
    if bv.last().0 != name {
        assert(bv.drop_last()[q] == bv[q]);
        lemma_last_built_none(bv.drop_last(), name, q);
    }
}

} // verus!
