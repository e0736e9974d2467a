//! Where commands look: repository, cache and JDK roots, and the module to act on.
use crate::bom::pairs_view;
use crate::cli::error::CliError;
use crate::domain::{Module, Workspace};
use crate::graph::{lookup_value, table_get};
use crate::paths::{join_path, path_join};
use crate::text::str_eq;
use vstd::prelude::*;

verus! {

/// The repository used when `[repositories]` declares no `default`.
pub const MAVEN_CENTRAL: &'static str = "https://repo1.maven.org/maven2";

/// The public API of the Eclipse Temurin distribution.
pub const ADOPTIUM_API: &'static str = "https://api.adoptium.net";

/// The base URL to resolve against: the repository keyed `default` in
/// `[repositories]` if there is one, else Maven Central.
pub fn resolve_base_url(repositories: &Vec<(String, String)>) -> (res: String)
    ensures
        res@ == match table_get(pairs_view(repositories@), "default"@) {
            Some(url) => url,
            None => MAVEN_CENTRAL@,
        },
{
    match lookup_value(repositories, "default") {
        Some(url) => url,
        None => String::from_str(MAVEN_CENTRAL),
    }
}

/// The global cache under the home directory (`.` when there is none):
/// `<home>/.cache/jvmfast`.
pub fn cache_root_under(home: Option<&str>) -> (res: String)
    ensures
        res@ == path_join(
            match home {
                Some(h) => h@,
                None => "."@,
            },
            ".cache/jvmfast"@,
        ),
{
    let base = match home {
        Some(h) => h,
        None => ".",
    };
    join_path(base, ".cache/jvmfast")
}

/// The installed JDKs: `<cache_root>/jdks`.
pub fn jdks_root(cache_root: &str) -> (res: String)
    ensures
        res@ == path_join(cache_root@, "jdks"@),
{
    join_path(cache_root, "jdks")
}

/// The first module named `name`.
pub open spec fn module_named(modules: Seq<Module>, name: Seq<char>) -> Option<Module>
    decreases modules.len(),
{
    if modules.len() == 0 {
        None
    } else if modules[0].name@ == name {
        Some(modules[0])
    } else {
        module_named(modules.drop_first(), name)
    }
}

/// The module that `--module <name>` selects; without the flag, the root module,
/// which is always the first.
pub fn resolve_target_module<'a>(workspace: &'a Workspace, module: Option<&str>) -> (res: Result<&'a Module, CliError>)
    requires
        module is None ==> workspace.modules@.len() > 0,
    ensures
        match module {
            None => res == Ok::<&'a Module, CliError>(&workspace.modules@[0]),
            Some(name) => match module_named(workspace.modules@, name@) {
                Some(m) => res matches Ok(r) && *r == m,
                None => res matches Err(CliError::ModuleNotFound(n)) && n@ == name@,
            },
        },
{
    match module {
        None => Ok(&workspace.modules[0]),
        Some(name) => {
            let mut i: usize = 0;
            proof {
                assert(workspace.modules@.skip(0) =~= workspace.modules@);
            }
            while i < workspace.modules.len()
                invariant
                    module == Some(name),
                    i <= workspace.modules@.len(),
                    module_named(workspace.modules@, name@) == module_named(workspace.modules@.skip(i as int), name@),
                decreases workspace.modules@.len() - i,
            {
                proof {
                    assert(workspace.modules@.skip(i as int)[0] == workspace.modules@[i as int]);
                    assert(workspace.modules@.skip(i as int).drop_first() =~= workspace.modules@.skip(i + 1));
                }
                if str_eq(workspace.modules[i].name.as_str(), name) {
                    return Ok(&workspace.modules[i]);
                }
                i = i + 1;
            }
            Err(CliError::ModuleNotFound(String::from_str(name)))
        },
    }
}

} // verus!
