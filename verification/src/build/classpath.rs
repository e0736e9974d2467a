//! The classpath of the locked packages: where each artifact lives in the cache, and
//! the refusal to build when one of them was never downloaded.
use super::BuildError;
use crate::cache::{artifact_path_of, shardable, CacheStore};
use crate::domain::Lockfile;
use crate::text::join3;
use vstd::prelude::*;

verus! {

/// The cache path of each package of `lockfile`, in order; `filenames[i]` is the
/// artifact file name of package `i`.
pub fn locked_artifact_paths(lockfile: &Lockfile, store: &CacheStore, filenames: &Vec<String>) -> (res: Vec<String>)
    requires
        filenames@.len() == lockfile.packages@.len(),
        forall|i: int| 0 <= i < lockfile.packages@.len() ==> shardable(#[trigger] lockfile.packages@[i].sha256@),
    ensures
        res@.len() == lockfile.packages@.len(),
        forall|i: int|
            0 <= i < res@.len() ==> (#[trigger] res@[i])@ == artifact_path_of(
                store.root_dir(),
                lockfile.packages@[i].sha256@,
                filenames@[i]@,
            ),
{
    let mut paths: Vec<String> = Vec::new();
    let mut i: usize = 0;
    while i < lockfile.packages.len()
        invariant
            i <= lockfile.packages@.len(),
            filenames@.len() == lockfile.packages@.len(),
            forall|j: int| 0 <= j < lockfile.packages@.len() ==> shardable(#[trigger] lockfile.packages@[j].sha256@),
            paths@.len() == i,
            forall|j: int|
                0 <= j < i ==> (#[trigger] paths@[j])@ == artifact_path_of(
                    store.root_dir(),
                    lockfile.packages@[j].sha256@,
                    filenames@[j]@,
                ),
        decreases lockfile.packages@.len() - i,
    {
        let p = store.artifact_path(lockfile.packages[i].sha256.as_str(), filenames[i].as_str());
        paths.push(p);
        i = i + 1;
    }
    paths
}

/// The first package, in lockfile order, not in the cache (`present[i]` tells
/// whether package `i`'s artifact is there) refuses the build with
/// `MissingArtifact("name@version")`: `install` must run again.
pub fn check_locked_artifacts(lockfile: &Lockfile, present: &Vec<bool>) -> (res: Result<(), BuildError>)
    requires
        present@.len() == lockfile.packages@.len(),
    ensures
        (forall|i: int| 0 <= i < present@.len() ==> #[trigger] present@[i]) ==> res is Ok,
        !(forall|i: int| 0 <= i < present@.len() ==> #[trigger] present@[i]) ==> exists|i: int|
            0 <= i < present@.len() && !present@[i] && (forall|j: int| 0 <= j < i ==> #[trigger] present@[j]) && (
            res matches Err(BuildError::MissingArtifact(key)) && key@ == lockfile.packages@[i].name@ + "@"@
                + lockfile.packages@[i].version@),
{
    let mut i: usize = 0;
    while i < present.len()
        invariant
            i <= present@.len(),
            present@.len() == lockfile.packages@.len(),
            forall|j: int| 0 <= j < i ==> #[trigger] present@[j],
        decreases present@.len() - i,
    {
        if !present[i] {
            let key = join3(lockfile.packages[i].name.as_str(), "@", lockfile.packages[i].version.as_str());
            return Err(BuildError::MissingArtifact(key));
        }
        i = i + 1;
    }
    Ok(())
}

} // verus!
