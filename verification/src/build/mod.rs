//! `jvmfast build`: module ordering, classpath assembly and the decisions of
//! the incremental build.
pub mod classpath;
pub mod fingerprint;
pub mod order;
pub mod plan;

pub use order::module_order;

use vstd::prelude::*;

verus! {

/// Failures of the build planning logic.
#[derive(Debug, Clone, PartialEq, Eq)]
pub enum BuildError {
    /// A package is in `project.lock` but its artifact was never downloaded (`name@version`).
    MissingArtifact(String),
    /// A `[workspace-dependencies]` entry names no module of the workspace.
    UnknownWorkspaceModule { module: String, dependency: String },
    /// The workspace dependencies form a cycle; the modules that could not be ordered.
    CyclicModuleDependency(Vec<String>),
}

} // verus!
