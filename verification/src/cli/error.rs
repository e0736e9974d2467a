//! Command-line errors that carry only plain values.
use crate::jdk::JdkError;
use vstd::prelude::*;

verus! {

/// Why a command was refused.
#[derive(Debug, Clone, PartialEq, Eq)]
pub enum CliError {
    /// `remove` of a coordinate that `[dependencies]` does not declare.
    DependencyNotDeclared(String),
    /// `add` without `@version`: looking up the latest release is not supported.
    VersionOmittedNotSupported(String),
    /// `add --dev` is not supported.
    DevDependenciesNotSupported,
    /// `update <coordinate>` is not supported; only a full update is.
    TargetedUpdateNotSupported,
    /// `why` of a coordinate that is not in the resolved graph.
    CoordinateNotResolved(String),
    /// `(failed, attempted)` downloads.
    DownloadsFailed(usize, usize),
    /// `--module` names no module of the workspace.
    ModuleNotFound(String),
    /// No installed JDK has this major version.
    JavaVersionNotInstalled(String),
    /// `project.lock` does not exist yet.
    LockfileMissing,
    /// `project.lock` does not match the current manifests.
    LockfileStale,
    /// The module has no `[run].main-class`.
    MainClassNotConfigured,
    /// The program exited with this status (-1 when killed by a signal).
    ProgramExited(i32),
    /// A JDK failure.
    Jdk(JdkError),
    /// `test --fail-fast` is not supported.
    FailFastNotSupported,
    /// The test run exited with this status (-1 when killed by a signal).
    TestsFailed(i32),
}

} // verus!
