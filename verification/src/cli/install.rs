//! The decisions of `install`, `update`, `add` and `remove` around resolution and
//! downloads, and the summary they print.
use crate::cli::error::CliError;
use crate::domain::Lockfile;
use crate::import::interp::first_char;
use crate::lockfile::{is_lockfile_valid, lock_matches};
use crate::text::{decimal, to_decimal};
use vstd::prelude::*;

verus! {

/// What an install did.
#[derive(Debug, Clone, PartialEq, Eq)]
pub struct InstallSummary {
    pub package_count: usize,
    pub downloaded_count: usize,
    pub reused_from_cache_count: usize,
    /// The existing `project.lock` was valid: resolution was skipped and only the
    /// missing artifacts were downloaded.
    pub reused_lockfile: bool,
}

/// Resolution is skipped when not forced, `project.lock` exists on disk, and its
/// manifest hash matches the current manifests.
pub fn lock_is_reusable(force: bool, lock_exists: bool, lockfile: &Lockfile, current_hash: &str) -> (res: bool)
    ensures
        res == (!force && lock_exists && lock_matches(*lockfile, current_hash@)),
{
    !force && lock_exists && is_lockfile_valid(lockfile, current_hash)
}

/// How many downloads run at once: the configured number, at least one.
pub fn max_concurrent(concurrent_downloads: u32) -> (res: u32)
    ensures
        res == if concurrent_downloads == 0 {
            1
        } else {
            concurrent_downloads
        },
{
    if concurrent_downloads == 0 {
        1
    } else {
        concurrent_downloads
    }
}

/// `add <coordinate>@<version>`: the coordinate and the version, split at the first
/// `@`. `--dev` and a missing version are refused.
pub fn parse_add_spec(coordinate_spec: &str, dev: bool) -> (res: Result<(String, String), CliError>)
    ensures
        dev ==> res == Err::<(String, String), CliError>(CliError::DevDependenciesNotSupported),
        !dev ==> match first_char(coordinate_spec@, '@') {
            Some(i) => res matches Ok(p) && p.0@ == coordinate_spec@.take(i) && p.1@ == coordinate_spec@.skip(i + 1),
            None => res matches Err(CliError::VersionOmittedNotSupported(s)) && s@ == coordinate_spec@,
        },
{
    if dev {
        return Err(CliError::DevDependenciesNotSupported);
    }
    let n = coordinate_spec.unicode_len();
    let mut i: usize = 0;
    while i < n && coordinate_spec.get_char(i) != '@'
        invariant
            n == coordinate_spec@.len(),
            i <= n,
            forall|j: int| 0 <= j < i ==> coordinate_spec@[j] != '@',
        decreases n - i,
    {
        i = i + 1;
    }
    proof {
        crate::jdk::lemma_first_char_take(coordinate_spec@, '@', i as int);
        if i < n {
            assert(coordinate_spec@.skip(i as int)[0] == '@');
        } else {
            assert(coordinate_spec@.skip(i as int).len() == 0);
        }
    }
    if i == n {
        return Err(CliError::VersionOmittedNotSupported(String::from_str(coordinate_spec)));
    }
    let coordinate = coordinate_spec.substring_char(0, i);
    let version = coordinate_spec.substring_char(i + 1, n);
    proof {
        assert(coordinate@ =~= coordinate_spec@.take(i as int));
        assert(version@ =~= coordinate_spec@.skip(i + 1));
    }
    Ok((String::from_str(coordinate), String::from_str(version)))
}

/// `remove` of a coordinate that was not declared is an error.
pub fn check_removed(removed: bool, coordinate: &str) -> (res: Result<(), CliError>)
    ensures
        removed ==> res is Ok,
        !removed ==> (res matches Err(CliError::DependencyNotDeclared(c)) && c@ == coordinate@),
{
    if removed {
        Ok(())
    } else {
        Err(CliError::DependencyNotDeclared(String::from_str(coordinate)))
    }
}

pub open spec fn count_failed(outcomes: Seq<bool>) -> nat
    decreases outcomes.len(),
{
    if outcomes.len() == 0 {
        0
    } else {
        count_failed(outcomes.drop_last()) + if outcomes.last() {
            0nat
        } else {
            1nat
        }
    }
}

/// After a batch of downloads (`true` for each that succeeded): the number
/// downloaded, or `DownloadsFailed(failed, attempted)` when any failed.
pub fn check_downloads(outcomes: &Vec<bool>) -> (res: Result<usize, CliError>)
    ensures
        count_failed(outcomes@) == 0 ==> res == Ok::<usize, CliError>(outcomes.len()),
        count_failed(outcomes@) > 0 ==> res == Err::<usize, CliError>(
            CliError::DownloadsFailed(count_failed(outcomes@) as usize, outcomes.len()),
        ),
{
    let mut failed: usize = 0;
    let mut i: usize = 0;
    proof {
        assert(outcomes@.take(0) =~= Seq::<bool>::empty());
    }
    while i < outcomes.len()
        invariant
            i <= outcomes@.len(),
            failed == count_failed(outcomes@.take(i as int)),
            failed <= i,
        decreases outcomes@.len() - i,
    {
        proof {
            assert(outcomes@.take(i + 1).drop_last() =~= outcomes@.take(i as int));
        }
        if !outcomes[i] {
            failed = failed + 1;
        }
        i = i + 1;
    }
    proof {
        assert(outcomes@.take(i as int) =~= outcomes@);
    }
    if failed > 0 {
        Err(CliError::DownloadsFailed(failed, outcomes.len()))
    } else {
        Ok(outcomes.len())
    }
}

/// The line printed after an install.
pub open spec fn install_summary_text(s: InstallSummary) -> Seq<char> {
    if s.reused_lockfile {
        decimal(s.package_count as nat) + " package(s) in project.lock — "@ + decimal(s.downloaded_count as nat)
            + " downloaded, "@ + decimal(s.reused_from_cache_count as nat) + " already cached"@
    } else {
        "resolved "@ + decimal(s.package_count as nat) + " package(s) — "@ + decimal(s.downloaded_count as nat)
            + " downloaded, "@ + decimal(s.reused_from_cache_count as nat) + " already cached — project.lock written"@
    }
}

pub fn format_summary(summary: &InstallSummary) -> (res: String)
    ensures
        res@ == install_summary_text(*summary),
{
    let packages = to_decimal(summary.package_count);
    let downloaded = to_decimal(summary.downloaded_count);
    let cached = to_decimal(summary.reused_from_cache_count);
    if summary.reused_lockfile {
        let mut s = String::from_str(packages.as_str());
        s.append(" package(s) in project.lock — ");
        s.append(downloaded.as_str());
        s.append(" downloaded, ");
        s.append(cached.as_str());
        s.append(" already cached");
        s
    } else {
        let mut s = String::from_str("resolved ");
        s.append(packages.as_str());
        s.append(" package(s) — ");
        s.append(downloaded.as_str());
        s.append(" downloaded, ");
        s.append(cached.as_str());
        s.append(" already cached — project.lock written");
        s
    }
}

/// The checks `run` makes before building: `project.lock` must exist and match
/// the current manifests.
pub fn check_lock_for_run(lock_exists: bool, lockfile: &Lockfile, current_hash: &str) -> (res: Result<(), CliError>)
    ensures
        !lock_exists ==> res == Err::<(), CliError>(CliError::LockfileMissing),
        lock_exists && !lock_matches(*lockfile, current_hash@) ==> res == Err::<(), CliError>(CliError::LockfileStale),
        lock_exists && lock_matches(*lockfile, current_hash@) ==> res is Ok,
{
    if !lock_exists {
        return Err(CliError::LockfileMissing);
    }
    if !is_lockfile_valid(lockfile, current_hash) {
        return Err(CliError::LockfileStale);
    }
    Ok(())
}

/// The end of `run`: the program's exit status (`None` when a signal ended it).
pub fn run_outcome(main_class: &str, success: bool, code: Option<i32>) -> (res: Result<String, CliError>)
    ensures
        success ==> (res matches Ok(m) && m@ == main_class@ + " exited successfully"@),
        !success ==> res == Err::<String, CliError>(
            CliError::ProgramExited(
                match code {
                    Some(c) => c,
                    None => -1i32,
                },
            ),
        ),
{
    if !success {
        let c = match code {
            Some(c) => c,
            None => -1,
        };
        return Err(CliError::ProgramExited(c));
    }
    let mut m = String::from_str(main_class);
    m.append(" exited successfully");
    Ok(m)
}

/// `run` needs `[run].main-class` of the target module.
pub fn require_main_class(main_class: Option<String>) -> (res: Result<String, CliError>)
    ensures
        match main_class {
            Some(m) => res == Ok::<String, CliError>(m),
            None => res == Err::<String, CliError>(CliError::MainClassNotConfigured),
        },
{
    match main_class {
        Some(m) => Ok(m),
        None => Err(CliError::MainClassNotConfigured),
    }
}

/// Where an install stands, between the outside steps it waits on.
#[derive(Debug, Clone, PartialEq, Eq)]
pub enum InstallState {
    /// Nothing done yet; `force` (an `update`) ignores an existing lockfile.
    Start { force: bool },
    /// The lockfile is reused: its JDK is being made ready.
    EnsuringJdk { package_count: usize },
    /// The lockfile is reused: its missing artifacts are being downloaded.
    DownloadingLocked { package_count: usize },
    /// Resolution (Java version, BOMs, graph, mediation) is running.
    Resolving,
    /// The checksums of the resolved packages are being fetched.
    Planning,
    /// The planned artifacts are being downloaded; `reused` were already cached.
    Downloading { reused: usize },
    /// `project.lock` is being built and written.
    WritingLockfile { downloaded: usize, reused: usize },
    /// The install is over.
    Finished,
}

/// What the outside step reports.
#[derive(Debug, Clone, PartialEq, Eq)]
pub enum InstallEvent {
    /// Whether `project.lock` exists on disk, whether its manifest hash matches the
    /// current manifests, and how many packages it lists.
    LockChecked { lock_exists: bool, lock_matches: bool, package_count: usize },
    /// The lockfile's JDK is installed.
    JdkReady,
    /// The missing artifacts of the lockfile were downloaded (`true` for each that
    /// succeeded); `reused` were already cached.
    LockedDownloadsDone { outcomes: Vec<bool>, reused: usize },
    /// Resolution produced the mediated graph.
    Resolved,
    /// The downloads are planned; `reused` artifacts are already cached.
    DownloadsPlanned { reused: usize },
    /// The planned downloads ended (`true` for each that succeeded).
    DownloadsDone { outcomes: Vec<bool> },
    /// `project.lock` was written.
    LockfileWritten,
}

/// The next outside step of an install.
#[derive(Debug, PartialEq, Eq)]
pub enum InstallAction {
    EnsureJdk,
    DownloadLocked,
    Resolve,
    PlanDownloads,
    Download,
    WriteLockfile,
    /// The install ends with this result.
    Finish(Result<InstallSummary, CliError>),
    /// The event does not belong to this state: nothing to do.
    Wait,
}

/// One step of `install`/`update`: a reusable lockfile (not forced, on disk, matching
/// the manifests) leads to its JDK and the download of its missing artifacts, and
/// anything else to resolution, planned downloads and a new `project.lock`. A failed
/// download ends the install with `DownloadsFailed(failed, attempted)`.
pub fn install_step(state: InstallState, event: InstallEvent) -> (res: (InstallState, InstallAction))
    requires
        state is WritingLockfile && event is LockfileWritten ==> state->WritingLockfile_downloaded
            + state->WritingLockfile_reused <= usize::MAX,
    ensures
        match (state, event) {
            (InstallState::Start { force }, InstallEvent::LockChecked { lock_exists, lock_matches, package_count }) => if !force
                && lock_exists && lock_matches {
                res == (InstallState::EnsuringJdk { package_count }, InstallAction::EnsureJdk)
            } else {
                res == (InstallState::Resolving, InstallAction::Resolve)
            },
            (InstallState::EnsuringJdk { package_count }, InstallEvent::JdkReady) => res == (
                InstallState::DownloadingLocked { package_count },
                InstallAction::DownloadLocked,
            ),
            (InstallState::DownloadingLocked { package_count }, InstallEvent::LockedDownloadsDone { outcomes, reused }) => {
                &&& res.0 == InstallState::Finished
                &&& if count_failed(outcomes@) > 0 {
                    res.1 == InstallAction::Finish(
                        Err(CliError::DownloadsFailed(count_failed(outcomes@) as usize, outcomes.len())),
                    )
                } else {
                    res.1 == InstallAction::Finish(
                        Ok(
                            InstallSummary {
                                package_count,
                                downloaded_count: outcomes.len(),
                                reused_from_cache_count: reused,
                                reused_lockfile: true,
                            },
                        ),
                    )
                }
            },
            (InstallState::Resolving, InstallEvent::Resolved) => res == (InstallState::Planning, InstallAction::PlanDownloads),
            (InstallState::Planning, InstallEvent::DownloadsPlanned { reused }) => res == (
                InstallState::Downloading { reused },
                InstallAction::Download,
            ),
            (InstallState::Downloading { reused }, InstallEvent::DownloadsDone { outcomes }) => if count_failed(outcomes@)
                > 0 {
                res == (
                    InstallState::Finished,
                    InstallAction::Finish(
                        Err(CliError::DownloadsFailed(count_failed(outcomes@) as usize, outcomes.len())),
                    ),
                )
            } else {
                res == (
                    InstallState::WritingLockfile { downloaded: outcomes.len(), reused },
                    InstallAction::WriteLockfile,
                )
            },
            (InstallState::WritingLockfile { downloaded, reused }, InstallEvent::LockfileWritten) => res == (
                InstallState::Finished,
                InstallAction::Finish(
                    Ok(
                        InstallSummary {
                            package_count: (downloaded + reused) as usize,
                            downloaded_count: downloaded,
                            reused_from_cache_count: reused,
                            reused_lockfile: false,
                        },
                    ),
                ),
            ),
            (s, _) => res == (s, InstallAction::Wait),
        },
{
    match (state, event) {
        (InstallState::Start { force }, InstallEvent::LockChecked { lock_exists, lock_matches, package_count }) => {
            if !force && lock_exists && lock_matches {
                (InstallState::EnsuringJdk { package_count }, InstallAction::EnsureJdk)
            } else {
                (InstallState::Resolving, InstallAction::Resolve)
            }
        },
        (InstallState::EnsuringJdk { package_count }, InstallEvent::JdkReady) => (
            InstallState::DownloadingLocked { package_count },
            InstallAction::DownloadLocked,
        ),
        (InstallState::DownloadingLocked { package_count }, InstallEvent::LockedDownloadsDone { outcomes, reused }) => {
            match check_downloads(&outcomes) {
                Ok(downloaded) => (
                    InstallState::Finished,
                    InstallAction::Finish(
                        Ok(
                            InstallSummary {
                                package_count,
                                downloaded_count: downloaded,
                                reused_from_cache_count: reused,
                                reused_lockfile: true,
                            },
                        ),
                    ),
                ),
                Err(e) => (InstallState::Finished, InstallAction::Finish(Err(e))),
            }
        },
        (InstallState::Resolving, InstallEvent::Resolved) => (InstallState::Planning, InstallAction::PlanDownloads),
        (InstallState::Planning, InstallEvent::DownloadsPlanned { reused }) => (
            InstallState::Downloading { reused },
            InstallAction::Download,
        ),
        (InstallState::Downloading { reused }, InstallEvent::DownloadsDone { outcomes }) => {
            match check_downloads(&outcomes) {
                Ok(downloaded) => (
                    InstallState::WritingLockfile { downloaded, reused },
                    InstallAction::WriteLockfile,
                ),
                Err(e) => (InstallState::Finished, InstallAction::Finish(Err(e))),
            }
        },
        (InstallState::WritingLockfile { downloaded, reused }, InstallEvent::LockfileWritten) => {
            (
                InstallState::Finished,
                InstallAction::Finish(
                    Ok(
                        InstallSummary {
                            package_count: downloaded + reused,
                            downloaded_count: downloaded,
                            reused_from_cache_count: reused,
                            reused_lockfile: false,
                        },
                    ),
                ),
            )
        },
        (s, _) => (s, InstallAction::Wait),
    }
}

} // verus!
