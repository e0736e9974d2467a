//! The commands of the command line, as plain values.
use crate::cli::error::CliError;
use crate::text::{decimal, to_decimal};
use vstd::prelude::*;

verus! {

/// The parsed command line.
#[derive(Debug, Clone, PartialEq, Eq)]
pub struct Cli {
    pub command: Command,
}

#[derive(Debug, Clone, PartialEq, Eq)]
pub enum Command {
    /// Resolve and download according to `project.lock`, writing it when missing or stale.
    Install,
    /// Regenerate `project.lock` whatever its validity; a single coordinate is not supported.
    Update { coordinate: Option<String> },
    /// Add a dependency to `[dependencies]` and resolve.
    Add { coordinate: String, dev: bool },
    /// Remove a dependency from `[dependencies]` and resolve again.
    Remove { coordinate: String },
    /// Print the resolved dependency tree.
    Tree,
    /// Explain where an artifact of the resolved graph comes from.
    Why { coordinate: String },
    /// Manage JDKs.
    Jdk { action: JdkCommand },
}

#[derive(Debug, Clone, PartialEq, Eq)]
pub enum JdkCommand {
    /// Install the latest release of a major version.
    Install { version: String },
    /// List the installed JDKs.
    List,
}

/// Commands refused before any work: a targeted `update`.
pub fn check_command(command: &Command) -> (res: Result<(), CliError>)
    ensures
        (command matches Command::Update { coordinate: Some(_) }) ==> res == Err::<(), CliError>(
            CliError::TargetedUpdateNotSupported,
        ),
        !(command matches Command::Update { coordinate: Some(_) }) ==> res is Ok,
{
    match command {
        Command::Update { coordinate: Some(_) } => Err(CliError::TargetedUpdateNotSupported),
        _ => Ok(()),
    }
}

/// The options of `jvmfast test`.
#[derive(Debug, Clone, PartialEq, Eq)]
pub struct TestOptions {
    pub filter: Option<String>,
    pub fail_fast: bool,
    pub report_xml: bool,
}

/// `test` refuses `--fail-fast` before any work.
pub fn check_test_options(options: &TestOptions) -> (res: Result<(), CliError>)
    ensures
        options.fail_fast ==> res == Err::<(), CliError>(CliError::FailFastNotSupported),
        !options.fail_fast ==> res is Ok,
{
    if options.fail_fast {
        Err(CliError::FailFastNotSupported)
    } else {
        Ok(())
    }
}

/// The end of `jvmfast test`: the test run's exit status (`None` when a signal
/// ended it) decides between success and `TestsFailed`.
pub fn test_outcome(compiled: usize, copied: usize, success: bool, code: Option<i32>) -> (res: Result<
    String,
    CliError,
>)
    ensures
        success ==> (res matches Ok(m) && m@ == "compiled "@ + decimal(compiled as nat) + " test file(s), copied "@
            + decimal(copied as nat) + " test resource(s) — all tests passed"@),
        !success ==> res == Err::<String, CliError>(
            CliError::TestsFailed(
                match code {
                    Some(c) => c,
                    None => -1i32,
                },
            ),
        ),
{
    if !success {
        let c = match code {
            Some(c) => c,
            None => -1,
        };
        return Err(CliError::TestsFailed(c));
    }
    let mut m = String::from_str("compiled ");
    let a = to_decimal(compiled);
    m.append(a.as_str());
    m.append(" test file(s), copied ");
    let b = to_decimal(copied);
    m.append(b.as_str());
    m.append(" test resource(s) — all tests passed");
    Ok(m)
}

} // verus!
