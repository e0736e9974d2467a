//! `jvmfast jdk list` and `jvmfast jdk use`.
use crate::cli::error::CliError;
use crate::cli::why::joined;
use crate::jdk::{has_major, is_major_version, major_of, parse_major_version, JdkError};
use crate::lockfile::strings_view;
use vstd::prelude::*;

verus! {

/// One line of `jdk list`: the JDK, marked when it is the configured default.
pub open spec fn list_line(name: Seq<char>, default_major: Option<Seq<char>>) -> Seq<char> {
    if default_major == Some(major_of(name)) {
        name + " (default)"@
    } else {
        name
    }
}

pub open spec fn list_lines(names: Seq<Seq<char>>, default_major: Option<Seq<char>>) -> Seq<Seq<char>> {
    names.map_values(|n: Seq<char>| list_line(n, default_major))
}

/// The text of `jdk list` for the installed JDKs, in order.
pub open spec fn jdk_list_text(names: Seq<Seq<char>>, default_major: Option<Seq<char>>) -> Seq<char> {
    if names.len() == 0 {
        "no JDKs installed — run `jvmfast jdk install <version>`"@
    } else {
        joined(list_lines(names, default_major), "\n"@)
    }
}

/// The installed JDKs one per line, the one whose major version is the configured
/// default marked `(default)`.
pub fn format_jdk_list(installed: &Vec<String>, default_major: Option<&str>) -> (res: String)
    ensures
        res@ == jdk_list_text(
            strings_view(installed@),
            match default_major {
                Some(d) => Some(d@),
                None => None,
            },
        ),
{
    let ghost dm = match default_major {
        Some(d) => Some(d@),
        None => None::<Seq<char>>,
    };
    if installed.len() == 0 {
        return String::from_str("no JDKs installed — run `jvmfast jdk install <version>`");
    }
    let ghost lines = list_lines(strings_view(installed@), dm);
    let mut out = String::new();
    let mut i: usize = 0;
    proof {
        assert(lines.take(0) =~= Seq::<Seq<char>>::empty());
    }
    while i < installed.len()
        invariant
            i <= installed@.len(),
            lines == list_lines(strings_view(installed@), dm),
            dm == match default_major {
                Some(d) => Some(d@),
                None => None::<Seq<char>>,
            },
            out@ == joined(lines.take(i as int), "\n"@),
        decreases installed@.len() - i,
    {
        let name = installed[i].as_str();
        let is_default = match default_major {
            Some(d) => has_major(name, d),
            None => false,
        };
        let ghost t = lines.take(i + 1);
        proof {
            assert(t.drop_last() =~= lines.take(i as int));
            assert(t.last() == list_line(name@, dm));
        }
        if i > 0 {
            out.append("\n");
        }
        out.append(name);
        if is_default {
            out.append(" (default)");
        }
        proof {
            assert(out@ =~= joined(t, "\n"@));
        }
        i = i + 1;
    }
    proof {
        assert(lines.take(i as int) =~= lines);
    }
    out
}

/// The decision of `jdk use <version>`: the major version to make the default,
/// which must already be installed.
pub fn select_default_jdk(version_spec: &str, installed: &Vec<String>) -> (res: Result<String, CliError>)
    ensures
        !is_major_version(version_spec@) ==> (res matches Err(CliError::Jdk(JdkError::ExactVersionNotSupported(s)))
            && s@ == version_spec@),
        is_major_version(version_spec@) && (exists|i: int|
            0 <= i < installed@.len() && major_of(#[trigger] installed@[i]@) == version_spec@) ==> (res matches Ok(
            v,
        ) && v@ == version_spec@),
        is_major_version(version_spec@) && !(exists|i: int|
            0 <= i < installed@.len() && major_of(#[trigger] installed@[i]@) == version_spec@) ==> (res matches Err(
            CliError::JavaVersionNotInstalled(s),
        ) && s@ == version_spec@),
{
    let feature = match parse_major_version(version_spec) {
        Ok(f) => f,
        Err(e) => {
            return Err(CliError::Jdk(e));
        },
    };
    let mut i: usize = 0;
    while i < installed.len()
        invariant
            i <= installed@.len(),
            feature@ == version_spec@,
            is_major_version(version_spec@),
            forall|j: int| 0 <= j < i ==> major_of(#[trigger] installed@[j]@) != feature@,
        decreases installed@.len() - i,
    {
        if has_major(installed[i].as_str(), feature) {
            return Ok(String::from_str(feature));
        }
        i = i + 1;
    }
    Err(CliError::JavaVersionNotInstalled(String::from_str(feature)))
}

pub fn format_use_jdk(feature_version: &str) -> (res: String)
    ensures
        res@ == "default JDK set to "@ + feature_version@,
{
    let mut s = String::from_str("default JDK set to ");
    s.append(feature_version);
    s
}

pub fn format_install_jdk(version: &str, path: &str) -> (res: String)
    ensures
        res@ == "Temurin "@ + version@ + " installed at "@ + path@,
{
    let mut s = String::from_str("Temurin ");
    s.append(version);
    s.append(" installed at ");
    s.append(path);
    s
}

} // verus!
