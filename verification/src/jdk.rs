//! JDKs: major versions, where a release is installed, which installed JDK serves a
//! major version, and the check of a downloaded archive.
use crate::cli::error::CliError;
use crate::digest::{hash_bytes, hex, sha256_digest};
use crate::import::interp::first_char;
use crate::lockfile::strings_view;
use crate::paths::{join_path, path_join};
use crate::text::{decimal, str_eq, to_decimal};
use vstd::prelude::*;

verus! {

/// A JDK release: enough to download, verify and install it. `version` is
/// `major.minor.security`, and names the installation directory.
#[derive(Debug, Clone, PartialEq, Eq)]
pub struct JdkRelease {
    pub version: String,
    pub download_url: String,
    pub checksum: String,
    pub filename: String,
}

/// JDK failures that carry only plain values.
#[derive(Debug, Clone, PartialEq, Eq)]
pub enum JdkError {
    /// The distribution API has no release for this major version.
    NoReleaseFound(String),
    /// Automatic installation does not support this platform.
    UnsupportedPlatform { os: String, arch: String },
    /// The downloaded archive does not have the published checksum.
    ChecksumMismatch { filename: String, expected: String, actual: String },
    /// Only a major version (such as `21`) can be installed.
    ExactVersionNotSupported(String),
}

pub open spec fn is_ascii_digit(c: char) -> bool {
    '0' <= c && c <= '9'
}

/// A major version: one or more ASCII digits.
pub open spec fn is_major_version(s: Seq<char>) -> bool {
    s.len() > 0 && forall|i: int| 0 <= i < s.len() ==> is_ascii_digit(#[trigger] s[i])
}

/// `spec` when it is a major version (`"21"`); an exact version such as
/// `"21.0.2-tem"` is refused, never cut down to its major version.
pub fn parse_major_version<'a>(spec: &'a str) -> (res: Result<&'a str, JdkError>)
    ensures
        is_major_version(spec@) ==> res == Ok::<&'a str, JdkError>(spec),
        !is_major_version(spec@) ==> (res matches Err(JdkError::ExactVersionNotSupported(s)) && s@ == spec@),
{
    let n = spec.unicode_len();
    let mut all_digits = n > 0;
    let mut i: usize = 0;
    while i < n
        invariant
            n == spec@.len(),
            i <= n,
            all_digits == (n > 0 && forall|j: int| 0 <= j < i ==> is_ascii_digit(#[trigger] spec@[j])),
        decreases n - i,
    {
        let c = spec.get_char(i);
        if !('0' <= c && c <= '9') {
            all_digits = false;
        }
        proof {
            assert(spec@[i as int] == c);
        }
        i = i + 1;
    }
    if all_digits {
        Ok(spec)
    } else {
        Err(JdkError::ExactVersionNotSupported(String::from_str(spec)))
    }
}

/// The directory of an installed release: `<jdks_root>/<version>-tem`.
pub open spec fn install_dir_of(jdks_root: Seq<char>, version: Seq<char>) -> Seq<char> {
    path_join(jdks_root, version + "-tem"@)
}

pub fn jdk_install_dir(jdks_root: &str, release: &JdkRelease) -> (res: String)
    ensures
        res@ == install_dir_of(jdks_root@, release.version@),
{
    let mut name = String::from_str(release.version.as_str());
    name.append("-tem");
    join_path(jdks_root, name.as_str())
}

/// The part of an installed JDK's name before its first `.` (`"21"` for
/// `"21.0.2-tem"`).
pub open spec fn major_of(name: Seq<char>) -> Seq<char> {
    match first_char(name, '.') {
        Some(i) => name.take(i),
        None => name,
    }
}

pub proof fn lemma_first_char_take(s: Seq<char>, c: char, k: int)
    requires
        0 <= k <= s.len(),
        forall|j: int| 0 <= j < k ==> s[j] != c,
    ensures
        first_char(s, c) == match first_char(s.skip(k), c) {
            Some(i) => Some(i + k),
            None => None::<int>,
        },
    decreases k,
{
    if k > 0 {
        assert(s.skip(1).skip(k - 1) =~= s.skip(k));
        lemma_first_char_take(s.drop_first(), c, k - 1);
        assert(s.drop_first() =~= s.skip(1));
    } else {
        assert(s.skip(0) =~= s);
    }
}

/// Whether the installed JDK `name` has the major version `major`.
pub fn has_major(name: &str, major: &str) -> (res: bool)
    ensures
        res == (major_of(name@) == major@),
{
    let n = name.unicode_len();
    let mut i: usize = 0;
    while i < n && name.get_char(i) != '.'
        invariant
            n == name@.len(),
            i <= n,
            forall|j: int| 0 <= j < i ==> name@[j] != '.',
        decreases n - i,
    {
        i = i + 1;
    }
    proof {
        lemma_first_char_take(name@, '.', i as int);
        if i < n {
            assert(name@.skip(i as int)[0] == '.');
        } else {
            assert(name@.skip(i as int).len() == 0);
            assert(name@.take(i as int) =~= name@);
        }
    }
    let prefix = name.substring_char(0, i);
    proof {
        assert(prefix@ =~= name@.take(i as int));
    }
    str_eq(prefix, major)
}

/// The first installed JDK, in listing order, whose major version is `major`.
pub open spec fn installed_for(installed: Seq<Seq<char>>, major: Seq<char>) -> Option<Seq<char>>
    decreases installed.len(),
{
    if installed.len() == 0 {
        None
    } else if major_of(installed[0]) == major {
        Some(installed[0])
    } else {
        installed_for(installed.drop_first(), major)
    }
}

/// Among the installed JDKs (directory names such as `"21.0.2-tem"`, sorted), the
/// one that serves the major version `feature_version`.
pub fn find_installed(installed: &Vec<String>, feature_version: &str) -> (res: Option<String>)
    ensures
        installed_for(strings_view(installed@), feature_version@) == match res {
            Some(s) => Some(s@),
            None => None::<Seq<char>>,
        },
{
    let ghost names = strings_view(installed@);
    let mut i: usize = 0;
    proof {
        assert(names.skip(0) =~= names);
    }
    while i < installed.len()
        invariant
            names == strings_view(installed@),
            i <= installed@.len(),
            installed_for(names, feature_version@) == installed_for(names.skip(i as int), feature_version@),
        decreases installed@.len() - i,
    {
        proof {
            assert(names.skip(i as int)[0] == installed@[i as int]@);
            assert(names.skip(i as int).drop_first() =~= names.skip(i + 1));
        }
        if has_major(installed[i].as_str(), feature_version) {
            return Some(installed[i].clone());
        }
        i = i + 1;
    }
    None
}

/// The check of a downloaded JDK archive against the release's published SHA-256.
pub fn check_archive(bytes: &[u8], release: &JdkRelease) -> (res: Result<(), JdkError>)
    ensures
        hex(sha256_digest(bytes@)) == release.checksum@ ==> res is Ok,
        hex(sha256_digest(bytes@)) != release.checksum@ ==> (res matches Err(
            JdkError::ChecksumMismatch { filename: f, expected: e, actual: a },
        ) && f@ == release.filename@ && e@ == release.checksum@ && a@ == hex(sha256_digest(bytes@))),
{
    let actual = hash_bytes(bytes);
    if !str_eq(actual.as_str(), release.checksum.as_str()) {
        return Err(
            JdkError::ChecksumMismatch { filename: release.filename.clone(), expected: release.checksum.clone(), actual },
        );
    }
    Ok(())
}

/// The `(os, architecture)` parameters of the distribution API for the platform
/// that Rust names `(os, arch)`: Linux and macOS on x86-64 and AArch64 only.
pub open spec fn platform_of(os: Seq<char>, arch: Seq<char>) -> Result<(Seq<char>, Seq<char>), (Seq<char>, Seq<char>)> {
    let api_os = if os == "linux"@ {
        Some("linux"@)
    } else if os == "macos"@ {
        Some("mac"@)
    } else {
        None
    };
    match api_os {
        None => Err((os, arch)),
        Some(o) => if arch == "x86_64"@ {
            Ok((o, "x64"@))
        } else if arch == "aarch64"@ {
            Ok((o, "aarch64"@))
        } else {
            Err((o, arch))
        },
    }
}

pub fn platform_for(os: &str, arch: &str) -> (res: Result<(String, String), JdkError>)
    ensures
        match platform_of(os@, arch@) {
            Ok((o, a)) => res matches Ok(p) && p.0@ == o && p.1@ == a,
            Err((o, a)) => res matches Err(JdkError::UnsupportedPlatform { os: eo, arch: ea }) && eo@ == o && ea@ == a,
        },
{
    proof {
        reveal_strlit("linux");
        reveal_strlit("macos");
        reveal_strlit("x86_64");
        reveal_strlit("aarch64");
    }
    let api_os = if str_eq(os, "linux") {
        "linux"
    } else if str_eq(os, "macos") {
        "mac"
    } else {
        return Err(JdkError::UnsupportedPlatform { os: String::from_str(os), arch: String::from_str(arch) });
    };
    if str_eq(arch, "x86_64") {
        Ok((String::from_str(api_os), String::from_str("x64")))
    } else if str_eq(arch, "aarch64") {
        Ok((String::from_str(api_os), String::from_str("aarch64")))
    } else {
        Err(JdkError::UnsupportedPlatform { os: String::from_str(api_os), arch: String::from_str(arch) })
    }
}

/// The JDK found for a major version is an installed one with that major version,
/// the first in listing order; none is found only when no installed JDK has it.
pub proof fn law_found_jdk_has_major(installed: Seq<Seq<char>>, major: Seq<char>)
    ensures
        match installed_for(installed, major) {
            Some(n) => exists|i: int|
                0 <= i < installed.len() && installed[i] == n && major_of(n) == major && forall|j: int|
                    0 <= j < i ==> major_of(#[trigger] installed[j]) != major,
            None => forall|i: int| 0 <= i < installed.len() ==> major_of(#[trigger] installed[i]) != major,
        },
    decreases installed.len(),
{
    if installed.len() > 0 {
        law_found_jdk_has_major(installed.drop_first(), major);
        if major_of(installed[0]) != major {
            match installed_for(installed.drop_first(), major) {
                Some(n) => {
                    let i = choose|i: int|
                        0 <= i < installed.drop_first().len() && installed.drop_first()[i] == n && major_of(n) == major
                            && forall|j: int| 0 <= j < i ==> major_of(#[trigger] installed.drop_first()[j]) != major;
                    assert(installed[i + 1] == n);
                    assert forall|j: int| 0 <= j < i + 1 implies major_of(#[trigger] installed[j]) != major by {
                        if j > 0 {
                            assert(installed[j] == installed.drop_first()[j - 1]);
                        }
                    }
                },
                None => {
                    assert forall|i: int| 0 <= i < installed.len() implies major_of(#[trigger] installed[i]) != major by {
                        if i > 0 {
                            assert(installed[i] == installed.drop_first()[i - 1]);
                        }
                    }
                },
            }
        } else {
            assert(installed[0] == installed[0]);
        }
    }
}

/// `s` without its trailing `/` characters.
pub open spec fn without_trailing_slashes(s: Seq<char>) -> Seq<char>
    decreases s.len(),
{
    if s.len() > 0 && s.last() == '/' {
        without_trailing_slashes(s.drop_last())
    } else {
        s
    }
}

fn strip_trailing_slashes(s: &str) -> (res: &str)
    ensures
        res@ == without_trailing_slashes(s@),
{
    let n = s.unicode_len();
    let mut b: usize = n;
    proof {
        assert(s@.take(n as int) =~= s@);
    }
    while b > 0 && s.get_char(b - 1) == '/'
        invariant
            n == s@.len(),
            b <= n,
            without_trailing_slashes(s@) == without_trailing_slashes(s@.take(b as int)),
        decreases b,
    {
        proof {
            assert(s@.take(b as int).last() == s@[b - 1]);
            assert(s@.take(b as int).drop_last() =~= s@.take(b - 1));
        }
        b = b - 1;
    }
    proof {
        if b > 0 {
            assert(s@.take(b as int).last() == s@[b - 1]);
        }
    }
    s.substring_char(0, b)
}

/// The distribution API query for the latest `hotspot` JDK of a major version on
/// a platform (in the API's own names for it).
pub open spec fn latest_release_url_of(base: Seq<char>, feature: Seq<char>, os: Seq<char>, arch: Seq<char>) -> Seq<char> {
    without_trailing_slashes(base) + "/v3/assets/latest/"@ + feature + "/hotspot?architecture="@ + arch
        + "&image_type=jdk&os="@ + os
}

pub fn latest_release_url(base: &str, feature_version: &str, os: &str, arch: &str) -> (res: String)
    ensures
        res@ == latest_release_url_of(base@, feature_version@, os@, arch@),
{
    let mut url = String::from_str(strip_trailing_slashes(base));
    url.append("/v3/assets/latest/");
    url.append(feature_version);
    url.append("/hotspot?architecture=");
    url.append(arch);
    url.append("&image_type=jdk&os=");
    url.append(os);
    url
}

/// The distribution API query that tells the most recent LTS major version.
pub fn available_releases_url(base: &str) -> (res: String)
    ensures
        res@ == without_trailing_slashes(base@) + "/v3/info/available_releases"@,
{
    let mut url = String::from_str(strip_trailing_slashes(base));
    url.append("/v3/info/available_releases");
    url
}

/// The release described by the first asset the API lists, versioned
/// `major.minor.security`; `NoReleaseFound` when it lists none.
pub fn first_release(
    assets: &Vec<(u32, u32, u32, String, String, String)>,
    feature_version: &str,
) -> (res: Result<JdkRelease, JdkError>)
    ensures
        assets@.len() == 0 ==> (res matches Err(JdkError::NoReleaseFound(f)) && f@ == feature_version@),
        assets@.len() > 0 ==> ({
            let a = assets@[0];
            &&& res matches Ok(r)
            &&& r.version@ == decimal(a.0 as nat) + "."@ + decimal(a.1 as nat) + "."@ + decimal(a.2 as nat)
            &&& r.download_url@ == a.3@
            &&& r.checksum@ == a.4@
            &&& r.filename@ == a.5@
        }),
{
    if assets.len() == 0 {
        return Err(JdkError::NoReleaseFound(String::from_str(feature_version)));
    }
    let a = &assets[0];
    let mut version = to_decimal(a.0 as usize);
    version.append(".");
    let minor = to_decimal(a.1 as usize);
    version.append(minor.as_str());
    version.append(".");
    let security = to_decimal(a.2 as usize);
    version.append(security.as_str());
    Ok(JdkRelease { version, download_url: a.3.clone(), checksum: a.4.clone(), filename: a.5.clone() })
}

} // verus!
