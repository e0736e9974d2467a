//! Artifact downloads: requests, published checksums and the checks made on what
//! comes back.
use crate::cache::{artifact_path_of, shardable, CacheStore};
use crate::digest::{hash_bytes, hash_sha1, hex, sha1_digest, sha256_digest};
use crate::text::{is_white, is_whitespace, str_eq, trim_start};
use vstd::prelude::*;

verus! {

/// An artifact to download: its URL, its file name in the cache and the SHA-256 it
/// must have, already known and trusted (from the lockfile).
#[derive(Debug, Clone, PartialEq, Eq)]
pub struct ArtifactRequest {
    pub url: String,
    pub filename: String,
    pub expected_sha256: String,
}

/// The checksum a repository publishes for an artifact: `.sha256` is preferred,
/// `.sha1` is what many artifacts only have.
#[derive(Debug, Clone, PartialEq, Eq)]
pub enum PublishedChecksum {
    Sha256(String),
    Sha1(String),
}

impl PublishedChecksum {
    pub open spec fn algorithm(&self) -> Seq<char> {
        match self {
            PublishedChecksum::Sha256(_) => "sha256"@,
            PublishedChecksum::Sha1(_) => "sha1"@,
        }
    }

    pub fn algorithm_name(&self) -> (res: &'static str)
        ensures
            res@ == self.algorithm(),
    {
        match self {
            PublishedChecksum::Sha256(_) => "sha256",
            PublishedChecksum::Sha1(_) => "sha1",
        }
    }
}

/// An artifact downloaded, verified and cached; `sha256` is always the hash of its
/// bytes, whatever the repository published.
#[derive(Debug, Clone, PartialEq, Eq)]
pub struct ResolvedArtifact {
    pub path: String,
    pub sha256: String,
    pub reused_from_cache: bool,
}

/// Download failures that carry only plain values.
#[derive(Debug, Clone, PartialEq, Eq)]
pub enum DownloadError {
    /// Unexpected HTTP status.
    Status { url: String, status: u16 },
    /// The checksum file at `url` holds no checksum.
    EmptyChecksum { url: String },
    /// The downloaded bytes do not match the published checksum.
    ChecksumMismatch { url: String, algorithm: String, expected: String, actual: String },
}

/// The Unicode lowercase of `s`, as `str::to_lowercase` gives it.
pub uninterp spec fn unicode_lowercase(s: Seq<char>) -> Seq<char>;

/// `str::to_lowercase` of std. Trusted: the result is the Unicode lowercase of `s`;
/// the mapping itself is not stated.
#[verifier::external_body]
fn to_lowercase(s: &str) -> (res: String)
    ensures
        res@ == unicode_lowercase(s@),
{
    s.to_lowercase()
}

/// Index of the first whitespace character of `s` (its length when there is none).
pub open spec fn token_end(s: Seq<char>) -> int
    decreases s.len(),
{
    if s.len() == 0 || is_white(s[0]) {
        0
    } else {
        1 + token_end(s.drop_first())
    }
}

/// The first whitespace-separated word of `s`, if any.
pub open spec fn first_word(s: Seq<char>) -> Option<Seq<char>> {
    let t = trim_start(s);
    if t.len() == 0 {
        None
    } else {
        Some(t.take(token_end(t)))
    }
}

pub proof fn lemma_token_end(s: Seq<char>)
    ensures
        0 <= token_end(s) <= s.len(),
        forall|i: int| 0 <= i < token_end(s) ==> !is_white(#[trigger] s[i]),
        token_end(s) < s.len() ==> is_white(s[token_end(s)]),
    decreases s.len(),
{
    if s.len() > 0 && !is_white(s[0]) {
        lemma_token_end(s.drop_first());
        assert forall|i: int| 0 <= i < token_end(s) implies !is_white(#[trigger] s[i]) by {
            if i > 0 {
                assert(s[i] == s.drop_first()[i - 1]);
            }
        }
        if token_end(s) < s.len() {
            assert(s[token_end(s)] == s.drop_first()[token_end(s) - 1]);
        }
    }
}

proof fn lemma_token_end_skip(s: Seq<char>, a: int, b: int)
    requires
        0 <= a <= b <= s.len(),
        forall|i: int| a <= i < b ==> !is_white(#[trigger] s[i]),
    ensures
        token_end(s.skip(a)) == (b - a) + token_end(s.skip(b)),
    decreases b - a,
{
    if a < b {
        assert(s.skip(a)[0] == s[a]);
        assert(s.skip(a).drop_first() =~= s.skip(a + 1));
        lemma_token_end_skip(s, a + 1, b);
    }
}

/// The checksum read from a checksum file: its first word, lowercased.
/// `EmptyChecksum` when the file holds no word.
pub fn parse_sidecar(text: &str, sidecar_url: &str) -> (res: Result<String, DownloadError>)
    ensures
        match first_word(text@) {
            Some(w) => if unicode_lowercase(w).len() > 0 {
                res matches Ok(h) && h@ == unicode_lowercase(w)
            } else {
                res matches Err(DownloadError::EmptyChecksum { url }) && url@ == sidecar_url@
            },
            None => res matches Err(DownloadError::EmptyChecksum { url }) && url@ == sidecar_url@,
        },
{
    let n = text.unicode_len();
    let mut a: usize = 0;
    proof {
        assert(text@.skip(0) =~= text@);
    }
    while a < n && is_whitespace(text.get_char(a))
        invariant
            n == text@.len(),
            a <= n,
            trim_start(text@) == trim_start(text@.skip(a as int)),
        decreases n - a,
    {
        proof {
            assert(text@.skip(a as int)[0] == text@[a as int]);
            assert(text@.skip(a as int).drop_first() =~= text@.skip(a + 1));
        }
        a = a + 1;
    }
    proof {
        if a < n {
            assert(text@.skip(a as int)[0] == text@[a as int]);
        }
    }
    if a == n {
        proof {
            assert(trim_start(text@).len() == 0);
        }
        return Err(DownloadError::EmptyChecksum { url: String::from_str(sidecar_url) });
    }
    let mut b: usize = a;
    while b < n && !is_whitespace(text.get_char(b))
        invariant
            n == text@.len(),
            a <= b <= n,
            forall|i: int| a <= i < b ==> !is_white(#[trigger] text@[i]),
        decreases n - b,
    {
        b = b + 1;
    }
    proof {
        let t = text@.skip(a as int);
        lemma_token_end_skip(text@, a as int, b as int);
        if b < n {
            assert(text@.skip(b as int)[0] == text@[b as int]);
        }
        assert(token_end(t) == b - a);
    }
    let word = text.substring_char(a, b);
    proof {
        assert(word@ =~= text@.skip(a as int).take(b - a));
    }
    let lower = to_lowercase(word);
    if lower.as_str().unicode_len() == 0 {
        return Err(DownloadError::EmptyChecksum { url: String::from_str(sidecar_url) });
    }
    Ok(lower)
}

/// What fetching the preferred `.sha256` checksum file gave.
#[derive(Debug, Clone, PartialEq, Eq)]
pub enum SidecarOutcome {
    /// Its checksum.
    Found(String),
    /// HTTP 404: the repository does not publish one.
    NotFound,
    /// Any other failure, which is not a reason to try another file.
    Failed,
}

/// What to do next when looking for an artifact's published checksum.
#[derive(Debug, Clone, PartialEq, Eq)]
pub enum ChecksumStep {
    /// The published checksum is known.
    Use(PublishedChecksum),
    /// Only a confirmed absence of `.sha256` leads to fetching `.sha1`.
    FetchSha1,
    /// Report the failure.
    Fail,
}

pub fn after_sha256_sidecar(outcome: SidecarOutcome) -> (res: ChecksumStep)
    ensures
        match outcome {
            SidecarOutcome::Found(h) => res == ChecksumStep::Use(PublishedChecksum::Sha256(h)),
            SidecarOutcome::NotFound => res == ChecksumStep::FetchSha1,
            SidecarOutcome::Failed => res == ChecksumStep::Fail,
        },
{
    match outcome {
        SidecarOutcome::Found(h) => ChecksumStep::Use(PublishedChecksum::Sha256(h)),
        SidecarOutcome::NotFound => ChecksumStep::FetchSha1,
        SidecarOutcome::Failed => ChecksumStep::Fail,
    }
}

/// With a published SHA-256 already in the cache, the artifact is not downloaded
/// again. A published SHA-1 never allows that: the cache is keyed by SHA-256.
pub fn cached_artifact(store: &CacheStore, checksum: &PublishedChecksum, filename: &str, is_cached: bool) -> (res: Option<
    ResolvedArtifact,
>)
    requires
        checksum matches PublishedChecksum::Sha256(h) ==> shardable(h@),
    ensures
        match checksum {
            PublishedChecksum::Sha256(h) => if is_cached {
                res matches Some(a) && a.path@ == artifact_path_of(store.root_dir(), h@, filename@) && a.sha256@ == h@
                    && a.reused_from_cache
            } else {
                res is None
            },
            PublishedChecksum::Sha1(_) => res is None,
        },
{
    match checksum {
        PublishedChecksum::Sha256(h) => if is_cached {
            Some(
                ResolvedArtifact {
                    path: store.artifact_path(h.as_str(), filename),
                    sha256: h.clone(),
                    reused_from_cache: true,
                },
            )
        } else {
            None
        },
        PublishedChecksum::Sha1(_) => None,
    }
}

/// The check of downloaded bytes against the published checksum. Returns the
/// SHA-256 of the bytes, under which they are cached.
pub fn verify_download(checksum: &PublishedChecksum, contents: &[u8], url: &str) -> (res: Result<String, DownloadError>)
    ensures
        match checksum {
            PublishedChecksum::Sha256(expected) => if hex(sha256_digest(contents@)) == expected@ {
                res matches Ok(h) && h@ == hex(sha256_digest(contents@))
            } else {
                res matches Err(DownloadError::ChecksumMismatch { url: u, algorithm: a, expected: e, actual: x })
                    && u@ == url@ && a@ == "sha256"@ && e@ == expected@ && x@ == hex(sha256_digest(contents@))
            },
            PublishedChecksum::Sha1(expected) => if hex(sha1_digest(contents@)) == expected@ {
                res matches Ok(h) && h@ == hex(sha256_digest(contents@))
            } else {
                res matches Err(DownloadError::ChecksumMismatch { url: u, algorithm: a, expected: e, actual: x })
                    && u@ == url@ && a@ == "sha1"@ && e@ == expected@ && x@ == hex(sha1_digest(contents@))
            },
        },
{
    match checksum {
        PublishedChecksum::Sha256(expected) => {
            let actual = hash_bytes(contents);
            if !str_eq(actual.as_str(), expected.as_str()) {
                return Err(
                    DownloadError::ChecksumMismatch {
                        url: String::from_str(url),
                        algorithm: String::from_str(checksum.algorithm_name()),
                        expected: expected.clone(),
                        actual,
                    },
                );
            }
            Ok(actual)
        },
        PublishedChecksum::Sha1(expected) => {
            let actual = hash_sha1(contents);
            if !str_eq(actual.as_str(), expected.as_str()) {
                return Err(
                    DownloadError::ChecksumMismatch {
                        url: String::from_str(url),
                        algorithm: String::from_str(checksum.algorithm_name()),
                        expected: expected.clone(),
                        actual,
                    },
                );
            }
            Ok(hash_bytes(contents))
        },
    }
}

/// How a response status is handled while fetching.
#[derive(Debug, Clone, Copy, PartialEq, Eq)]
pub enum StatusClass {
    /// 2xx: the body is the answer.
    Success,
    /// 404 is definitive: no retry, and a missing checksum file can fall back.
    NotFound,
    /// Any other status may be transient: try again while attempts remain.
    Retry,
}

pub fn classify_status(status: u16) -> (res: StatusClass)
    ensures
        res == if 200 <= status < 300 {
            StatusClass::Success
        } else if status == 404 {
            StatusClass::NotFound
        } else {
            StatusClass::Retry
        },
{
    if 200 <= status && status < 300 {
        StatusClass::Success
    } else if status == 404 {
        StatusClass::NotFound
    } else {
        StatusClass::Retry
    }
}

/// The number of attempts of a fetch: the configured retries, at least one.
pub fn attempts_for(max_retries: u32) -> (res: u32)
    ensures
        res == if max_retries == 0 {
            1
        } else {
            max_retries
        },
{
    if max_retries == 0 {
        1
    } else {
        max_retries
    }
}

} // verus!
