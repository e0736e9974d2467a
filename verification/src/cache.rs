//! The content-addressable artifact cache: where an artifact lives, and the check
//! that an artifact's bytes have the checksum they are stored under.
use crate::digest::{hash_bytes, hex, sha256_digest};
use crate::paths::{join_path, path_join};
use crate::text::str_eq;
use vstd::prelude::*;
use vstd::string::StringSliceAdditionalSpecFns;
use vstd::utf8::{decode_utf8, encode_utf8, is_char_boundary};

verus! {

/// Failures of the cache that do not come from the file system.
#[derive(Debug, Clone, PartialEq, Eq)]
pub enum CacheError {
    /// The bytes of `filename` do not hash to `expected`.
    ChecksumMismatch { filename: String, expected: String, actual: String },
}

/// The metadata kept for a cached artifact.
#[derive(Debug, Clone, PartialEq, Eq)]
pub struct CachedArtifact {
    pub coordinate: String,
    pub version: String,
    pub sha256: String,
    pub filename: String,
}

/// The characters of `s` whose UTF-8 encoding is the byte range `a..b`, as
/// `&s[a..b]` gives them.
pub open spec fn byte_slice(s: Seq<char>, a: int, b: int) -> Seq<char> {
    decode_utf8(encode_utf8(s).subrange(a, b))
}

/// `&sha256[0..2]` and `&sha256[2..4]` are defined: at least four bytes, with
/// character boundaries at bytes 2 and 4.
pub open spec fn shardable(sha256: Seq<char>) -> bool {
    &&& encode_utf8(sha256).len() >= 4
    &&& is_char_boundary(encode_utf8(sha256), 2)
    &&& is_char_boundary(encode_utf8(sha256), 4)
}

/// `<root>/artifacts/sha256/<first two bytes>/<next two bytes>/<sha256>/<filename>`.
pub open spec fn artifact_path_of(root: Seq<char>, sha256: Seq<char>, filename: Seq<char>) -> Seq<char> {
    path_join(
        path_join(
            path_join(
                path_join(path_join(path_join(root, "artifacts"@), "sha256"@), byte_slice(sha256, 0, 2)),
                byte_slice(sha256, 2, 4),
            ),
            sha256,
        ),
        filename,
    )
}

/// Artifact storage keyed by SHA-256, never by name, so that every project shares
/// one copy of a JAR on disk.
pub struct CacheStore {
    root: String,
}

impl CacheStore {
    /// The directory the store lives in.
    pub closed spec fn root_dir(&self) -> Seq<char> {
        self.root@
    }

    pub fn new(root: &str) -> (res: Self)
        ensures
            res.root_dir() == root@,
    {
        CacheStore { root: String::from_str(root) }
    }

    /// Where the artifact `filename` with checksum `sha256` lives: sharded on two
    /// levels by the first four bytes of the checksum, so that no directory holds
    /// tens of thousands of entries.
    pub fn artifact_path(&self, sha256: &str, filename: &str) -> (res: String)
        requires
            shardable(sha256@),
        ensures
            res@ == artifact_path_of(self.root_dir(), sha256@, filename@),
    {
        broadcast use vstd::utf8::encode_utf8_valid_utf8, vstd::utf8::encode_utf8_decode_utf8;

        let ghost bytes = encode_utf8(sha256@);
        let (first, rest) = sha256.split_at(2);
        proof {
            let n = bytes.len() as int;
            vstd::utf8::valid_utf8_split(bytes, 2);
            assert(rest.spec_bytes() =~= bytes.subrange(2, n));
            if n == 4 {
                vstd::utf8::is_char_boundary_start_end_of_seq(rest.spec_bytes());
            } else {
                vstd::utf8::is_char_boundary_iff_not_is_continuation_byte(bytes, 4);
                vstd::utf8::is_char_boundary_iff_not_is_continuation_byte(rest.spec_bytes(), 2);
                assert(rest.spec_bytes()[2] == bytes[4]);
            }
        }
        let (second, _) = rest.split_at(2);
        proof {
            assert(first@ == decode_utf8(encode_utf8(first@)));
            assert(second@ == decode_utf8(encode_utf8(second@)));
            assert(second.spec_bytes() =~= bytes.subrange(2, 4));
        }
        let p = join_path(self.root.as_str(), "artifacts");
        let p = join_path(p.as_str(), "sha256");
        let p = join_path(p.as_str(), first);
        let p = join_path(p.as_str(), second);
        let p = join_path(p.as_str(), sha256);
        join_path(p.as_str(), filename)
    }
}

/// The check made before an artifact is stored: its bytes must hash to
/// `expected_sha256`. Returns the actual hash.
pub fn check_artifact(contents: &[u8], expected_sha256: &str, filename: &str) -> (res: Result<String, CacheError>)
    ensures
        hex(sha256_digest(contents@)) == expected_sha256@ ==> (res matches Ok(h) && h@ == expected_sha256@),
        hex(sha256_digest(contents@)) != expected_sha256@ ==> (res matches Err(
            CacheError::ChecksumMismatch { filename: f, expected: e, actual: a },
        ) && f@ == filename@ && e@ == expected_sha256@ && a@ == hex(sha256_digest(contents@))),
{
    let actual = hash_bytes(contents);
    if !str_eq(actual.as_str(), expected_sha256) {
        return Err(
            CacheError::ChecksumMismatch {
                filename: String::from_str(filename),
                expected: String::from_str(expected_sha256),
                actual,
            },
        );
    }
    Ok(actual)
}

} // verus!
