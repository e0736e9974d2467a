//! SHA-256 and SHA-1 digests, from the `sha2` and `sha1` crates, in lowercase hex.
use sha1::Sha1;
use sha2::{Digest, Sha256};
use vstd::prelude::*;

verus! {

/// The SHA-256 digest of `data`.
pub uninterp spec fn sha256_digest(data: Seq<u8>) -> Seq<u8>;

/// The SHA-1 digest of `data`.
pub uninterp spec fn sha1_digest(data: Seq<u8>) -> Seq<u8>;

/// `Sha256::digest` of the `sha2` crate. Trusted: the result is the SHA-256 digest
/// of `data`, which has 32 bytes (the output size of `Sha256`).
#[verifier::external_body]
fn sha256_of(data: &[u8]) -> (res: Vec<u8>)
    ensures
        res@ == sha256_digest(data@),
        res@.len() == 32,
{
    Sha256::digest(data).to_vec()
}

/// `Sha1::digest` of the `sha1` crate. Trusted: the result is the SHA-1 digest of
/// `data`, which has 20 bytes (the output size of `Sha1`).
#[verifier::external_body]
fn sha1_of(data: &[u8]) -> (res: Vec<u8>)
    ensures
        res@ == sha1_digest(data@),
        res@.len() == 20,
{
    Sha1::digest(data).to_vec()
}

/// The lowercase hexadecimal digit `d`.
pub open spec fn hex_digit(d: nat) -> char {
    if d < 10 {
        crate::text::digit_char(d)
    } else if d == 10 {
        'a'
    } else if d == 11 {
        'b'
    } else if d == 12 {
        'c'
    } else if d == 13 {
        'd'
    } else if d == 14 {
        'e'
    } else {
        'f'
    }
}

/// Two lowercase hex digits per byte.
pub open spec fn hex(bytes: Seq<u8>) -> Seq<char>
    decreases bytes.len(),
{
    if bytes.len() == 0 {
        Seq::empty()
    } else {
        let b = bytes.last();
        hex(bytes.drop_last()) + seq![hex_digit((b / 16) as nat), hex_digit((b % 16) as nat)]
    }
}

/// A lowercase hexadecimal digit.
pub open spec fn is_lower_hex(c: char) -> bool {
    ('0' <= c && c <= '9') || ('a' <= c && c <= 'f')
}

/// Hex text has two lowercase hex digits per byte.
pub proof fn lemma_hex_form(bytes: Seq<u8>)
    ensures
        hex(bytes).len() == 2 * bytes.len(),
        forall|i: int| 0 <= i < hex(bytes).len() ==> is_lower_hex(#[trigger] hex(bytes)[i]),
    decreases bytes.len(),
{
    if bytes.len() > 0 {
        lemma_hex_form(bytes.drop_last());
        let b = bytes.last();
        let h = hex(bytes.drop_last());
        assert forall|d: nat| d < 16 implies is_lower_hex(#[trigger] hex_digit(d)) by {
        }
        assert(is_lower_hex(hex_digit((b / 16) as nat)));
        assert(is_lower_hex(hex_digit((b % 16) as nat)));
        assert forall|i: int| 0 <= i < hex(bytes).len() implies is_lower_hex(#[trigger] hex(bytes)[i]) by {
            if i < h.len() {
                assert(hex(bytes)[i] == h[i]);
            }
        }
    }
}

/// Lowercase hex of `bytes`.
pub fn to_hex(bytes: &Vec<u8>) -> (res: String)
    ensures
        res@ == hex(bytes@),
{
    let digits = "0123456789abcdef";
    proof {
        reveal_strlit("0123456789abcdef");
    }
    let mut out = String::new();
    let mut i: usize = 0;
    proof {
        assert(bytes@.take(0) =~= Seq::<u8>::empty());
    }
    while i < bytes.len()
        invariant
            i <= bytes@.len(),
            digits@ == "0123456789abcdef"@,
            digits@.len() == 16,
            forall|d: int| 0 <= d < 16 ==> #[trigger] digits@[d] == hex_digit(d as nat),
            out@ == hex(bytes@.take(i as int)),
        decreases bytes@.len() - i,
    {
        let b = bytes[i];
        let hi = (b / 16) as usize;
        let lo = (b % 16) as usize;
        crate::text::push_char_at(&mut out, digits, hi);
        crate::text::push_char_at(&mut out, digits, lo);
        proof {
            assert(bytes@.take(i + 1).drop_last() =~= bytes@.take(i as int));
            assert(bytes@.take(i + 1).last() == b);
            assert(digits@[hi as int] == hex_digit(hi as nat));
            assert(digits@[lo as int] == hex_digit(lo as nat));
            assert(out@ =~= hex(bytes@.take(i + 1)));
        }
        i = i + 1;
    }
    proof {
        assert(bytes@.take(i as int) =~= bytes@);
    }
    out
}

/// SHA-256 of `contents` in lowercase hex without prefix, the form that Maven
/// repositories publish in `.sha256` files.
pub fn hash_bytes(contents: &[u8]) -> (res: String)
    ensures
        res@ == hex(sha256_digest(contents@)),
        res@.len() == 64,
        forall|i: int| 0 <= i < res@.len() ==> is_lower_hex(#[trigger] res@[i]),
{
    let digest = sha256_of(contents);
    proof {
        lemma_hex_form(digest@);
    }
    to_hex(&digest)
}

/// SHA-1 of `contents` in lowercase hex.
pub fn hash_sha1(contents: &[u8]) -> (res: String)
    ensures
        res@ == hex(sha1_digest(contents@)),
{
    let digest = sha1_of(contents);
    to_hex(&digest)
}

} // verus!
