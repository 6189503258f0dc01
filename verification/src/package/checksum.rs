//! SHA-256 checksums of downloaded sources, written in lowercase hex.
use sha2::{Digest, Sha256};
use vstd::prelude::*;

verus! {

/// The SHA-256 digest of `data` (FIPS 180-4), as computed by the `sha2` crate.
pub uninterp spec fn sha256_digest(data: Seq<u8>) -> Seq<u8>;

/// Calls `<sha2::Sha256 as Digest>::digest` on `data`.
/// Trusted: the result is the SHA-256 digest of `data`, 32 bytes long
/// (the hasher's `OutputSize` is `U32`).
#[verifier::external_body]
fn sha256_bytes(data: &[u8]) -> (d: Vec<u8>)
    ensures
        d@ == sha256_digest(data@),
        d@.len() == 32,
{
    Sha256::digest(data).to_vec()
}

/// The lowercase hex digit for `d < 16`.
pub open spec fn hex_digit(d: int) -> char {
    "0123456789abcdef"@[d]
}

/// Each byte of `b` as two lowercase hex digits, high nibble first.
pub open spec fn hex_lower(b: Seq<u8>) -> Seq<char>
    decreases b.len(),
{
    if b.len() == 0 {
        seq![]
    } else {
        hex_lower(b.drop_last()) + seq![hex_digit(b.last() as int / 16), hex_digit(b.last() as int % 16)]
    }
}

/// Calls `hex::encode` on `data`.
/// Trusted: the result is `hex_lower(data)` (the crate encodes each byte
/// with the table `0123456789abcdef`, high nibble first).
#[verifier::external_body]
fn hex_encode(data: &[u8]) -> (s: String)
    ensures
        s@ == hex_lower(data@),
{
    hex::encode(data)
}

/// The SHA-256 digest of `data` in lowercase hex.
pub fn sha256(data: &[u8]) -> (s: String)
    ensures
        s@ == hex_lower(sha256_digest(data@)),
{
    let digest = sha256_bytes(data);
    hex_encode(digest.as_slice())
}

/// Why a downloaded source was refused.
pub enum ChecksumError {
    /// The digest of the file is not the one the PKGBUILD lists.
    Mismatch { expected: String, got: String },
}

/// Compares the digest `got` of a file with the one expected.
pub fn compare_checksum(expected: &str, got: String) -> (r: Result<(), ChecksumError>)
    ensures
        expected@ == got@ ==> r is Ok,
        expected@ != got@ ==> (r matches Err(ChecksumError::Mismatch { expected: e, got: g })
            && e@ == expected@ && g@ == got@),
{
    let a = crate::text::chars_of(expected);
    let b = crate::text::chars_of(got.as_str());
    if crate::text::eq_chars(a.as_slice(), b.as_slice()) {
        Ok(())
    } else {
        Err(ChecksumError::Mismatch { expected: expected.to_owned(), got })
    }
}

/// Whether a source with checksum `expected` has to be read and hashed:
/// every checksum but `SKIP` is checked.
pub fn checksum_needed(expected: &str) -> (b: bool)
    ensures
        b == (expected@ != "SKIP"@),
{
    let skip = crate::text::chars_of("SKIP");
    !crate::text::eq_chars(crate::text::chars_of(expected).as_slice(), skip.as_slice())
}

/// Checks the contents `data` of a downloaded source against the checksum
/// `expected`: `SKIP` accepts anything, otherwise the lowercase hex SHA-256
/// digest of `data` must equal `expected`.
pub fn verify_checksum(data: &[u8], expected: &str) -> (r: Result<(), ChecksumError>)
    ensures
        expected@ == "SKIP"@ ==> r is Ok,
        expected@ != "SKIP"@ && expected@ == hex_lower(sha256_digest(data@)) ==> r is Ok,
        expected@ != "SKIP"@ && expected@ != hex_lower(sha256_digest(data@)) ==> (r matches Err(
            ChecksumError::Mismatch { expected: e, got: g },
        ) && e@ == expected@ && g@ == hex_lower(sha256_digest(data@))),
{
    if !checksum_needed(expected) {
        return Ok(());
    }
    let hash = sha256(data);
    compare_checksum(expected, hash)
}

} // verus!
