//! Identifiers and checksums: the id of an item is a digest of its path,
//! the checksum of a file a digest of its content, both written in
//! lowercase hexadecimal.

use sha1::{Digest, Sha1};
use sha2::Sha256;
use vstd::prelude::*;

verus! {

/// The SHA-1 digest of bytes, as the `sha1` crate computes it.
pub uninterp spec fn sha1_of(data: Seq<u8>) -> Seq<u8>;

/// The SHA-256 digest of bytes, as the `sha2` crate computes it.
pub uninterp spec fn sha256_of(data: Seq<u8>) -> Seq<u8>;

/// Calls `Sha1::new`, `update` and `finalize` of the `sha1` crate: the
/// result is the SHA-1 digest of the data, which this crate calls `sha1_of`.
#[verifier::external_body]
fn sha1_digest(data: &[u8]) -> (out: Vec<u8>)
    ensures
        out@ == sha1_of(data@),
{
    let mut hasher = Sha1::new();
    hasher.update(data);
    hasher.finalize().to_vec()
}

/// Calls `Sha256::new`, `update` and `finalize` of the `sha2` crate: the
/// result is the SHA-256 digest of the data, which this crate calls
/// `sha256_of`.
#[verifier::external_body]
fn sha256_digest(data: &[u8]) -> (out: Vec<u8>)
    ensures
        out@ == sha256_of(data@),
{
    let mut hasher = Sha256::new();
    hasher.update(data);
    hasher.finalize().to_vec()
}

/// The lowercase hexadecimal digit of a number below 16.
pub open spec fn hex_digit_char(n: int) -> char {
    if n < 10 {
        (0x30 + n) as char
    } else {
        (0x61 + n - 10) as char
    }
}

/// Bytes written in lowercase hexadecimal, two digits for each byte.
pub open spec fn hex_lower(bytes: Seq<u8>) -> Seq<char>
    decreases bytes.len(),
{
    if bytes.len() == 0 {
        Seq::empty()
    } else {
        hex_lower(bytes.drop_last()) + seq![
            hex_digit_char(bytes.last() as int / 16),
            hex_digit_char(bytes.last() as int % 16),
        ]
    }
}

/// Calls `hex::encode` of the `hex` crate: every byte is written as two
/// lowercase hexadecimal digits, the high one first.
#[verifier::external_body]
fn hex_encode(data: &[u8]) -> (out: String)
    ensures
        out@ == hex_lower(data@),
{
    hex::encode(data)
}

/// The id that belongs to a path.
pub open spec fn id_of(path: Seq<char>) -> Seq<char> {
    hex_lower(sha1_of(vstd::utf8::encode_utf8(path)))
}

/// The checksum that belongs to the content of a file.
pub open spec fn checksum_of(content: Seq<u8>) -> Seq<char> {
    hex_lower(sha256_of(content))
}

/// The stable id of an item: the SHA-1 digest of its path in UTF-8,
/// in hexadecimal.
pub fn hash_of(input: &str) -> (out: String)
    ensures
        out@ == id_of(input@),
{
    let digest = sha1_digest(input.as_bytes());
    hex_encode(digest.as_slice())
}

/// The checksum of a file: the SHA-256 digest of its bytes, in hexadecimal.
pub fn calculate_file_checksum(content: &[u8]) -> (out: String)
    ensures
        out@ == checksum_of(content@),
{
    let digest = sha256_digest(content);
    hex_encode(digest.as_slice())
}

} // verus!
