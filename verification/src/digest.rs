//! Content digests: the fingerprint of a path and the identity of a file's bytes.

use crate::text::{bytes_to_hex, hex_of, push_decimal};
use sha1::Digest;
use vstd::prelude::*;
use vstd::string::*;
use vstd::utf8::*;

verus! {

/// The SHA-256 digest of a byte string.
pub uninterp spec fn sha256(bytes: Seq<u8>) -> Seq<u8>;

/// The SHA-1 digest of a byte string.
pub uninterp spec fn sha1_digest(bytes: Seq<u8>) -> Seq<u8>;

/// `sha2::Sha256::digest` gives the 32-byte SHA-256 digest of its input.
#[verifier::external_body]
fn sha256_bytes(bytes: &[u8]) -> (d: [u8; 32])
    ensures
        d@ == sha256(bytes@),
{
    sha2::Sha256::digest(bytes).into()
}

/// `sha1::Sha1::digest` gives the 20-byte SHA-1 digest of its input.
#[verifier::external_body]
fn sha1_bytes(bytes: &[u8]) -> (d: [u8; 20])
    ensures
        d@ == sha1_digest(bytes@),
{
    sha1::Sha1::digest(bytes).into()
}

/// The fingerprint of a path: the SHA-256 digest of its text.
pub open spec fn path_digest(path: Seq<char>) -> Seq<u8> {
    sha256(encode_utf8(path))
}

/// The fingerprint of a path.
pub fn sha256_of_path(path: &str) -> (d: [u8; 32])
    ensures
        d@ == path_digest(path@),
{
    sha256_bytes(path.as_bytes())
}

/// What git hashes to name a file's contents: `blob`, the length, a NUL, the bytes.
pub open spec fn git_blob(bytes: Seq<u8>) -> Seq<u8> {
    encode_utf8("blob "@ + crate::text::decimal(bytes.len())) + seq![0u8] + bytes
}

/// The git object name of a file's contents, as lowercase hexadecimal.
pub open spec fn git_blob_hex(bytes: Seq<u8>) -> Seq<char> {
    hex_of(sha1_digest(git_blob(bytes)))
}

/// The git object name of a file's contents.
pub fn git_blob_sha1(bytes: &[u8]) -> (d: [u8; 20])
    ensures
        d@ == sha1_digest(git_blob(bytes@)),
{
    let mut head = String::new();
    head.append("blob ");
    push_decimal(&mut head, bytes.len() as u64);
    assert(head@ =~= "blob "@ + crate::text::decimal(bytes@.len()));
    let mut framed: Vec<u8> = head.as_str().as_bytes_vec();
    framed.push(0);
    framed.extend_from_slice(bytes);
    assert(framed@ =~= git_blob(bytes@));
    sha1_bytes(framed.as_slice())
}

/// The git object name of a file's contents, as text.
pub fn git_blob_id(bytes: &[u8]) -> (s: String)
    ensures
        s@ == git_blob_hex(bytes@),
{
    let d = git_blob_sha1(bytes);
    bytes_to_hex(d.as_slice())
}

} // verus!
