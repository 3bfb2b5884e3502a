//! Content digests of files, computed by the hashing crates.

use vstd::prelude::*;

verus! {

/// The SHA-256 digest of a byte sequence: 32 bytes.
pub uninterp spec fn sha256_of(data: Seq<u8>) -> Seq<u8>;

/// What the content hasher gives for a file with the given bytes: the
/// content hash that the remote store keeps for it, as lower-case
/// hexadecimal text, or nothing where the hasher fails on these bytes.
pub uninterp spec fn content_hash_hex(data: Seq<u8>) -> Option<Seq<char>>;

/// A text of 64 hexadecimal digits in lower case: the form in which a
/// digest of 32 bytes is written.
pub open spec fn lower_hex_digest(s: Seq<char>) -> bool {
    &&& s.len() == 64
    &&& forall|i: int|
        0 <= i < s.len() ==> ('0' <= #[trigger] s[i] <= '9') || ('a' <= s[i] <= 'f')
}

/// The longest input, in bytes, that the SHA-256 implementation takes.
pub const SHA256_MAX_INPUT: u64 = 0x1fff_ffff_ffff_ffff;

/// Why no digest came out.
#[derive(PartialEq, Eq, Debug, Clone, Copy, Structural)]
pub enum DigestError {
    /// The input is longer than the hash function takes.
    InputTooLong,
    /// The hasher could not read its input.
    Unreadable,
}

/// Calls `ring::digest::digest` with `SHA256` and copies the result into a
/// vector. The crate computes the digest from the bytes alone; it does not
/// return for an input whose length in bits does not fit 64 bits, which the
/// precondition leaves out.
#[verifier::external_body]
fn ring_sha256(data: &[u8]) -> (r: Vec<u8>)
    requires
        data@.len() <= SHA256_MAX_INPUT,
    ensures
        r@ == sha256_of(data@),
{
    ring::digest::digest(&ring::digest::SHA256, data).as_ref().to_vec()
}

/// Calls `DropboxContentHasher::hash_reader` on the bytes and writes the
/// result in lower-case hexadecimal, as the `{:x}` format of its array
/// does. The crate hashes blocks of 4 MiB and then the block digests; the
/// outcome depends on the bytes alone, and the text that the format writes
/// for the 32 bytes of a hash is 64 digits from `0123456789abcdef`. A read
/// error of the input gives `None`.
#[verifier::external_body]
fn hasher_content_hash(data: &[u8]) -> (r: Option<String>)
    ensures
        match r {
            Some(s) => content_hash_hex(data@) == Some(s@) && lower_hex_digest(s@),
            None => content_hash_hex(data@) is None,
        },
{
    match dropbox_content_hasher::DropboxContentHasher::hash_reader(data) {
        Ok(hash) => Some(format!("{:x}", hash)),
        Err(_) => None,
    }
}

/// The SHA-256 digest of the bytes of a file.
pub fn sha_256_digest(data: &[u8]) -> (r: Result<Vec<u8>, DigestError>)
    ensures
        match r {
            Ok(d) => data@.len() <= SHA256_MAX_INPUT && d@ == sha256_of(data@),
            Err(e) => data@.len() > SHA256_MAX_INPUT && e == DigestError::InputTooLong,
        },
{
    if data.len() as u64 > SHA256_MAX_INPUT {
        Err(DigestError::InputTooLong)
    } else {
        Ok(ring_sha256(data))
    }
}

/// The content hash of the bytes of a file, as the remote store writes it.
/// Where the hasher fails on the bytes the error is `Unreadable`.
pub fn dpx_digest(data: &[u8]) -> (r: Result<String, DigestError>)
    ensures
        match r {
            Ok(s) => content_hash_hex(data@) == Some(s@) && lower_hex_digest(s@),
            Err(e) => content_hash_hex(data@) is None && e == DigestError::Unreadable,
        },
{
    match hasher_content_hash(data) {
        Some(s) => Ok(s),
        None => Err(DigestError::Unreadable),
    }
}

} // verus!
