//! The check value of a report: the first hexadecimal digits of its
//! SHA-256 digest.

use crate::text::{digit_char, hex_digit};
use sha2::{Digest, Sha256};
use vstd::prelude::*;

verus! {

/// The SHA-256 digest of `data`.
pub uninterp spec fn sha256_of(data: Seq<u8>) -> Seq<u8>;

/// `sha2::Sha256::digest`, the digest copied out of its array.
///
/// The result is the SHA-256 digest of `data`, a function of the bytes
/// alone, and it has 32 bytes.
#[verifier::external_body]
fn sha256(data: &[u8]) -> (digest: Vec<u8>)
    ensures
        digest@ == sha256_of(data@),
        digest@.len() == 32,
{
    Sha256::digest(data).to_vec()
}

/// How many bytes of the digest the check value shows.
pub const HASH_BYTES: usize = 4;

/// The bytes of `bytes` in hexadecimal, two digits in lower case for each.
pub open spec fn hex_text(bytes: Seq<u8>) -> Seq<u8>
    decreases bytes.len(),
{
    if bytes.len() == 0 {
        Seq::empty()
    } else {
        hex_text(bytes.drop_last()) + seq![
            digit_char((bytes.last() / 16) as nat),
            digit_char((bytes.last() % 16) as nat),
        ]
    }
}

/// The first [`HASH_BYTES`] bytes of `digest`, or all of a shorter one.
pub open spec fn hash_head(digest: Seq<u8>) -> Seq<u8> {
    if digest.len() <= HASH_BYTES {
        digest
    } else {
        digest.take(HASH_BYTES as int)
    }
}

/// Writes the head of `digest` in hexadecimal.
pub fn hash_prefix(digest: &[u8]) -> (text: Vec<u8>)
    ensures
        text@ == hex_text(hash_head(digest@)),
{
    let shown: usize = if digest.len() <= HASH_BYTES {
        digest.len()
    } else {
        HASH_BYTES
    };
    let ghost head = hash_head(digest@);
    let mut text: Vec<u8> = Vec::new();
    let mut j: usize = 0;
    while j < shown
        invariant
            j <= shown <= digest@.len(),
            head.len() == shown,
            forall|k: int| 0 <= k < shown ==> head[k] == digest@[k],
            text@ == hex_text(head.take(j as int)),
        decreases shown - j,
    {
        let byte: u8 = digest[j];
        text.push(hex_digit(byte / 16));
        text.push(hex_digit(byte % 16));
        proof {
            let longer = head.take(j + 1);
            assert(longer.drop_last() =~= head.take(j as int));
            assert(longer.last() == byte);
            assert(text@ =~= hex_text(longer));
        }
        j += 1;
    }
    proof {
        assert(head.take(shown as int) =~= head);
    }
    text
}

/// The check value of `report`: the first eight hexadecimal digits of its
/// SHA-256 digest.
pub fn output_hash(report: &[u8]) -> (text: Vec<u8>)
    ensures
        text@ == hex_text(sha256_of(report@).take(HASH_BYTES as int)),
{
    let digest = sha256(report);
    hash_prefix(digest.as_slice())
}

} // verus!
