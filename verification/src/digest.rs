//! SHA-256 digests rendered as lowercase hexadecimal.
use sha2::Digest;
use vstd::prelude::*;

use crate::text::{digits, hex, push_hex};

verus! {

/// The SHA-256 digest of a byte string.
pub uninterp spec fn sha256(bytes: Seq<u8>) -> Seq<u8>;

/// Calls `sha2::Sha256::digest` and copies the digest out. The contract names
/// the result and states only its length (SHA-256 digests are 32 bytes).
#[verifier::external_body]
fn sha256_digest(bytes: &[u8]) -> (d: Vec<u8>)
    ensures
        d@ == sha256(bytes@),
        d@.len() == 32,
{
    sha2::Sha256::digest(bytes).to_vec()
}

/// Two lowercase hex digits of a byte.
pub open spec fn hex_byte(b: u8) -> Seq<char> {
    hex(b as nat, 2, false)
}

/// Lowercase hex of a byte string, two digits per byte.
pub open spec fn hex_bytes(bs: Seq<u8>) -> Seq<char>
    decreases bs.len(),
{
    if bs.len() == 0 {
        seq![]
    } else {
        hex_bytes(bs.drop_last()) + hex_byte(bs.last())
    }
}

proof fn lemma_hex_byte_len(b: u8)
    ensures
        hex_byte(b).len() == 2,
{
    let n = b as nat;
    if n >= 16 {
        assert(n / 16 < 16);
        assert(digits(n / 16, 16, false).len() == 1);
        assert(digits(n, 16, false).len() == 2);
    } else {
        assert(digits(n, 16, false).len() == 1);
    }
}

/// The hex rendering has two characters per byte.
pub proof fn lemma_hex_bytes_len(bs: Seq<u8>)
    ensures
        hex_bytes(bs).len() == 2 * bs.len(),
    decreases bs.len(),
{
    if bs.len() > 0 {
        lemma_hex_bytes_len(bs.drop_last());
        lemma_hex_byte_len(bs.last());
    }
}

/// The lowercase-hex SHA-256 digest of `bytes` (64 characters).
pub fn sha256_hex(bytes: &[u8]) -> (h: String)
    ensures
        h@ == hex_bytes(sha256(bytes@)),
        h@.len() == 64,
{
    let d = sha256_digest(bytes);
    let mut h = String::new();
    let mut i: usize = 0;
    while i < d.len()
        invariant
            i <= d@.len(),
            h@ == hex_bytes(d@.take(i as int)),
        decreases d.len() - i,
    {
        push_hex(&mut h, d[i] as u64, 2, false);
        proof {
            assert(d@.take(i + 1).drop_last() =~= d@.take(i as int));
        }
        i = i + 1;
    }
    proof {
        assert(d@.take(d@.len() as int) =~= d@);
        lemma_hex_bytes_len(d@);
    }
    h
}

} // verus!
