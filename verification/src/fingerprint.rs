//! The fingerprint scheme: a 64-bit content digest of an entry's payload
//! and write timestamp, in that order, rendered in decimal.

use vstd::prelude::*;
use crate::codec::dec_seq;
use crate::codec::u64_to_dec;

verus! {

/// The 64-bit digest the hashing scheme assigns to a payload and a
/// timestamp, payload first. Its value is fixed by the hash function alone:
/// the same pair gives the same digest on every run.
pub uninterp spec fn fingerprint_digest(p: Seq<char>, stamp: u64) -> u64;

/// Relies on farmhash::FarmHasher and its std::hash::Hasher impl: the hasher
/// buffers every byte written and `finish` applies the 64-bit farmhash
/// function to that buffer, so the digest is a function of the payload's
/// UTF-8 bytes followed by the timestamp's little-endian bytes alone.
#[verifier::external_body]
fn farm_digest(p: &str, stamp: u64) -> (r: u64)
    ensures
        r == fingerprint_digest(p@, stamp),
{
    let mut h = farmhash::FarmHasher::default();
    std::hash::Hasher::write(&mut h, p.as_bytes());
    std::hash::Hasher::write(&mut h, &stamp.to_le_bytes());
    std::hash::Hasher::finish(&h)
}

/// The fingerprint string of a payload and a timestamp: the decimal form of
/// their combined 64-bit digest.
pub fn fingerprint(p: &str, stamp: u64) -> (r: String)
    ensures
        r@ == dec_seq(fingerprint_digest(p@, stamp) as nat),
{
    u64_to_dec(farm_digest(p, stamp))
}

} // verus!
