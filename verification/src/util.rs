//! The store's one hash: a fixed, deterministic, non-cryptographic 64-bit
//! hash over UTF-8 bytes, used identically for collection names and field
//! names.  A collision between two distinct names is undetected anywhere
//! in this design; that tail risk is documented rather than checked.
use vstd::prelude::*;

verus! {

/// What `xxhash_rust::xxh64::xxh64` returns for a text's UTF-8 bytes with
/// seed 0: a pure function of the characters alone.
pub uninterp spec fn hash64_of(s: Seq<char>) -> u64;

/// Relies on `xxhash_rust::xxh64::xxh64`: a deterministic 64-bit hash of
/// the string's UTF-8 bytes, with seed 0.
#[verifier::external_body]
pub fn hash_str(value: &str) -> (r: u64)
    ensures
        r == hash64_of(value@),
{
    xxhash_rust::xxh64::xxh64(value.as_bytes(), 0)
}

} // verus!
