//! The fingerprint function: a fixed-width digest of a file's full byte
//! content.  The digest is a function of the bytes alone — equal content
//! always gives an equal fingerprint — and the resolver accepts a
//! fingerprint match as proof of duplication (the probabilistic equality
//! policy, with the documented collision risk of a 64-bit digest).  Reading
//! the file is I/O and stays with the caller; the whole byte stream is
//! handed here, never a prefix.

use vstd::prelude::*;

verus! {

/// What the fingerprint of a byte string is: a function of the bytes alone.
pub uninterp spec fn digest_of(bytes: Seq<u8>) -> u64;

/// Relies on std's DefaultHasher, which `DefaultHasher::new` creates with
/// fixed keys: writing the whole byte stream and finishing yields a digest
/// that depends on the bytes alone.
#[verifier::external_body]
pub fn fingerprint_bytes(bytes: &Vec<u8>) -> (h: u64)
    ensures
        h == digest_of(bytes@),
{
    let mut hasher = std::collections::hash_map::DefaultHasher::new();
    std::hash::Hasher::write(&mut hasher, bytes.as_slice());
    std::hash::Hasher::finish(&hasher)
}

} // verus!
