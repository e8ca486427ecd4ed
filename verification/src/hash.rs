//! The engine's one hash function: XXH3 with 64-bit output.

use vstd::prelude::*;
use xxhash_rust::xxh3::Xxh3;

verus! {

/// The XXH3-64 digest of a byte string.
pub uninterp spec fn xxh3(bytes: Seq<u8>) -> u64;

/// Hashes `bytes`.
///
/// Calls `xxhash_rust::xxh3::xxh3_64`, a pure function of the bytes (seed 0);
/// its value is named by [`xxh3`].
#[verifier::external_body]
pub(crate) fn hash64(bytes: &[u8]) -> (r: u64)
    ensures
        r == xxh3(bytes@),
{
    xxhash_rust::xxh3::xxh3_64(bytes)
}

/// The streaming form of the hash, `xxhash_rust::xxh3::Xxh3`.
#[verifier::external_type_specification]
#[verifier::external_body]
pub struct ExXxh3(Xxh3);

/// The bytes a streaming hasher has been fed, in order.
pub uninterp spec fn fed(h: Xxh3) -> Seq<u8>;

/// A hasher that has seen nothing.
///
/// Calls `Xxh3::new`.
#[verifier::external_body]
pub(crate) fn hasher() -> (h: Xxh3)
    ensures
        fed(h) == Seq::<u8>::empty(),
{
    Xxh3::new()
}

/// Feeds one chunk.
///
/// Calls `Xxh3::update`, which hashes the chunk behind everything fed before
/// it.
#[verifier::external_body]
pub(crate) fn feed(h: &mut Xxh3, bytes: &[u8])
    ensures
        fed(*final(h)) == fed(*old(h)) + bytes@,
{
    h.update(bytes)
}

/// The digest of everything fed so far.
///
/// Calls `Xxh3::digest`; how the input was cut into chunks does not matter,
/// the digest is the one-shot hash of the whole.
#[verifier::external_body]
pub(crate) fn digest(h: &Xxh3) -> (r: u64)
    ensures
        r == xxh3(fed(*h)),
{
    h.digest()
}

} // verus!
