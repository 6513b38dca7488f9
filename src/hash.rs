//! The extendable-output hash that the key schedule is built on.
use vstd::prelude::*;

verus! {

/// The first `len` bytes of the BLAKE3 extendable output for `msg`.
pub uninterp spec fn blake3_xof(msg: Seq<u8>, len: nat) -> Seq<u8>;

/// Relies on blake3's `Hasher::update`, `Hasher::finalize_xof` and `OutputReader::fill`:
/// the output stream depends on the message alone, and `fill` fills the whole buffer.
#[verifier::external_body]
pub(crate) fn hash_xof(msg: &[u8], len: usize) -> (r: Vec<u8>)
    ensures
        r@ == blake3_xof(msg@, len as nat),
        r@.len() == len,
{
    let mut out = vec![0u8; len];
    let mut hasher = blake3::Hasher::new();
    hasher.update(msg);
    hasher.finalize_xof().fill(&mut out);
    out
}

} // verus!
