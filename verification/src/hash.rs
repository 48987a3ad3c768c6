//! The node identity function: Keccak-256, supplied by an outside crate.

use vstd::prelude::*;

verus! {

/// The Keccak-256 digest of a byte sequence, as an uninterpreted name: the
/// digest is a pure function of the input bytes alone.
pub uninterp spec fn keccak_spec(bytes: Seq<u8>) -> Seq<u8>;

/// Relies on alloy_primitives::keccak256: the 32-byte Keccak-256 digest of
/// the input, depending on the input bytes alone.
#[verifier::external_body]
pub(crate) fn keccak256(bytes: &Vec<u8>) -> (r: Vec<u8>)
    ensures
        r@ == keccak_spec(bytes@) && r@.len() == 32,
{
    alloy_primitives::keccak256(bytes.as_slice()).to_vec()
}

/// The root hash of an empty trie: the digest of the canonical encoding of
/// emptiness (the single byte 0x80).
pub open spec fn empty_root_spec() -> Seq<u8> {
    keccak_spec(seq![0x80u8])
}

/// Computes the canonical empty-trie root hash.
pub fn empty_root() -> (r: Vec<u8>)
    ensures
        r@ == empty_root_spec(),
        r@.len() == 32,
{
    let mut v: Vec<u8> = Vec::new();
    v.push(0x80u8);
    proof {
        assert(v@ =~= seq![0x80u8]);
    }
    keccak256(&v)
}

} // verus!
