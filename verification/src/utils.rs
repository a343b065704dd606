//! The digest primitive shared by every node of the tree: `hash_to_field`
//! maps an arbitrary byte string to the canonical 32-byte encoding of a
//! BLS12-381 scalar (a BLAKE3 digest reduced modulo the scalar field, then
//! serialized in little-endian form). Field elements never appear in the
//! verified code as such; they are carried everywhere in this canonical
//! byte form, which is compared byte-for-byte.

use vstd::prelude::*;

use ark_ff::PrimeField;
use ark_serialize::CanonicalSerialize;

verus! {

/// The digest of a byte string: BLAKE3, reduced modulo the BLS12-381 scalar
/// field, re-serialized canonically. A fixed function of the input bytes
/// alone; its value is not axiomatized here beyond its length.
pub uninterp spec fn hash_to_field_of(bytes: Seq<u8>) -> Seq<u8>;

/// A sequence of `n` zero bytes.
pub open spec fn zero_bytes(n: nat) -> Seq<u8> {
    Seq::new(n, |i: int| 0u8)
}

/// Digest marking an absent child of an internal node: the hash of 32
/// zero bytes.
pub open spec fn zero_child_spec() -> Seq<u8> {
    hash_to_field_of(zero_bytes(32))
}

/// Digest marking an empty suffix slot of an extension node:
/// the hash of the empty byte string.
pub open spec fn zero_value_spec() -> Seq<u8> {
    hash_to_field_of(zero_bytes(0))
}

/// Relies on `blake3::hash` (a deterministic 32-byte digest of the input),
/// `ark_ff::PrimeField::from_le_bytes_mod_order` (reduction of those bytes,
/// little-endian, modulo the scalar field) and
/// `ark_serialize::CanonicalSerialize::serialize_compressed` (the canonical
/// 32-byte little-endian encoding of a BLS12-381 scalar). The composite is a
/// function of `bytes` alone, identical on every machine, named
/// `hash_to_field_of`.
#[verifier::external_body]
pub fn hash_to_field(bytes: &[u8]) -> (digest: Vec<u8>)
    ensures
        digest@ == hash_to_field_of(bytes@),
        digest@.len() == 32,
{
    let h = blake3::hash(bytes);
    let fr = ark_bls12_381::Fr::from_le_bytes_mod_order(h.as_bytes());
    let mut out = Vec::new();
    fr.serialize_compressed(&mut out).expect("serialize field element");
    out
}

/// The `ZERO_CHILD` sentinel, computed.
pub fn zero_child() -> (digest: Vec<u8>)
    ensures
        digest@ == zero_child_spec(),
        digest@.len() == 32,
{
    let zeros: [u8; 32] = [0u8; 32];
    proof {
        assert(zeros@ =~= zero_bytes(32));
    }
    hash_to_field(zeros.as_slice())
}

/// The `ZERO_VALUE` sentinel, computed.
pub fn zero_value() -> (digest: Vec<u8>)
    ensures
        digest@ == zero_value_spec(),
        digest@.len() == 32,
{
    let empty: Vec<u8> = Vec::new();
    proof {
        assert(empty@ =~= zero_bytes(0));
    }
    hash_to_field(empty.as_slice())
}

/// Digest of a serialized commitment, as chained into the parent's digest
/// array: commitments are already carried in compressed canonical bytes, so
/// this is `hash_to_field` of those bytes.
pub fn digest_commit(commitment: &Vec<u8>) -> (digest: Vec<u8>)
    ensures
        digest@ == hash_to_field_of(commitment@),
        digest@.len() == 32,
{
    hash_to_field(commitment.as_slice())
}

} // verus!
