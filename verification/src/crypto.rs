//! Trusted adapters for the two cryptographic primitives the protocol
//! consumes as opaque operations: a 256-bit hash and sr25519 signature
//! verification. Everything proved about hashing and signature checking
//! rests on the two contracts in this module.

use vstd::prelude::*;

verus! {

/// The 32-byte digest the hash primitive assigns to a byte string: a
/// function of the input bytes alone.
pub uninterp spec fn blake2_256_of(data: Seq<u8>) -> Seq<u8>;

/// Whether the signature scheme accepts `sig` as a signature on `msg` by
/// the public key `key`: a function of the three byte strings alone, false
/// whenever `key` or `sig` is not well-formed for the scheme.
pub uninterp spec fn sr25519_accepts(msg: Seq<u8>, key: Seq<u8>, sig: Seq<u8>) -> bool;

/// Relies on the blake2 crate's `Blake2b` hasher parameterized to a
/// 32-byte digest: the result depends on the input bytes alone and is
/// always exactly 32 bytes.
#[verifier::external_body]
pub(crate) fn blake2_256(data: &Vec<u8>) -> (r: Vec<u8>)
    ensures
        r@ == blake2_256_of(data@),
        r@.len() == 32,
{
    let mut h = <blake2::Blake2b<blake2::digest::consts::U32> as blake2::Digest>::new();
    blake2::Digest::update(&mut h, data.as_slice());
    blake2::Digest::finalize(h).to_vec()
}

/// Relies on schnorrkel's `PublicKey::verify_simple` under the signing
/// context `substrate`, the context the surrounding ecosystem fixes for
/// sr25519 session keys: verification is deterministic in the message,
/// key and signature bytes, and byte strings that do not parse as a
/// public key or signature are rejected.
#[verifier::external_body]
pub(crate) fn sr25519_verify(msg: &Vec<u8>, key: &Vec<u8>, sig: &Vec<u8>) -> (r: bool)
    ensures
        r == sr25519_accepts(msg@, key@, sig@),
{
    let pk = match schnorrkel::PublicKey::from_bytes(key.as_slice()) {
        Ok(pk) => pk,
        Err(_) => return false,
    };
    let s = match schnorrkel::Signature::from_bytes(sig.as_slice()) {
        Ok(s) => s,
        Err(_) => return false,
    };
    pk.verify_simple(b"substrate", msg.as_slice(), &s).is_ok()
}

} // verus!
