//! The basic identifiers, keys, hashes and byte-string payloads of the
//! data model, with their well-formedness conditions and wire encodings.

use vstd::prelude::*;
use crate::codec::{enc_u32, enc_bytes, encode_u32, encode_bytes, decode_u32, decode_fixed, starts_with_at};

verus! {

/// A relay-chain block number.
pub type BlockNumber = u32;

/// The index of a session.
pub type SessionIndex = u32;

/// A 256-bit digest, stored as its 32 bytes.
#[derive(Clone, Debug, PartialEq, Eq)]
pub struct Hash256(pub Vec<u8>);

impl Hash256 {
    /// A digest holds exactly 32 bytes.
    pub open spec fn wf(&self) -> bool {
        self.0@.len() == 32
    }

    /// Wrap 32 bytes as a digest.
    pub fn from_bytes(bytes: Vec<u8>) -> (r: Hash256)
        requires
            bytes@.len() == 32,
        ensures
            r.0@ == bytes@,
            r.wf(),
    {
        Hash256(bytes)
    }
}

/// The canonical identity of a candidate: a digest of its plain receipt.
#[derive(Clone, Debug, PartialEq, Eq)]
pub struct CandidateHash(pub Hash256);

/// The unique identifier of a para.
#[derive(Clone, Copy, Debug, PartialEq, Eq, Structural)]
pub struct ParaId(pub u32);

/// A collator's sr25519 public key, stored as its 32 bytes.
#[derive(Clone, Debug, PartialEq, Eq)]
pub struct CollatorId(pub Vec<u8>);

/// A collator's sr25519 signature, stored as its 64 bytes.
#[derive(Clone, Debug, PartialEq, Eq)]
pub struct CollatorSignature(pub Vec<u8>);

/// A validator's sr25519 session public key, stored as its 32 bytes.
#[derive(Clone, Debug, PartialEq, Eq)]
pub struct ValidatorId(pub Vec<u8>);

/// A validator's sr25519 signature, stored as its 64 bytes.
#[derive(Clone, Debug, PartialEq, Eq)]
pub struct ValidatorSignature(pub Vec<u8>);

/// A validator's authority-discovery public key, stored as its 32 bytes.
#[derive(Clone, Debug, PartialEq, Eq)]
pub struct AuthorityDiscoveryId(pub Vec<u8>);

impl CollatorId {
    /// A public key holds exactly 32 bytes.
    pub open spec fn wf(&self) -> bool {
        self.0@.len() == 32
    }
}

impl CollatorSignature {
    /// A signature holds exactly 64 bytes.
    pub open spec fn wf(&self) -> bool {
        self.0@.len() == 64
    }
}

impl ValidatorId {
    /// A public key holds exactly 32 bytes.
    pub open spec fn wf(&self) -> bool {
        self.0@.len() == 32
    }
}

impl ValidatorSignature {
    /// A signature holds exactly 64 bytes.
    pub open spec fn wf(&self) -> bool {
        self.0@.len() == 64
    }
}

impl AuthorityDiscoveryId {
    /// A public key holds exactly 32 bytes.
    pub open spec fn wf(&self) -> bool {
        self.0@.len() == 32
    }
}

/// The head-data of a parablock: an opaque byte string.
#[derive(Clone, Debug, PartialEq, Eq)]
pub struct HeadData(pub Vec<u8>);

impl HeadData {
    /// The length must fit the 32-bit length prefix of the wire format.
    pub open spec fn wf(&self) -> bool {
        self.0@.len() <= u32::MAX
    }
}

/// A para's validation code: an opaque byte string.
#[derive(Clone, Debug, PartialEq, Eq)]
pub struct ValidationCode(pub Vec<u8>);

impl ValidationCode {
    /// The length must fit the 32-bit length prefix of the wire format.
    pub open spec fn wf(&self) -> bool {
        self.0@.len() <= u32::MAX
    }
}

/// The witness data of a parablock: an opaque byte string.
#[derive(Clone, Debug, PartialEq, Eq)]
pub struct BlockData(pub Vec<u8>);

impl BlockData {
    /// The length must fit the 32-bit length prefix of the wire format.
    pub open spec fn wf(&self) -> bool {
        self.0@.len() <= u32::MAX
    }
}

/// A message from a para to the relay chain.
pub type UpwardMessage = Vec<u8>;

/// A horizontal message from one para to another.
#[derive(Clone, Debug, PartialEq, Eq)]
pub struct OutboundHrmpMessage {
    /// The para the message is addressed to.
    pub recipient: ParaId,
    /// The message payload.
    pub data: Vec<u8>,
}

impl OutboundHrmpMessage {
    /// The payload length must fit the 32-bit length prefix.
    pub open spec fn wf(&self) -> bool {
        self.data@.len() <= u32::MAX
    }
}

/// The context a validator signs statements under: statements are bound
/// to a session and to the relay parent they were made in.
#[derive(Clone, Debug, PartialEq, Eq)]
pub struct SigningContext {
    /// The session index the statement belongs to.
    pub session_index: SessionIndex,
    /// The digest of the relay-chain block the statement refers to.
    pub parent_hash: Hash256,
}

impl SigningContext {
    /// The parent hash is a well-formed digest.
    pub open spec fn wf(&self) -> bool {
        self.parent_hash.wf()
    }
}

/// The encoding of a digest: its 32 bytes, raw.
pub open spec fn enc_hash256(h: Hash256) -> Seq<u8> {
    h.0@
}

/// The encoding of a para identifier: its index, four bytes little-endian.
pub open spec fn enc_para_id(p: ParaId) -> Seq<u8> {
    enc_u32(p.0)
}

/// The encoding of a signing context: session index, then parent hash.
pub open spec fn enc_signing_context(c: SigningContext) -> Seq<u8> {
    enc_u32(c.session_index) + enc_hash256(c.parent_hash)
}

/// Append the encoding of `h` to `out`.
pub fn encode_hash256(h: &Hash256, out: &mut Vec<u8>)
    ensures
        final(out)@ == old(out)@ + enc_hash256(*h),
{
    out.extend_from_slice(h.0.as_slice());
}

/// Read a digest: 32 raw bytes. Fails exactly when fewer remain.
pub fn decode_hash256(bytes: &Vec<u8>, pos: usize) -> (r: Option<(Hash256, usize)>)
    ensures
        r matches Some(p) ==> p.1 == pos + 32 && p.1 <= bytes@.len() && p.0.wf()
            && bytes@.subrange(pos as int, p.1 as int) == enc_hash256(p.0),
        r is None ==> bytes@.len() < pos + 32,
{
    match decode_fixed(bytes, pos, 32) {
        Some((v, end)) => Some((Hash256(v), end)),
        None => None,
    }
}

/// Append the encoding of `p` to `out`.
pub fn encode_para_id(p: &ParaId, out: &mut Vec<u8>)
    ensures
        final(out)@ == old(out)@ + enc_para_id(*p),
{
    encode_u32(p.0, out);
}

/// Read a para identifier: four bytes little-endian.
pub fn decode_para_id(bytes: &Vec<u8>, pos: usize) -> (r: Option<(ParaId, usize)>)
    ensures
        r matches Some(p) ==> p.1 == pos + 4 && p.1 <= bytes@.len()
            && bytes@.subrange(pos as int, p.1 as int) == enc_para_id(p.0),
        r is None ==> bytes@.len() < pos + 4,
{
    match decode_u32(bytes, pos) {
        Some((v, end)) => Some((ParaId(v), end)),
        None => None,
    }
}

/// Append the encoding of `c` to `out`.
pub fn encode_signing_context(c: &SigningContext, out: &mut Vec<u8>)
    ensures
        final(out)@ == old(out)@ + enc_signing_context(*c),
{
    encode_u32(c.session_index, out);
    encode_hash256(&c.parent_hash, out);
    assert(out@ =~= old(out)@ + enc_signing_context(*c));
}

/// The encoding of head-data: its bytes, length-prefixed.
pub open spec fn enc_head_data(h: HeadData) -> Seq<u8> {
    enc_bytes(h.0@)
}

/// Append the encoding of `h` to `out`.
pub fn encode_head_data(h: &HeadData, out: &mut Vec<u8>)
    requires
        h.wf(),
    ensures
        final(out)@ == old(out)@ + enc_head_data(*h),
{
    encode_bytes(&h.0, out);
}


/// Read a signing context: a session index, then a 32-byte parent hash.
///
/// Fails exactly when fewer than 36 bytes remain.
pub fn decode_signing_context(bytes: &Vec<u8>, pos: usize) -> (r: Option<(SigningContext, usize)>)
    ensures
        r matches Some(p) ==> p.1 == pos + 36 && p.1 <= bytes@.len() && p.0.wf()
            && bytes@.subrange(pos as int, p.1 as int) == enc_signing_context(p.0),
        r is None ==> bytes@.len() < pos + 36,
{
    let (session_index, p1) = match decode_u32(bytes, pos) {
        Some(x) => x,
        None => {
            return None;
        },
    };
    let (parent_hash, p2) = match decode_hash256(bytes, p1) {
        Some(x) => x,
        None => {
            return None;
        },
    };
    let c = SigningContext { session_index, parent_hash };
    proof {
        assert(bytes@.subrange(pos as int, p2 as int) =~= enc_signing_context(c));
    }
    Some((c, p2))
}

/// Two signing contexts whose encodings begin at the same place carry
/// the same session index and parent hash.
pub proof fn lemma_enc_signing_context_prefix_secure(
    s: Seq<u8>,
    pos: int,
    a: SigningContext,
    b: SigningContext,
)
    requires
        a.wf(),
        b.wf(),
        starts_with_at(s, pos, enc_signing_context(a)),
        starts_with_at(s, pos, enc_signing_context(b)),
    ensures
        a.session_index == b.session_index,
        a.parent_hash.0@ == b.parent_hash.0@,
{
    crate::codec::lemma_starts_with_concat(s, pos, enc_u32(a.session_index), a.parent_hash.0@);
    crate::codec::lemma_starts_with_concat(s, pos, enc_u32(b.session_index), b.parent_hash.0@);
    assert forall|i: int| 0 <= i < 4 implies enc_u32(a.session_index)[i] == enc_u32(
        b.session_index,
    )[i] by {
        crate::codec::lemma_starts_with_index(s, pos, enc_u32(a.session_index), i);
        crate::codec::lemma_starts_with_index(s, pos, enc_u32(b.session_index), i);
    }
    assert(enc_u32(a.session_index) =~= enc_u32(b.session_index));
    crate::codec::lemma_enc_u32_injective(a.session_index, b.session_index);
    assert forall|i: int| 0 <= i < 32 implies a.parent_hash.0@[i] == b.parent_hash.0@[i] by {
        crate::codec::lemma_starts_with_index(s, pos + 4, a.parent_hash.0@, i);
        crate::codec::lemma_starts_with_index(s, pos + 4, b.parent_hash.0@, i);
    }
    assert(a.parent_hash.0@ =~= b.parent_hash.0@);
}

} // verus!
