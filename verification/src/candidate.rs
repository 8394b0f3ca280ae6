//! The candidate model: descriptor, receipts, commitments and validation
//! data, with the fixed signature-payload layout, the collator-signature
//! check, and the canonical hashing rules.

use vstd::prelude::*;
use crate::codec::{
    enc_u32, enc_u128, enc_bytes, starts_with_at, encode_u32, encode_u128, encode_bytes,
    encode_compact_u32, decode_u32, decode_u128, decode_bytes, decode_fixed,
    lemma_starts_with_concat, lemma_starts_with_index, lemma_enc_u32_injective,
};
use crate::crypto::{blake2_256, blake2_256_of, sr25519_verify, sr25519_accepts};
use crate::primitives::{
    Hash256, CandidateHash, ParaId, CollatorId, CollatorSignature, HeadData, ValidationCode,
    BlockData, UpwardMessage, OutboundHrmpMessage, BlockNumber, enc_hash256, enc_para_id,
    encode_hash256, encode_para_id, decode_hash256, decode_para_id, enc_head_data,
    encode_head_data,
};

verus! {

/// The error of a failed collator-signature check.
#[derive(Clone, Copy, Debug, PartialEq, Eq, Structural)]
pub struct InvalidSignature;

/// A unique descriptor of a candidate receipt, signed by its collator.
#[derive(Clone, Debug, PartialEq, Eq)]
pub struct CandidateDescriptor {
    /// The para this is a candidate for.
    pub para_id: ParaId,
    /// The digest of the relay-chain block this executes in the context of.
    pub relay_parent: Hash256,
    /// The collator's public key.
    pub collator: CollatorId,
    /// The digest of the persisted validation data.
    pub persisted_validation_data_hash: Hash256,
    /// The digest of the proof-of-validity.
    pub pov_hash: Hash256,
    /// The collator's signature over the payload built from the fields above.
    pub signature: CollatorSignature,
}

impl CandidateDescriptor {
    /// Every field has its fixed width.
    pub open spec fn wf(&self) -> bool {
        self.relay_parent.wf() && self.collator.wf() && self.persisted_validation_data_hash.wf()
            && self.pov_hash.wf() && self.signature.wf()
    }
}

/// Field-by-field equality of descriptors, over their byte views.
pub open spec fn eq_descriptor(a: CandidateDescriptor, b: CandidateDescriptor) -> bool {
    a.para_id.0 == b.para_id.0 && a.relay_parent.0@ == b.relay_parent.0@ && a.collator.0@
        == b.collator.0@ && a.persisted_validation_data_hash.0@
        == b.persisted_validation_data_hash.0@ && a.pov_hash.0@ == b.pov_hash.0@ && a.signature.0@
        == b.signature.0@
}

/// The fixed 100-byte signature payload: relay parent, the para identifier
/// as exactly four little-endian bytes, the persisted-validation-data
/// digest, and the proof-of-validity digest, in that order.
pub open spec fn spec_collator_signature_payload(
    relay_parent: Hash256,
    para_id: ParaId,
    persisted_validation_data_hash: Hash256,
    pov_hash: Hash256,
) -> Seq<u8> {
    relay_parent.0@ + enc_u32(para_id.0) + persisted_validation_data_hash.0@ + pov_hash.0@
}

/// Build the payload a collator signs for a candidate: a pure function of
/// its four inputs, always exactly 100 bytes.
pub fn collator_signature_payload(
    relay_parent: &Hash256,
    para_id: &ParaId,
    persisted_validation_data_hash: &Hash256,
    pov_hash: &Hash256,
) -> (r: Vec<u8>)
    requires
        relay_parent.wf(),
        persisted_validation_data_hash.wf(),
        pov_hash.wf(),
    ensures
        r@ == spec_collator_signature_payload(
            *relay_parent,
            *para_id,
            *persisted_validation_data_hash,
            *pov_hash,
        ),
        r@.len() == 100,
{
    let mut payload: Vec<u8> = Vec::new();
    payload.extend_from_slice(relay_parent.0.as_slice());
    encode_u32(para_id.0, &mut payload);
    payload.extend_from_slice(persisted_validation_data_hash.0.as_slice());
    payload.extend_from_slice(pov_hash.0.as_slice());
    assert(payload@ =~= spec_collator_signature_payload(
        *relay_parent,
        *para_id,
        *persisted_validation_data_hash,
        *pov_hash,
    ));
    payload
}

/// Law: the signature payload is a pure function of its four inputs — two
/// calls on byte-equal inputs yield byte-identical payloads.
pub proof fn lemma_payload_deterministic(
    r1: Hash256,
    p1: ParaId,
    v1: Hash256,
    o1: Hash256,
    r2: Hash256,
    p2: ParaId,
    v2: Hash256,
    o2: Hash256,
)
    requires
        r1.0@ == r2.0@,
        p1.0 == p2.0,
        v1.0@ == v2.0@,
        o1.0@ == o2.0@,
    ensures
        spec_collator_signature_payload(r1, p1, v1, o1) == spec_collator_signature_payload(
            r2,
            p2,
            v2,
            o2,
        ),
{
}

/// Check a collator's signature over the payload rebuilt from the given
/// fields; succeeds exactly when the scheme accepts it.
pub fn check_collator_signature(
    relay_parent: &Hash256,
    para_id: &ParaId,
    persisted_validation_data_hash: &Hash256,
    pov_hash: &Hash256,
    collator: &CollatorId,
    signature: &CollatorSignature,
) -> (r: Result<(), InvalidSignature>)
    requires
        relay_parent.wf(),
        persisted_validation_data_hash.wf(),
        pov_hash.wf(),
    ensures
        r is Ok <==> sr25519_accepts(
            spec_collator_signature_payload(
                *relay_parent,
                *para_id,
                *persisted_validation_data_hash,
                *pov_hash,
            ),
            collator.0@,
            signature.0@,
        ),
{
    let payload = collator_signature_payload(
        relay_parent,
        para_id,
        persisted_validation_data_hash,
        pov_hash,
    );
    if sr25519_verify(&payload, &collator.0, &signature.0) {
        Ok(())
    } else {
        Err(InvalidSignature)
    }
}

impl CandidateDescriptor {
    /// Check the signature of the collator within this descriptor.
    pub fn check_collator_signature(&self) -> (r: Result<(), InvalidSignature>)
        requires
            self.wf(),
        ensures
            r is Ok <==> sr25519_accepts(
                spec_collator_signature_payload(
                    self.relay_parent,
                    self.para_id,
                    self.persisted_validation_data_hash,
                    self.pov_hash,
                ),
                self.collator.0@,
                self.signature.0@,
            ),
    {
        check_collator_signature(
            &self.relay_parent,
            &self.para_id,
            &self.persisted_validation_data_hash,
            &self.pov_hash,
            &self.collator,
            &self.signature,
        )
    }
}

/// The encoding of a descriptor: its fields in order, all fixed-width.
pub open spec fn enc_descriptor(d: CandidateDescriptor) -> Seq<u8> {
    enc_para_id(d.para_id) + d.relay_parent.0@ + d.collator.0@
        + d.persisted_validation_data_hash.0@ + d.pov_hash.0@ + d.signature.0@
}

/// A well-formed descriptor encodes to exactly 196 bytes.
pub proof fn lemma_enc_descriptor_len(d: CandidateDescriptor)
    requires
        d.wf(),
    ensures
        enc_descriptor(d).len() == 196,
{
}

/// Append the encoding of `d` to `out`.
pub fn encode_descriptor(d: &CandidateDescriptor, out: &mut Vec<u8>)
    ensures
        final(out)@ == old(out)@ + enc_descriptor(*d),
{
    encode_para_id(&d.para_id, out);
    encode_hash256(&d.relay_parent, out);
    out.extend_from_slice(d.collator.0.as_slice());
    encode_hash256(&d.persisted_validation_data_hash, out);
    encode_hash256(&d.pov_hash, out);
    out.extend_from_slice(d.signature.0.as_slice());
    assert(out@ =~= old(out)@ + enc_descriptor(*d));
}

/// Read a descriptor: 196 bytes of fixed-width fields.
///
/// Fails exactly when fewer than 196 bytes remain.
pub fn decode_descriptor(bytes: &Vec<u8>, pos: usize) -> (r: Option<(CandidateDescriptor, usize)>)
    ensures
        r matches Some(p) ==> p.1 == pos + 196 && p.1 <= bytes@.len() && p.0.wf()
            && bytes@.subrange(pos as int, p.1 as int) == enc_descriptor(p.0),
        r is None ==> bytes@.len() < pos + 196,
{
    if bytes.len() < 196 || pos > bytes.len() - 196 {
        return None;
    }
    let (para_id, p1) = match decode_para_id(bytes, pos) {
        Some(x) => x,
        None => return None,
    };
    let (relay_parent, p2) = match decode_hash256(bytes, p1) {
        Some(x) => x,
        None => return None,
    };
    let (collator, p3) = match decode_fixed(bytes, p2, 32) {
        Some(x) => x,
        None => return None,
    };
    let (pvd_hash, p4) = match decode_hash256(bytes, p3) {
        Some(x) => x,
        None => return None,
    };
    let (pov_hash, p5) = match decode_hash256(bytes, p4) {
        Some(x) => x,
        None => return None,
    };
    let (signature, p6) = match decode_fixed(bytes, p5, 64) {
        Some(x) => x,
        None => return None,
    };
    let d = CandidateDescriptor {
        para_id,
        relay_parent,
        collator: CollatorId(collator),
        persisted_validation_data_hash: pvd_hash,
        pov_hash,
        signature: CollatorSignature(signature),
    };
    proof {
        assert(bytes@.subrange(pos as int, p6 as int) =~= enc_descriptor(d));
    }
    Some((d, p6))
}

/// Two well-formed descriptors whose encodings begin at the same place in
/// the same byte string are field-by-field equal.
pub proof fn lemma_enc_descriptor_prefix_secure(
    s: Seq<u8>,
    pos: int,
    a: CandidateDescriptor,
    b: CandidateDescriptor,
)
    requires
        a.wf(),
        b.wf(),
        starts_with_at(s, pos, enc_descriptor(a)),
        starts_with_at(s, pos, enc_descriptor(b)),
    ensures
        eq_descriptor(a, b),
{
    lemma_descriptor_pieces(s, pos, a);
    lemma_descriptor_pieces(s, pos, b);
    assert forall|i: int| 0 <= i < 4 implies enc_para_id(a.para_id)[i] == enc_para_id(b.para_id)[i] by {
        lemma_starts_with_index(s, pos, enc_para_id(a.para_id), i);
        lemma_starts_with_index(s, pos, enc_para_id(b.para_id), i);
    }
    assert(enc_u32(a.para_id.0) =~= enc_u32(b.para_id.0));
    lemma_enc_u32_injective(a.para_id.0, b.para_id.0);
    assert forall|i: int| 0 <= i < 32 implies a.relay_parent.0@[i] == b.relay_parent.0@[i] by {
        lemma_starts_with_index(s, pos + 4, a.relay_parent.0@, i);
        lemma_starts_with_index(s, pos + 4, b.relay_parent.0@, i);
    }
    assert(a.relay_parent.0@ =~= b.relay_parent.0@);
    assert forall|i: int| 0 <= i < 32 implies a.collator.0@[i] == b.collator.0@[i] by {
        lemma_starts_with_index(s, pos + 36, a.collator.0@, i);
        lemma_starts_with_index(s, pos + 36, b.collator.0@, i);
    }
    assert(a.collator.0@ =~= b.collator.0@);
    assert forall|i: int| 0 <= i < 32 implies a.persisted_validation_data_hash.0@[i]
        == b.persisted_validation_data_hash.0@[i] by {
        lemma_starts_with_index(s, pos + 68, a.persisted_validation_data_hash.0@, i);
        lemma_starts_with_index(s, pos + 68, b.persisted_validation_data_hash.0@, i);
    }
    assert(a.persisted_validation_data_hash.0@ =~= b.persisted_validation_data_hash.0@);
    assert forall|i: int| 0 <= i < 32 implies a.pov_hash.0@[i] == b.pov_hash.0@[i] by {
        lemma_starts_with_index(s, pos + 100, a.pov_hash.0@, i);
        lemma_starts_with_index(s, pos + 100, b.pov_hash.0@, i);
    }
    assert(a.pov_hash.0@ =~= b.pov_hash.0@);
    assert forall|i: int| 0 <= i < 64 implies a.signature.0@[i] == b.signature.0@[i] by {
        lemma_starts_with_index(s, pos + 132, a.signature.0@, i);
        lemma_starts_with_index(s, pos + 132, b.signature.0@, i);
    }
    assert(a.signature.0@ =~= b.signature.0@);
}

/// A matched descriptor encoding places each field at its fixed offset.
proof fn lemma_descriptor_pieces(s: Seq<u8>, pos: int, d: CandidateDescriptor)
    requires
        d.wf(),
        starts_with_at(s, pos, enc_descriptor(d)),
    ensures
        starts_with_at(s, pos, enc_para_id(d.para_id)),
        starts_with_at(s, pos + 4, d.relay_parent.0@),
        starts_with_at(s, pos + 36, d.collator.0@),
        starts_with_at(s, pos + 68, d.persisted_validation_data_hash.0@),
        starts_with_at(s, pos + 100, d.pov_hash.0@),
        starts_with_at(s, pos + 132, d.signature.0@),
{
    let a1 = enc_para_id(d.para_id);
    let a2 = d.relay_parent.0@;
    let a3 = d.collator.0@;
    let a4 = d.persisted_validation_data_hash.0@;
    let a5 = d.pov_hash.0@;
    let a6 = d.signature.0@;
    lemma_starts_with_concat(s, pos, a1 + a2 + a3 + a4 + a5, a6);
    lemma_starts_with_concat(s, pos, a1 + a2 + a3 + a4, a5);
    lemma_starts_with_concat(s, pos, a1 + a2 + a3, a4);
    lemma_starts_with_concat(s, pos, a1 + a2, a3);
    lemma_starts_with_concat(s, pos, a1, a2);
}


/// The concatenated encodings of a sequence of raw byte messages.
pub open spec fn concat_enc_bytes(l: Seq<Vec<u8>>) -> Seq<u8>
    decreases l.len(),
{
    if l.len() == 0 {
        Seq::empty()
    } else {
        enc_bytes(l[0]@) + concat_enc_bytes(l.skip(1))
    }
}

/// Appending a message appends its encoding.
pub proof fn lemma_concat_enc_bytes_push(l: Seq<Vec<u8>>, x: Vec<u8>)
    ensures
        concat_enc_bytes(l.push(x)) == concat_enc_bytes(l) + enc_bytes(x@),
    decreases l.len(),
{
    if l.len() == 0 {
        assert(l.push(x)[0] == x);
        assert(l.push(x).skip(1) =~= Seq::<Vec<u8>>::empty());
        assert(concat_enc_bytes(l.push(x).skip(1)) == Seq::<u8>::empty());
        assert(concat_enc_bytes(l) == Seq::<u8>::empty());
        assert(enc_bytes(x@) + Seq::<u8>::empty() =~= Seq::<u8>::empty() + enc_bytes(x@));
        assert(concat_enc_bytes(l.push(x)) =~= concat_enc_bytes(l) + enc_bytes(x@));
    } else {
        assert(l.push(x).skip(1) =~= l.skip(1).push(x));
        lemma_concat_enc_bytes_push(l.skip(1), x);
        assert(l.push(x)[0] == l[0]);
        assert(concat_enc_bytes(l.push(x)) == enc_bytes(l[0]@) + (concat_enc_bytes(l.skip(1))
            + enc_bytes(x@)));
        assert(enc_bytes(l[0]@) + (concat_enc_bytes(l.skip(1)) + enc_bytes(x@)) =~= (enc_bytes(
            l[0]@,
        ) + concat_enc_bytes(l.skip(1))) + enc_bytes(x@));
    }
}

/// The encoding of a sequence of raw byte messages: count, then each
/// message length-prefixed.
pub open spec fn enc_bytes_list(l: Seq<Vec<u8>>) -> Seq<u8> {
    crate::codec::enc_compact_u32(l.len() as u32) + concat_enc_bytes(l)
}

/// Append the encoding of the message list `v` to `out`.
pub fn encode_bytes_list(v: &Vec<Vec<u8>>, out: &mut Vec<u8>)
    requires
        v@.len() <= u32::MAX,
        forall|k: int| 0 <= k < v@.len() ==> (#[trigger] v@[k])@.len() <= u32::MAX,
    ensures
        final(out)@ == old(out)@ + enc_bytes_list(v@),
{
    encode_compact_u32(v.len() as u32, out);
    let mut i: usize = 0;
    proof {
        assert(v@.take(0) =~= Seq::<Vec<u8>>::empty());
        assert(out@ =~= old(out)@ + crate::codec::enc_compact_u32(v@.len() as u32)
            + concat_enc_bytes(v@.take(0)));
    }
    while i < v.len()
        invariant
            i <= v@.len(),
            v@.len() <= u32::MAX,
            forall|k: int| 0 <= k < v@.len() ==> (#[trigger] v@[k])@.len() <= u32::MAX,
            out@ == old(out)@ + crate::codec::enc_compact_u32(v@.len() as u32) + concat_enc_bytes(
                v@.take(i as int),
            ),
        decreases v@.len() - i,
    {
        encode_bytes(&v[i], out);
        proof {
            lemma_concat_enc_bytes_push(v@.take(i as int), v@[i as int]);
            assert(v@.take(i as int).push(v@[i as int]) =~= v@.take(i + 1));
            assert(out@ =~= old(out)@ + crate::codec::enc_compact_u32(v@.len() as u32)
                + concat_enc_bytes(v@.take(i + 1)));
        }
        i = i + 1;
    }
    proof {
        assert(v@.take(v@.len() as int) =~= v@);
        assert(out@ =~= old(out)@ + enc_bytes_list(v@));
    }
}

/// The encoding of one horizontal message: recipient, then payload.
pub open spec fn enc_hrmp_message(m: OutboundHrmpMessage) -> Seq<u8> {
    enc_para_id(m.recipient) + enc_bytes(m.data@)
}

/// The concatenated encodings of a sequence of horizontal messages.
pub open spec fn concat_enc_hrmp(l: Seq<OutboundHrmpMessage>) -> Seq<u8>
    decreases l.len(),
{
    if l.len() == 0 {
        Seq::empty()
    } else {
        enc_hrmp_message(l[0]) + concat_enc_hrmp(l.skip(1))
    }
}

/// Appending a message appends its encoding.
pub proof fn lemma_concat_enc_hrmp_push(l: Seq<OutboundHrmpMessage>, x: OutboundHrmpMessage)
    ensures
        concat_enc_hrmp(l.push(x)) == concat_enc_hrmp(l) + enc_hrmp_message(x),
    decreases l.len(),
{
    if l.len() == 0 {
        assert(l.push(x)[0] == x);
        assert(l.push(x).skip(1) =~= Seq::<OutboundHrmpMessage>::empty());
        assert(concat_enc_hrmp(l.push(x).skip(1)) == Seq::<u8>::empty());
        assert(concat_enc_hrmp(l) == Seq::<u8>::empty());
        assert(enc_hrmp_message(x) + Seq::<u8>::empty() =~= Seq::<u8>::empty() + enc_hrmp_message(
            x,
        ));
        assert(concat_enc_hrmp(l.push(x)) =~= concat_enc_hrmp(l) + enc_hrmp_message(x));
    } else {
        assert(l.push(x).skip(1) =~= l.skip(1).push(x));
        lemma_concat_enc_hrmp_push(l.skip(1), x);
        assert(l.push(x)[0] == l[0]);
        assert(concat_enc_hrmp(l.push(x)) == enc_hrmp_message(l[0]) + (concat_enc_hrmp(l.skip(1))
            + enc_hrmp_message(x)));
        assert(enc_hrmp_message(l[0]) + (concat_enc_hrmp(l.skip(1)) + enc_hrmp_message(x)) =~= (
        enc_hrmp_message(l[0]) + concat_enc_hrmp(l.skip(1))) + enc_hrmp_message(x));
    }
}

/// The encoding of a sequence of horizontal messages: count, then each.
pub open spec fn enc_hrmp_list(l: Seq<OutboundHrmpMessage>) -> Seq<u8> {
    crate::codec::enc_compact_u32(l.len() as u32) + concat_enc_hrmp(l)
}

/// Append the encoding of the horizontal-message list `v` to `out`.
pub fn encode_hrmp_list(v: &Vec<OutboundHrmpMessage>, out: &mut Vec<u8>)
    requires
        v@.len() <= u32::MAX,
        forall|k: int| 0 <= k < v@.len() ==> (#[trigger] v@[k]).wf(),
    ensures
        final(out)@ == old(out)@ + enc_hrmp_list(v@),
{
    encode_compact_u32(v.len() as u32, out);
    let mut i: usize = 0;
    proof {
        assert(v@.take(0) =~= Seq::<OutboundHrmpMessage>::empty());
        assert(out@ =~= old(out)@ + crate::codec::enc_compact_u32(v@.len() as u32)
            + concat_enc_hrmp(v@.take(0)));
    }
    while i < v.len()
        invariant
            i <= v@.len(),
            v@.len() <= u32::MAX,
            forall|k: int| 0 <= k < v@.len() ==> (#[trigger] v@[k]).wf(),
            out@ == old(out)@ + crate::codec::enc_compact_u32(v@.len() as u32) + concat_enc_hrmp(
                v@.take(i as int),
            ),
        decreases v@.len() - i,
    {
        encode_para_id(&v[i].recipient, out);
        encode_bytes(&v[i].data, out);
        proof {
            lemma_concat_enc_hrmp_push(v@.take(i as int), v@[i as int]);
            assert(v@.take(i as int).push(v@[i as int]) =~= v@.take(i + 1));
            assert(out@ =~= old(out)@ + crate::codec::enc_compact_u32(v@.len() as u32)
                + concat_enc_hrmp(v@.take(i + 1)));
        }
        i = i + 1;
    }
    proof {
        assert(v@.take(v@.len() as int) =~= v@);
        assert(out@ =~= old(out)@ + enc_hrmp_list(v@));
    }
}

/// Commitments made in a candidate receipt: the declared outputs of
/// executing the candidate.
#[derive(Clone, Debug, PartialEq, Eq)]
pub struct CandidateCommitments {
    /// Messages destined for the relay chain itself.
    pub upward_messages: Vec<UpwardMessage>,
    /// Horizontal messages sent by the para.
    pub horizontal_messages: Vec<OutboundHrmpMessage>,
    /// The root of the erasure-encoding Merkle tree.
    pub erasure_root: Hash256,
    /// New validation code, if the execution submitted an upgrade.
    pub new_validation_code: Option<ValidationCode>,
    /// The head-data produced by the execution.
    pub head_data: HeadData,
    /// How many messages of the downward queue were processed.
    pub processed_downward_messages: u32,
    /// The block number up to which all inbound horizontal messages are
    /// processed.
    pub hrmp_watermark: BlockNumber,
}

impl CandidateCommitments {
    /// Counts and byte-string lengths fit the 32-bit prefixes, and the
    /// digest has its fixed width.
    pub open spec fn wf(&self) -> bool {
        &&& self.upward_messages@.len() <= u32::MAX
        &&& forall|k: int|
            0 <= k < self.upward_messages@.len() ==> (#[trigger] self.upward_messages@[k])@.len()
                <= u32::MAX
        &&& self.horizontal_messages@.len() <= u32::MAX
        &&& forall|k: int|
            0 <= k < self.horizontal_messages@.len() ==> (#[trigger] self.horizontal_messages@[k]).wf()
        &&& self.erasure_root.wf()
        &&& (self.new_validation_code matches Some(c) ==> c.wf())
        &&& self.head_data.wf()
    }
}

/// The encoding of an optional validation code: a marker byte, then the
/// code length-prefixed if present.
pub open spec fn enc_opt_code(o: Option<ValidationCode>) -> Seq<u8> {
    match o {
        Option::None => seq![0u8],
        Option::Some(c) => seq![1u8] + enc_bytes(c.0@),
    }
}

/// The encoding of commitments: the fields in order.
pub open spec fn enc_commitments(c: CandidateCommitments) -> Seq<u8> {
    enc_bytes_list(c.upward_messages@) + enc_hrmp_list(c.horizontal_messages@)
        + c.erasure_root.0@ + enc_opt_code(c.new_validation_code) + enc_bytes(c.head_data.0@)
        + enc_u32(c.processed_downward_messages) + enc_u32(c.hrmp_watermark)
}

/// Append the encoding of `c` to `out`.
pub fn encode_commitments(c: &CandidateCommitments, out: &mut Vec<u8>)
    requires
        c.wf(),
    ensures
        final(out)@ == old(out)@ + enc_commitments(*c),
{
    encode_bytes_list(&c.upward_messages, out);
    encode_hrmp_list(&c.horizontal_messages, out);
    encode_hash256(&c.erasure_root, out);
    match &c.new_validation_code {
        None => {
            out.push(0u8);
        },
        Some(code) => {
            out.push(1u8);
            encode_bytes(&code.0, out);
        },
    }
    encode_bytes(&c.head_data.0, out);
    encode_u32(c.processed_downward_messages, out);
    encode_u32(c.hrmp_watermark, out);
    assert(out@ =~= old(out)@ + enc_commitments(*c));
}

/// The digest identifying a set of commitments: the hash of its encoding.
pub open spec fn commitments_hash_of(c: CandidateCommitments) -> Seq<u8> {
    blake2_256_of(enc_commitments(c))
}

impl CandidateCommitments {
    /// Compute the digest of the commitments.
    pub fn hash(&self) -> (r: Hash256)
        requires
            self.wf(),
        ensures
            r.0@ == commitments_hash_of(*self),
            r.wf(),
    {
        let mut buf: Vec<u8> = Vec::new();
        encode_commitments(self, &mut buf);
        Hash256(blake2_256(&buf))
    }
}


/// A candidate receipt: the descriptor plus the digest of the commitments.
#[derive(Clone, Debug, PartialEq, Eq)]
pub struct CandidateReceipt {
    /// The descriptor of the candidate.
    pub descriptor: CandidateDescriptor,
    /// The digest of the encoded commitments of the candidate's execution.
    pub commitments_hash: Hash256,
}

impl CandidateReceipt {
    /// Both parts are well-formed.
    pub open spec fn wf(&self) -> bool {
        self.descriptor.wf() && self.commitments_hash.wf()
    }

    /// Get a reference to the candidate descriptor.
    pub fn descriptor(&self) -> (r: &CandidateDescriptor)
        ensures
            *r == self.descriptor,
    {
        &self.descriptor
    }
}

/// The encoding of a receipt: descriptor, then commitments digest.
pub open spec fn enc_receipt(r: CandidateReceipt) -> Seq<u8> {
    enc_descriptor(r.descriptor) + r.commitments_hash.0@
}

/// The canonical identity of a candidate: the digest of its plain
/// receipt's encoding.
pub open spec fn candidate_receipt_hash(r: CandidateReceipt) -> Seq<u8> {
    blake2_256_of(enc_receipt(r))
}

/// Append the encoding of `r` to `out`.
pub fn encode_receipt(r: &CandidateReceipt, out: &mut Vec<u8>)
    ensures
        final(out)@ == old(out)@ + enc_receipt(*r),
{
    encode_descriptor(&r.descriptor, out);
    encode_hash256(&r.commitments_hash, out);
    assert(out@ =~= old(out)@ + enc_receipt(*r));
}

/// Read a receipt: a descriptor, then a 32-byte digest.
///
/// Fails exactly when fewer than 228 bytes remain.
pub fn decode_receipt(bytes: &Vec<u8>, pos: usize) -> (r: Option<(CandidateReceipt, usize)>)
    ensures
        r matches Some(p) ==> p.1 == pos + 228 && p.1 <= bytes@.len() && p.0.wf()
            && bytes@.subrange(pos as int, p.1 as int) == enc_receipt(p.0),
        r is None ==> bytes@.len() < pos + 228,
{
    let (descriptor, p1) = match decode_descriptor(bytes, pos) {
        Some(x) => x,
        None => {
            return None;
        },
    };
    let (commitments_hash, p2) = match decode_hash256(bytes, p1) {
        Some(x) => x,
        None => {
            return None;
        },
    };
    let r = CandidateReceipt { descriptor, commitments_hash };
    proof {
        assert(bytes@.subrange(pos as int, p2 as int) =~= enc_receipt(r));
    }
    Some((r, p2))
}

impl CandidateReceipt {
    /// Compute the canonical digest of the receipt.
    pub fn hash(&self) -> (r: CandidateHash)
        requires
            self.wf(),
        ensures
            r.0.0@ == candidate_receipt_hash(*self),
            r.0.wf(),
    {
        let mut buf: Vec<u8> = Vec::new();
        encode_receipt(self, &mut buf);
        CandidateHash(Hash256(blake2_256(&buf)))
    }
}

/// Copy a byte vector, keeping its contents.
fn clone_bytes(v: &Vec<u8>) -> (r: Vec<u8>)
    ensures
        r@ == v@,
{
    let mut r: Vec<u8> = Vec::new();
    r.extend_from_slice(v.as_slice());
    assert(r@ =~= v@);
    r
}

/// Copy a descriptor, keeping every field's bytes.
fn clone_descriptor(d: &CandidateDescriptor) -> (r: CandidateDescriptor)
    ensures
        eq_descriptor(r, *d),
        r.wf() == d.wf(),
{
    CandidateDescriptor {
        para_id: d.para_id,
        relay_parent: Hash256(clone_bytes(&d.relay_parent.0)),
        collator: CollatorId(clone_bytes(&d.collator.0)),
        persisted_validation_data_hash: Hash256(clone_bytes(&d.persisted_validation_data_hash.0)),
        pov_hash: Hash256(clone_bytes(&d.pov_hash.0)),
        signature: CollatorSignature(clone_bytes(&d.signature.0)),
    }
}

/// A candidate receipt with the commitments inline rather than hashed.
#[derive(Clone, Debug, PartialEq, Eq)]
pub struct CommittedCandidateReceipt {
    /// The descriptor of the candidate.
    pub descriptor: CandidateDescriptor,
    /// The full commitments of the candidate's execution.
    pub commitments: CandidateCommitments,
}

/// The encoding of a committed receipt: descriptor, then the full
/// commitments.
pub open spec fn enc_committed(c: CommittedCandidateReceipt) -> Seq<u8> {
    enc_descriptor(c.descriptor) + enc_commitments(c.commitments)
}

/// The canonical identity of a committed receipt: the digest of the plain
/// receipt obtained by hashing the commitments — not the digest of the
/// committed form's own encoding.
pub open spec fn committed_candidate_hash(c: CommittedCandidateReceipt) -> Seq<u8> {
    blake2_256_of(enc_descriptor(c.descriptor) + commitments_hash_of(c.commitments))
}

impl CommittedCandidateReceipt {
    /// Both parts are well-formed.
    pub open spec fn wf(&self) -> bool {
        self.descriptor.wf() && self.commitments.wf()
    }

    /// Get a reference to the candidate descriptor.
    pub fn descriptor(&self) -> (r: &CandidateDescriptor)
        ensures
            *r == self.descriptor,
    {
        &self.descriptor
    }

    /// Transform this into a plain receipt by hashing the commitments.
    pub fn to_plain(&self) -> (r: CandidateReceipt)
        requires
            self.wf(),
        ensures
            r.wf(),
            eq_descriptor(r.descriptor, self.descriptor),
            r.commitments_hash.0@ == commitments_hash_of(self.commitments),
    {
        CandidateReceipt {
            descriptor: clone_descriptor(&self.descriptor),
            commitments_hash: self.commitments.hash(),
        }
    }

    /// Compute the canonical digest of the committed receipt.
    ///
    /// This is the digest of the plain receipt, never the digest of the
    /// committed form's own encoding.
    pub fn hash(&self) -> (r: CandidateHash)
        requires
            self.wf(),
        ensures
            r.0.0@ == committed_candidate_hash(*self),
            r.0.wf(),
    {
        let plain = self.to_plain();
        proof {
            assert(enc_receipt(plain) == enc_descriptor(self.descriptor) + commitments_hash_of(
                self.commitments,
            ));
        }
        plain.hash()
    }
}

/// Append the encoding of `c` to `out`.
pub fn encode_committed(c: &CommittedCandidateReceipt, out: &mut Vec<u8>)
    requires
        c.commitments.wf(),
    ensures
        final(out)@ == old(out)@ + enc_committed(*c),
{
    encode_descriptor(&c.descriptor, out);
    encode_commitments(&c.commitments, out);
    assert(out@ =~= old(out)@ + enc_committed(*c));
}

/// Law: the two canonical-hash code paths agree — the canonical hash of a
/// committed receipt equals the hash of any plain receipt that carries a
/// byte-equal descriptor and the digest of its commitments.
pub proof fn lemma_canonical_hash_agrees(c: CommittedCandidateReceipt, r: CandidateReceipt)
    requires
        eq_descriptor(r.descriptor, c.descriptor),
        r.commitments_hash.0@ == commitments_hash_of(c.commitments),
    ensures
        candidate_receipt_hash(r) == committed_candidate_hash(c),
{
    assert(enc_descriptor(r.descriptor) == enc_descriptor(c.descriptor));
    assert(enc_receipt(r) == enc_descriptor(c.descriptor) + commitments_hash_of(c.commitments));
}


/// The result of comparing two candidates under the placeholder ordering.
#[derive(Clone, Copy, Debug, PartialEq, Eq, Structural)]
pub enum CandidateOrdering {
    /// The first candidate sorts before the second.
    Less,
    /// The two candidates sort together.
    Equal,
    /// The first candidate sorts after the second.
    Greater,
}

/// Strict lexicographic order on byte strings: a proper prefix sorts
/// before its extensions.
pub open spec fn spec_lex_less(a: Seq<u8>, b: Seq<u8>) -> bool
    decreases a.len(),
{
    if b.len() == 0 {
        false
    } else if a.len() == 0 {
        true
    } else if a[0] != b[0] {
        a[0] < b[0]
    } else {
        spec_lex_less(a.skip(1), b.skip(1))
    }
}

/// A difference at the first unequal position decides the lexicographic
/// order: equal up to `i`, then either `a` ends or its byte is smaller.
pub proof fn lemma_lex_less_from_diff(a: Seq<u8>, b: Seq<u8>, i: int)
    requires
        0 <= i <= a.len(),
        i <= b.len(),
        forall|k: int| 0 <= k < i ==> a[k] == b[k],
        (i < a.len() && i < b.len() && a[i] < b[i]) || (i == a.len() && i < b.len()),
    ensures
        spec_lex_less(a, b),
    decreases i,
{
    if i == 0 {
    } else {
        assert(a[0] == b[0]);
        let a1 = a.skip(1);
        let b1 = b.skip(1);
        assert(forall|k: int| 0 <= k < i - 1 ==> a1[k] == b1[k]);
        if i < a.len() && i < b.len() && a[i] < b[i] {
            assert(a1[i - 1] == a[i] && b1[i - 1] == b[i]);
            lemma_lex_less_from_diff(a1, b1, i - 1);
        } else {
            lemma_lex_less_from_diff(a1, b1, i - 1);
        }
    }
}

/// Compare two byte strings lexicographically.
pub fn lex_compare(a: &Vec<u8>, b: &Vec<u8>) -> (r: CandidateOrdering)
    ensures
        r is Less ==> spec_lex_less(a@, b@),
        r is Equal ==> a@ == b@,
        r is Greater ==> spec_lex_less(b@, a@),
{
    let n = if a.len() < b.len() {
        a.len()
    } else {
        b.len()
    };
    let mut i: usize = 0;
    while i < n
        invariant
            i <= n,
            n <= a@.len(),
            n <= b@.len(),
            n == a@.len() || n == b@.len(),
            forall|k: int| 0 <= k < i ==> a@[k] == b@[k],
        decreases n - i,
    {
        if a[i] < b[i] {
            proof {
                lemma_lex_less_from_diff(a@, b@, i as int);
            }
            return CandidateOrdering::Less;
        }
        if a[i] > b[i] {
            proof {
                lemma_lex_less_from_diff(b@, a@, i as int);
            }
            return CandidateOrdering::Greater;
        }
        i = i + 1;
    }
    if a.len() < b.len() {
        proof {
            lemma_lex_less_from_diff(a@, b@, n as int);
        }
        CandidateOrdering::Less
    } else if a.len() > b.len() {
        proof {
            lemma_lex_less_from_diff(b@, a@, n as int);
        }
        CandidateOrdering::Greater
    } else {
        proof {
            assert(a@ =~= b@);
        }
        CandidateOrdering::Equal
    }
}

/// The placeholder ordering on committed receipts: by para identifier,
/// ties broken by head-data bytes. Deterministic, not security-relevant.
pub open spec fn spec_candidate_precedes(
    a: CommittedCandidateReceipt,
    b: CommittedCandidateReceipt,
) -> bool {
    a.descriptor.para_id.0 < b.descriptor.para_id.0 || (a.descriptor.para_id.0
        == b.descriptor.para_id.0 && spec_lex_less(
        a.commitments.head_data.0@,
        b.commitments.head_data.0@,
    ))
}

impl CommittedCandidateReceipt {
    /// Compare two committed receipts under the placeholder ordering:
    /// para identifier first, then head-data bytes. This ordering exists
    /// only to give containers a deterministic placement and carries no
    /// cryptographic meaning.
    pub fn compare(&self, other: &CommittedCandidateReceipt) -> (r: CandidateOrdering)
        ensures
            r is Less ==> spec_candidate_precedes(*self, *other),
            r is Greater ==> spec_candidate_precedes(*other, *self),
            r is Equal ==> self.descriptor.para_id.0 == other.descriptor.para_id.0
                && self.commitments.head_data.0@ == other.commitments.head_data.0@,
    {
        if self.descriptor.para_id.0 < other.descriptor.para_id.0 {
            CandidateOrdering::Less
        } else if self.descriptor.para_id.0 > other.descriptor.para_id.0 {
            CandidateOrdering::Greater
        } else {
            lex_compare(&self.commitments.head_data.0, &other.commitments.head_data.0)
        }
    }
}

/// One entry of the inbound message-queue-chain heads: the sender para
/// and the accumulator digest of its channel.
pub type MqcHead = (ParaId, Hash256);

/// The encoding of one queue-chain head: sender, then digest.
pub open spec fn enc_mqc_head(m: MqcHead) -> Seq<u8> {
    enc_para_id(m.0) + m.1.0@
}

/// The concatenated encodings of a sequence of queue-chain heads.
pub open spec fn concat_enc_mqc(l: Seq<MqcHead>) -> Seq<u8>
    decreases l.len(),
{
    if l.len() == 0 {
        Seq::empty()
    } else {
        enc_mqc_head(l[0]) + concat_enc_mqc(l.skip(1))
    }
}

/// Appending a head appends its encoding.
pub proof fn lemma_concat_enc_mqc_push(l: Seq<MqcHead>, x: MqcHead)
    ensures
        concat_enc_mqc(l.push(x)) == concat_enc_mqc(l) + enc_mqc_head(x),
    decreases l.len(),
{
    if l.len() == 0 {
        assert(l.push(x)[0] == x);
        assert(l.push(x).skip(1) =~= Seq::<MqcHead>::empty());
        assert(concat_enc_mqc(l.push(x).skip(1)) == Seq::<u8>::empty());
        assert(concat_enc_mqc(l) == Seq::<u8>::empty());
        assert(enc_mqc_head(x) + Seq::<u8>::empty() =~= Seq::<u8>::empty() + enc_mqc_head(x));
        assert(concat_enc_mqc(l.push(x)) =~= concat_enc_mqc(l) + enc_mqc_head(x));
    } else {
        assert(l.push(x).skip(1) =~= l.skip(1).push(x));
        lemma_concat_enc_mqc_push(l.skip(1), x);
        assert(l.push(x)[0] == l[0]);
        assert(concat_enc_mqc(l.push(x)) == enc_mqc_head(l[0]) + (concat_enc_mqc(l.skip(1))
            + enc_mqc_head(x)));
        assert(enc_mqc_head(l[0]) + (concat_enc_mqc(l.skip(1)) + enc_mqc_head(x)) =~= (
        enc_mqc_head(l[0]) + concat_enc_mqc(l.skip(1))) + enc_mqc_head(x));
    }
}

/// The encoding of a sequence of queue-chain heads: count, then each.
pub open spec fn enc_mqc_list(l: Seq<MqcHead>) -> Seq<u8> {
    crate::codec::enc_compact_u32(l.len() as u32) + concat_enc_mqc(l)
}

/// Append the encoding of the queue-chain heads `v` to `out`.
pub fn encode_mqc_list(v: &Vec<MqcHead>, out: &mut Vec<u8>)
    requires
        v@.len() <= u32::MAX,
    ensures
        final(out)@ == old(out)@ + enc_mqc_list(v@),
{
    encode_compact_u32(v.len() as u32, out);
    let mut i: usize = 0;
    proof {
        assert(v@.take(0) =~= Seq::<MqcHead>::empty());
        assert(out@ =~= old(out)@ + crate::codec::enc_compact_u32(v@.len() as u32)
            + concat_enc_mqc(v@.take(0)));
    }
    while i < v.len()
        invariant
            i <= v@.len(),
            v@.len() <= u32::MAX,
            out@ == old(out)@ + crate::codec::enc_compact_u32(v@.len() as u32) + concat_enc_mqc(
                v@.take(i as int),
            ),
        decreases v@.len() - i,
    {
        encode_para_id(&v[i].0, out);
        encode_hash256(&v[i].1, out);
        proof {
            lemma_concat_enc_mqc_push(v@.take(i as int), v@[i as int]);
            assert(v@.take(i as int).push(v@[i as int]) =~= v@.take(i + 1));
            assert(out@ =~= old(out)@ + crate::codec::enc_compact_u32(v@.len() as u32)
                + concat_enc_mqc(v@.take(i + 1)));
        }
        i = i + 1;
    }
    proof {
        assert(v@.take(v@.len() as int) =~= v@);
        assert(out@ =~= old(out)@ + enc_mqc_list(v@));
    }
}

/// Validation data that must remain retrievable independently of
/// relay-chain state, for later re-validation.
#[derive(Clone, Debug, PartialEq, Eq)]
pub struct PersistedValidationData {
    /// The parent head-data.
    pub parent_head: HeadData,
    /// The relay-chain block number this is in the context of.
    pub block_number: BlockNumber,
    /// The queue-chain heads of the inbound channels, ascending by sender
    /// with no sender repeated.
    pub hrmp_mqc_heads: Vec<MqcHead>,
    /// The queue-chain head of the downward message queue.
    pub dmq_mqc_head: Hash256,
}

impl PersistedValidationData {
    /// Lengths fit their prefixes, digests have their width, and the
    /// queue-chain heads ascend strictly by sender.
    pub open spec fn wf(&self) -> bool {
        &&& self.parent_head.wf()
        &&& self.hrmp_mqc_heads@.len() <= u32::MAX
        &&& forall|k: int| 0 <= k < self.hrmp_mqc_heads@.len() ==> (#[trigger] self.hrmp_mqc_heads@[k]).1.wf()
        &&& forall|i: int, j: int|
            0 <= i < j < self.hrmp_mqc_heads@.len() ==> self.hrmp_mqc_heads@[i].0.0
                < self.hrmp_mqc_heads@[j].0.0
        &&& self.dmq_mqc_head.wf()
    }
}

/// The encoding of persisted validation data: the fields in order.
pub open spec fn enc_pvd(d: PersistedValidationData) -> Seq<u8> {
    enc_bytes(d.parent_head.0@) + enc_u32(d.block_number) + enc_mqc_list(d.hrmp_mqc_heads@)
        + d.dmq_mqc_head.0@
}

/// The digest of persisted validation data: the hash of its encoding.
pub open spec fn pvd_hash_of(d: PersistedValidationData) -> Seq<u8> {
    blake2_256_of(enc_pvd(d))
}

/// Append the encoding of `d` to `out`.
pub fn encode_pvd(d: &PersistedValidationData, out: &mut Vec<u8>)
    requires
        d.parent_head.wf(),
        d.hrmp_mqc_heads@.len() <= u32::MAX,
    ensures
        final(out)@ == old(out)@ + enc_pvd(*d),
{
    encode_bytes(&d.parent_head.0, out);
    encode_u32(d.block_number, out);
    encode_mqc_list(&d.hrmp_mqc_heads, out);
    encode_hash256(&d.dmq_mqc_head, out);
    assert(out@ =~= old(out)@ + enc_pvd(*d));
}

impl PersistedValidationData {
    /// Compute the digest of the persisted validation data.
    pub fn hash(&self) -> (r: Hash256)
        requires
            self.wf(),
        ensures
            r.0@ == pvd_hash_of(*self),
            r.wf(),
    {
        let mut buf: Vec<u8> = Vec::new();
        encode_pvd(self, &mut buf);
        Hash256(blake2_256(&buf))
    }
}

/// Validation data that holds only at the moment of computation and is
/// never persisted.
#[derive(Clone, Debug, PartialEq, Eq)]
pub struct TransientValidationData {
    /// The maximum permitted code size, in bytes.
    pub max_code_size: u32,
    /// The maximum permitted head-data size, in bytes.
    pub max_head_data_size: u32,
    /// The balance of the para at the moment of validation.
    pub balance: u128,
    /// If a code upgrade is allowed: the least relay-chain height at which
    /// one signalled now would be applied.
    pub code_upgrade_allowed: Option<BlockNumber>,
    /// How many messages are pending in the downward queue.
    pub dmq_length: u32,
}

/// The encoding of an optional block number: a marker byte, then the
/// number if present.
pub open spec fn enc_opt_u32(o: Option<u32>) -> Seq<u8> {
    match o {
        Option::None => seq![0u8],
        Option::Some(n) => seq![1u8] + enc_u32(n),
    }
}

/// Append the encoding of `o` to `out`.
pub fn encode_opt_u32(o: &Option<u32>, out: &mut Vec<u8>)
    ensures
        final(out)@ == old(out)@ + enc_opt_u32(*o),
{
    match o {
        None => {
            out.push(0u8);
        },
        Some(n) => {
            out.push(1u8);
            encode_u32(*n, out);
        },
    }
    assert(out@ =~= old(out)@ + enc_opt_u32(*o));
}

/// The encoding of transient validation data: the fields in order.
pub open spec fn enc_transient(d: TransientValidationData) -> Seq<u8> {
    enc_u32(d.max_code_size) + enc_u32(d.max_head_data_size) + enc_u128(d.balance) + enc_opt_u32(
        d.code_upgrade_allowed,
    ) + enc_u32(d.dmq_length)
}

/// Append the encoding of `d` to `out`.
pub fn encode_transient(d: &TransientValidationData, out: &mut Vec<u8>)
    ensures
        final(out)@ == old(out)@ + enc_transient(*d),
{
    encode_u32(d.max_code_size, out);
    encode_u32(d.max_head_data_size, out);
    encode_u128(d.balance, out);
    encode_opt_u32(&d.code_upgrade_allowed, out);
    encode_u32(d.dmq_length, out);
    assert(out@ =~= old(out)@ + enc_transient(*d));
}

/// The persisted and transient validation data together.
#[derive(Clone, Debug, PartialEq, Eq)]
pub struct ValidationData {
    /// The persisted part.
    pub persisted: PersistedValidationData,
    /// The transient part.
    pub transient: TransientValidationData,
}

/// The encoding of validation data: persisted, then transient.
pub open spec fn enc_validation_data(d: ValidationData) -> Seq<u8> {
    enc_pvd(d.persisted) + enc_transient(d.transient)
}

/// Append the encoding of `d` to `out`.
pub fn encode_validation_data(d: &ValidationData, out: &mut Vec<u8>)
    requires
        d.persisted.parent_head.wf(),
        d.persisted.hrmp_mqc_heads@.len() <= u32::MAX,
    ensures
        final(out)@ == old(out)@ + enc_validation_data(*d),
{
    encode_pvd(&d.persisted, out);
    encode_transient(&d.transient, out);
    assert(out@ =~= old(out)@ + enc_validation_data(*d));
}

/// All data pertaining to the execution of a para candidate.
#[derive(Clone, Debug, PartialEq, Eq)]
pub struct FullCandidateReceipt {
    /// The inner plain receipt.
    pub inner: CandidateReceipt,
    /// The validation data derived from relay-chain state; its persisted
    /// part must hash to the descriptor's persisted-validation-data digest.
    pub validation_data: ValidationData,
}

/// The outputs of validating a candidate, before they are turned into
/// commitments.
#[derive(Clone, Debug, PartialEq, Eq)]
pub struct ValidationOutputs {
    /// The head-data produced by validation.
    pub head_data: HeadData,
    /// Messages destined for the relay chain itself.
    pub upward_messages: Vec<UpwardMessage>,
    /// Horizontal messages sent by the para.
    pub horizontal_messages: Vec<OutboundHrmpMessage>,
    /// New validation code, if the execution submitted an upgrade.
    pub new_validation_code: Option<ValidationCode>,
    /// How many messages of the downward queue were processed.
    pub processed_downward_messages: u32,
    /// The block number up to which all inbound horizontal messages are
    /// processed.
    pub hrmp_watermark: BlockNumber,
}

impl ValidationOutputs {
    /// Counts and byte-string lengths fit their 32-bit prefixes.
    pub open spec fn wf(&self) -> bool {
        &&& self.head_data.wf()
        &&& self.upward_messages@.len() <= u32::MAX
        &&& forall|k: int|
            0 <= k < self.upward_messages@.len() ==> (#[trigger] self.upward_messages@[k])@.len()
                <= u32::MAX
        &&& self.horizontal_messages@.len() <= u32::MAX
        &&& forall|k: int|
            0 <= k < self.horizontal_messages@.len() ==> (#[trigger] self.horizontal_messages@[k]).wf()
        &&& (self.new_validation_code matches Some(c) ==> c.wf())
    }
}

/// The encoding of validation outputs: the fields in order.
pub open spec fn enc_validation_outputs(o: ValidationOutputs) -> Seq<u8> {
    enc_bytes(o.head_data.0@) + enc_bytes_list(o.upward_messages@) + enc_hrmp_list(
        o.horizontal_messages@,
    ) + enc_opt_code(o.new_validation_code) + enc_u32(o.processed_downward_messages) + enc_u32(
        o.hrmp_watermark,
    )
}

/// Append the encoding of `o` to `out`.
pub fn encode_validation_outputs(o: &ValidationOutputs, out: &mut Vec<u8>)
    requires
        o.wf(),
    ensures
        final(out)@ == old(out)@ + enc_validation_outputs(*o),
{
    encode_bytes(&o.head_data.0, out);
    encode_bytes_list(&o.upward_messages, out);
    encode_hrmp_list(&o.horizontal_messages, out);
    match &o.new_validation_code {
        None => {
            out.push(0u8);
        },
        Some(code) => {
            out.push(1u8);
            encode_bytes(&code.0, out);
        },
    }
    encode_u32(o.processed_downward_messages, out);
    encode_u32(o.hrmp_watermark, out);
    assert(out@ =~= old(out)@ + enc_validation_outputs(*o));
}

/// A proof-of-validity: the witness data of a parablock.
#[derive(Clone, Debug, PartialEq, Eq)]
pub struct PoV {
    /// The block witness data.
    pub block_data: BlockData,
}

/// The encoding of a proof-of-validity: its witness data, length-prefixed.
pub open spec fn enc_pov(p: PoV) -> Seq<u8> {
    enc_bytes(p.block_data.0@)
}

/// The digest of a proof-of-validity: the hash of its encoding.
pub open spec fn pov_hash_of(p: PoV) -> Seq<u8> {
    blake2_256_of(enc_pov(p))
}

impl PoV {
    /// The witness length fits the 32-bit length prefix.
    pub open spec fn wf(&self) -> bool {
        self.block_data.wf()
    }

    /// Compute the digest of the proof-of-validity.
    pub fn hash(&self) -> (r: Hash256)
        requires
            self.wf(),
        ensures
            r.0@ == pov_hash_of(*self),
            r.wf(),
    {
        let mut buf: Vec<u8> = Vec::new();
        encode_bytes(&self.block_data.0, &mut buf);
        proof {
            assert(buf@ =~= enc_pov(*self));
        }
        Hash256(blake2_256(&buf))
    }
}

/// The data kept available for each candidate included on-chain: the
/// proof-of-validity, shared immutably, and the persisted validation data
/// needed for secondary checks.
#[derive(Clone, Debug, PartialEq, Eq)]
pub struct AvailableData {
    /// The proof-of-validity, immutable once constructed and shared
    /// without copying.
    pub pov: std::sync::Arc<PoV>,
    /// The persisted validation data for secondary checks.
    pub validation_data: PersistedValidationData,
}


/// A matched transient-data encoding places each field at its offset.
proof fn lemma_transient_pieces(s: Seq<u8>, pos: int, t: TransientValidationData)
    requires
        starts_with_at(s, pos, enc_transient(t)),
    ensures
        starts_with_at(s, pos, enc_u32(t.max_code_size)),
        starts_with_at(s, pos + 4, enc_u32(t.max_head_data_size)),
        starts_with_at(s, pos + 8, enc_u128(t.balance)),
        starts_with_at(s, pos + 24, enc_opt_u32(t.code_upgrade_allowed)),
        starts_with_at(
            s,
            pos + 24 + enc_opt_u32(t.code_upgrade_allowed).len(),
            enc_u32(t.dmq_length),
        ),
{
    let a1 = enc_u32(t.max_code_size);
    let a2 = enc_u32(t.max_head_data_size);
    let a3 = enc_u128(t.balance);
    let a4 = enc_opt_u32(t.code_upgrade_allowed);
    let a5 = enc_u32(t.dmq_length);
    assert(a3.len() == 16) by {
        crate::codec::lemma_le_bytes_len(t.balance as int, 16);
    }
    lemma_starts_with_concat(s, pos, a1 + a2 + a3 + a4, a5);
    lemma_starts_with_concat(s, pos, a1 + a2 + a3, a4);
    lemma_starts_with_concat(s, pos, a1 + a2, a3);
    lemma_starts_with_concat(s, pos, a1, a2);
}

/// Read transient validation data.
///
/// Fails exactly when no transient data's encoding begins there: too few
/// bytes, or an upgrade marker other than zero or one.
pub fn decode_transient(bytes: &Vec<u8>, pos: usize) -> (r: Option<(
    TransientValidationData,
    usize,
)>)
    ensures
        r matches Some(p) ==> pos <= p.1 <= bytes@.len()
            && bytes@.subrange(pos as int, p.1 as int) == enc_transient(p.0),
        r is None ==> forall|t: TransientValidationData|
            !starts_with_at(bytes@, pos as int, enc_transient(t)),
{
    proof {
        assert forall|t: TransientValidationData| enc_transient(t).len() == 29
            + enc_u32_opt_extra(t.code_upgrade_allowed) by {
            crate::codec::lemma_le_bytes_len(t.balance as int, 16);
        }
    }
    let (max_code_size, p1) = match decode_u32(bytes, pos) {
        Some(x) => x,
        None => {
            proof {
                assert forall|t: TransientValidationData| !starts_with_at(
                    bytes@,
                    pos as int,
                    enc_transient(t),
                ) by {
                    assert(enc_transient(t).len() >= 29);
                }
            }
            return None;
        },
    };
    let (max_head_data_size, p2) = match decode_u32(bytes, p1) {
        Some(x) => x,
        None => {
            proof {
                assert forall|t: TransientValidationData| !starts_with_at(
                    bytes@,
                    pos as int,
                    enc_transient(t),
                ) by {
                    assert(enc_transient(t).len() >= 29);
                }
            }
            return None;
        },
    };
    let (balance, p3) = match decode_u128(bytes, p2) {
        Some(x) => x,
        None => {
            proof {
                assert forall|t: TransientValidationData| !starts_with_at(
                    bytes@,
                    pos as int,
                    enc_transient(t),
                ) by {
                    assert(enc_transient(t).len() >= 29);
                }
            }
            return None;
        },
    };
    if p3 >= bytes.len() {
        proof {
            assert forall|t: TransientValidationData| !starts_with_at(
                bytes@,
                pos as int,
                enc_transient(t),
            ) by {
                assert(enc_transient(t).len() >= 29);
            }
        }
        return None;
    }
    let marker = bytes[p3];
    if marker != 0 && marker != 1 {
        proof {
            assert forall|t: TransientValidationData| !starts_with_at(
                bytes@,
                pos as int,
                enc_transient(t),
            ) by {
                if starts_with_at(bytes@, pos as int, enc_transient(t)) {
                    lemma_transient_pieces(bytes@, pos as int, t);
                    lemma_starts_with_index(
                        bytes@,
                        pos + 24,
                        enc_opt_u32(t.code_upgrade_allowed),
                        0,
                    );
                }
            }
        }
        return None;
    }
    let (code_upgrade_allowed, p4) = if marker == 0 {
        (None, p3 + 1)
    } else {
        match decode_u32(bytes, p3 + 1) {
            Some((n, p)) => (Some(n), p),
            None => {
                proof {
                    assert forall|t: TransientValidationData| !starts_with_at(
                        bytes@,
                        pos as int,
                        enc_transient(t),
                    ) by {
                        if starts_with_at(bytes@, pos as int, enc_transient(t)) {
                            lemma_transient_pieces(bytes@, pos as int, t);
                            lemma_starts_with_index(
                                bytes@,
                                pos + 24,
                                enc_opt_u32(t.code_upgrade_allowed),
                                0,
                            );
                            assert(t.code_upgrade_allowed is Some);
                            assert(enc_transient(t).len() == 33);
                            assert(pos + 33 <= bytes@.len());
                        }
                    }
                }
                return None;
            },
        }
    };
    let (dmq_length, p5) = match decode_u32(bytes, p4) {
        Some(x) => x,
        None => {
            proof {
                assert forall|t: TransientValidationData| !starts_with_at(
                    bytes@,
                    pos as int,
                    enc_transient(t),
                ) by {
                    if starts_with_at(bytes@, pos as int, enc_transient(t)) {
                        lemma_transient_pieces(bytes@, pos as int, t);
                        lemma_starts_with_index(
                            bytes@,
                            pos + 24,
                            enc_opt_u32(t.code_upgrade_allowed),
                            0,
                        );
                        if marker == 0 {
                            assert(t.code_upgrade_allowed is None);
                            assert(enc_transient(t).len() == 29);
                        } else {
                            assert(t.code_upgrade_allowed is Some);
                            assert(enc_transient(t).len() == 33);
                        }
                    }
                }
            }
            return None;
        },
    };
    let t = TransientValidationData {
        max_code_size,
        max_head_data_size,
        balance,
        code_upgrade_allowed,
        dmq_length,
    };
    proof {
        crate::codec::lemma_le_bytes_len(t.balance as int, 16);
        assert(bytes@.subrange(pos as int, p5 as int) =~= enc_transient(t));
    }
    Some((t, p5))
}

/// The extra bytes an optional block number adds beyond its marker.
pub open spec fn enc_u32_opt_extra(o: Option<u32>) -> int {
    match o {
        Option::None => 0,
        Option::Some(_) => 4,
    }
}


/// A list of queue-chain heads fit for the wire: a count that fits the
/// prefix and fixed-width digests.
pub open spec fn mqc_list_wf(l: Seq<MqcHead>) -> bool {
    l.len() <= u32::MAX && forall|k: int| 0 <= k < l.len() ==> (#[trigger] l[k]).1.wf()
}

/// Well-formed queue-chain heads encode to 36 bytes each.
pub proof fn lemma_concat_enc_mqc_len(l: Seq<MqcHead>)
    requires
        forall|k: int| 0 <= k < l.len() ==> (#[trigger] l[k]).1.wf(),
    ensures
        concat_enc_mqc(l).len() == 36 * l.len(),
    decreases l.len(),
{
    if l.len() > 0 {
        assert(l[0].1.wf());
        assert(forall|k: int| 0 <= k < l.skip(1).len() ==> (#[trigger] l.skip(1)[k]).1.wf());
        lemma_concat_enc_mqc_len(l.skip(1));
    }
}

/// Two well-formed queue-chain-head lists of one length whose
/// concatenated encodings begin at the same place are equal entry by
/// entry.
pub proof fn lemma_mqc_align(s: Seq<u8>, pos: int, a: Seq<MqcHead>, b: Seq<MqcHead>)
    requires
        a.len() == b.len(),
        forall|k: int| 0 <= k < a.len() ==> (#[trigger] a[k]).1.wf(),
        forall|k: int| 0 <= k < b.len() ==> (#[trigger] b[k]).1.wf(),
        starts_with_at(s, pos, concat_enc_mqc(a)),
        starts_with_at(s, pos, concat_enc_mqc(b)),
    ensures
        forall|k: int|
            0 <= k < a.len() ==> (#[trigger] a[k]).0.0 == b[k].0.0 && a[k].1.0@ == b[k].1.0@,
    decreases a.len(),
{
    if a.len() > 0 {
        lemma_starts_with_concat(s, pos, enc_mqc_head(a[0]), concat_enc_mqc(a.skip(1)));
        lemma_starts_with_concat(s, pos, enc_mqc_head(b[0]), concat_enc_mqc(b.skip(1)));
        lemma_starts_with_concat(s, pos, enc_para_id(a[0].0), a[0].1.0@);
        lemma_starts_with_concat(s, pos, enc_para_id(b[0].0), b[0].1.0@);
        assert forall|i: int| 0 <= i < 4 implies enc_para_id(a[0].0)[i] == enc_para_id(b[0].0)[i]
            by {
            lemma_starts_with_index(s, pos, enc_para_id(a[0].0), i);
            lemma_starts_with_index(s, pos, enc_para_id(b[0].0), i);
        }
        assert(enc_u32(a[0].0.0) =~= enc_u32(b[0].0.0));
        lemma_enc_u32_injective(a[0].0.0, b[0].0.0);
        assert forall|i: int| 0 <= i < 32 implies a[0].1.0@[i] == b[0].1.0@[i] by {
            lemma_starts_with_index(s, pos + 4, a[0].1.0@, i);
            lemma_starts_with_index(s, pos + 4, b[0].1.0@, i);
        }
        assert(a[0].1.0@ =~= b[0].1.0@);
        lemma_mqc_align(s, pos + 36, a.skip(1), b.skip(1));
        assert forall|k: int| 0 <= k < a.len() implies (#[trigger] a[k]).0.0 == b[k].0.0
            && a[k].1.0@ == b[k].1.0@ by {
            if k > 0 {
                assert(a.skip(1)[k - 1] == a[k] && b.skip(1)[k - 1] == b[k]);
            }
        }
    }
}

/// Read a list of queue-chain heads: a compact count, then each head as
/// a para identifier and a 32-byte digest.
///
/// Fails exactly when no well-formed list's encoding begins there.
pub fn decode_mqc_list(bytes: &Vec<u8>, pos: usize) -> (r: Option<(Vec<MqcHead>, usize)>)
    ensures
        r matches Some(p) ==> pos <= p.1 <= bytes@.len() && mqc_list_wf(p.0@)
            && bytes@.subrange(pos as int, p.1 as int) == enc_mqc_list(p.0@),
        r is None ==> forall|l: Seq<MqcHead>|
            mqc_list_wf(l) ==> !starts_with_at(bytes@, pos as int, enc_mqc_list(l)),
{
    let (m, p1) = match crate::codec::decode_compact_u32(bytes, pos) {
        Some(x) => x,
        None => {
            proof {
                assert forall|l: Seq<MqcHead>| mqc_list_wf(l) implies !starts_with_at(
                    bytes@,
                    pos as int,
                    enc_mqc_list(l),
                ) by {
                    if starts_with_at(bytes@, pos as int, enc_mqc_list(l)) {
                        lemma_starts_with_concat(
                            bytes@,
                            pos as int,
                            crate::codec::enc_compact_u32(l.len() as u32),
                            concat_enc_mqc(l),
                        );
                    }
                }
            }
            return None;
        },
    };
    let mu = m as usize;
    if (bytes.len() - p1) / 36 < mu {
        proof {
            assert(starts_with_at(bytes@, pos as int, crate::codec::enc_compact_u32(m)));
            assert forall|l: Seq<MqcHead>| mqc_list_wf(l) implies !starts_with_at(
                bytes@,
                pos as int,
                enc_mqc_list(l),
            ) by {
                if starts_with_at(bytes@, pos as int, enc_mqc_list(l)) {
                    lemma_starts_with_concat(
                        bytes@,
                        pos as int,
                        crate::codec::enc_compact_u32(l.len() as u32),
                        concat_enc_mqc(l),
                    );
                    crate::codec::lemma_compact_prefix_secure(
                        bytes@,
                        pos as int,
                        l.len() as u32,
                        m,
                    );
                    assert(l.len() == m);
                    lemma_concat_enc_mqc_len(l);
                    assert(p1 + 36 * (m as int) <= bytes@.len());
                    assert((bytes@.len() - p1) / 36 >= m) by (nonlinear_arith)
                        requires
                            p1 + 36 * (m as int) <= bytes@.len(),
                    ;
                }
            }
        }
        return None;
    }
    proof {
        assert(36 * (mu as int) <= bytes@.len() - p1) by (nonlinear_arith)
            requires
                (bytes@.len() - p1) / 36 >= mu as int,
        ;
    }
    let mut acc: Vec<MqcHead> = Vec::new();
    let mut cur: usize = p1;
    let mut i: usize = 0;
    proof {
        assert(bytes@.subrange(p1 as int, p1 as int) =~= concat_enc_mqc(acc@));
    }
    while i < mu
        invariant
            mu == m,
            i <= mu,
            cur == p1 + 36 * i,
            p1 + 36 * (mu as int) <= bytes@.len(),
            acc@.len() == i,
            forall|k: int| 0 <= k < acc@.len() ==> (#[trigger] acc@[k]).1.wf(),
            bytes@.subrange(p1 as int, cur as int) == concat_enc_mqc(acc@),
        decreases mu - i,
    {
        proof {
            assert(cur + 36 <= p1 + 36 * (mu as int)) by (nonlinear_arith)
                requires
                    cur == p1 + 36 * (i as int) && i < mu,
            ;
        }
        let (para, c1) = match decode_para_id(bytes, cur) {
            Some(x) => x,
            None => {
                proof {
                    assert(false);
                }
                return None;
            },
        };
        let (hash, c2) = match decode_hash256(bytes, c1) {
            Some(x) => x,
            None => {
                proof {
                    assert(false);
                }
                return None;
            },
        };
        let ghost old_acc = acc@;
        acc.push((para, hash));
        proof {
            lemma_concat_enc_mqc_push(old_acc, (para, hash));
            assert(bytes@.subrange(cur as int, c2 as int) =~= enc_mqc_head((para, hash)));
            assert(bytes@.subrange(p1 as int, c2 as int) =~= bytes@.subrange(p1 as int, cur as int)
                + bytes@.subrange(cur as int, c2 as int));
        }
        cur = c2;
        i = i + 1;
    }
    proof {
        assert(starts_with_at(bytes@, pos as int, crate::codec::enc_compact_u32(m)));
        assert(acc@.len() == m);
        assert(starts_with_at(bytes@, p1 as int, concat_enc_mqc(acc@)));
        crate::codec::lemma_concat_starts_with(
            bytes@,
            pos as int,
            crate::codec::enc_compact_u32(m),
            concat_enc_mqc(acc@),
        );
        assert(bytes@.subrange(pos as int, cur as int) == enc_mqc_list(acc@));
    }
    Some((acc, cur))
}


/// Persisted validation data fit for the wire: lengths fit their
/// prefixes and digests have their width.
pub open spec fn pvd_enc_wf(d: PersistedValidationData) -> bool {
    d.parent_head.wf() && mqc_list_wf(d.hrmp_mqc_heads@) && d.dmq_mqc_head.wf()
}

/// A matched persisted-validation-data encoding places each field after
/// the encodings of the fields before it.
proof fn lemma_pvd_pieces(s: Seq<u8>, pos: int, d: PersistedValidationData)
    requires
        pvd_enc_wf(d),
        starts_with_at(s, pos, enc_pvd(d)),
    ensures
        starts_with_at(s, pos, enc_bytes(d.parent_head.0@)),
        starts_with_at(s, pos + enc_bytes(d.parent_head.0@).len(), enc_u32(d.block_number)),
        starts_with_at(
            s,
            pos + enc_bytes(d.parent_head.0@).len() + 4,
            enc_mqc_list(d.hrmp_mqc_heads@),
        ),
        starts_with_at(
            s,
            pos + enc_bytes(d.parent_head.0@).len() + 4 + enc_mqc_list(d.hrmp_mqc_heads@).len(),
            d.dmq_mqc_head.0@,
        ),
{
    let a = enc_bytes(d.parent_head.0@);
    let b = enc_u32(d.block_number);
    let c = enc_mqc_list(d.hrmp_mqc_heads@);
    let e = d.dmq_mqc_head.0@;
    lemma_starts_with_concat(s, pos, a + b + c, e);
    lemma_starts_with_concat(s, pos, a + b, c);
    lemma_starts_with_concat(s, pos, a, b);
}

/// Two well-formed persisted validation data whose encodings begin at
/// the same place are field-by-field equal, and encode to one length.
pub proof fn lemma_enc_pvd_prefix_secure(
    s: Seq<u8>,
    pos: int,
    a: PersistedValidationData,
    b: PersistedValidationData,
)
    requires
        pvd_enc_wf(a),
        pvd_enc_wf(b),
        starts_with_at(s, pos, enc_pvd(a)),
        starts_with_at(s, pos, enc_pvd(b)),
    ensures
        a.parent_head.0@ == b.parent_head.0@,
        a.block_number == b.block_number,
        a.hrmp_mqc_heads@.len() == b.hrmp_mqc_heads@.len(),
        forall|k: int|
            0 <= k < a.hrmp_mqc_heads@.len() ==> (#[trigger] a.hrmp_mqc_heads@[k]).0.0
                == b.hrmp_mqc_heads@[k].0.0 && a.hrmp_mqc_heads@[k].1.0@
                == b.hrmp_mqc_heads@[k].1.0@,
        a.dmq_mqc_head.0@ == b.dmq_mqc_head.0@,
        enc_pvd(a).len() == enc_pvd(b).len(),
{
    lemma_pvd_pieces(s, pos, a);
    lemma_pvd_pieces(s, pos, b);
    crate::codec::lemma_bytes_prefix_secure(s, pos, a.parent_head.0@, b.parent_head.0@);
    let q = pos + enc_bytes(a.parent_head.0@).len();
    assert forall|i: int| 0 <= i < 4 implies enc_u32(a.block_number)[i] == enc_u32(
        b.block_number,
    )[i] by {
        lemma_starts_with_index(s, q, enc_u32(a.block_number), i);
        lemma_starts_with_index(s, q, enc_u32(b.block_number), i);
    }
    assert(enc_u32(a.block_number) =~= enc_u32(b.block_number));
    lemma_enc_u32_injective(a.block_number, b.block_number);
    let la: u32 = a.hrmp_mqc_heads@.len() as u32;
    let lb: u32 = b.hrmp_mqc_heads@.len() as u32;
    lemma_starts_with_concat(
        s,
        q + 4,
        crate::codec::enc_compact_u32(la),
        concat_enc_mqc(a.hrmp_mqc_heads@),
    );
    lemma_starts_with_concat(
        s,
        q + 4,
        crate::codec::enc_compact_u32(lb),
        concat_enc_mqc(b.hrmp_mqc_heads@),
    );
    crate::codec::lemma_compact_prefix_secure(s, q + 4, la, lb);
    assert(a.hrmp_mqc_heads@.len() == b.hrmp_mqc_heads@.len());
    lemma_mqc_align(
        s,
        q + 4 + crate::codec::enc_compact_u32(la).len(),
        a.hrmp_mqc_heads@,
        b.hrmp_mqc_heads@,
    );
    lemma_concat_enc_mqc_len(a.hrmp_mqc_heads@);
    lemma_concat_enc_mqc_len(b.hrmp_mqc_heads@);
    let w = pos + enc_bytes(a.parent_head.0@).len() + 4 + enc_mqc_list(a.hrmp_mqc_heads@).len();
    assert forall|i: int| 0 <= i < 32 implies a.dmq_mqc_head.0@[i] == b.dmq_mqc_head.0@[i] by {
        lemma_starts_with_index(s, w, a.dmq_mqc_head.0@, i);
        lemma_starts_with_index(s, w, b.dmq_mqc_head.0@, i);
    }
    assert(a.dmq_mqc_head.0@ =~= b.dmq_mqc_head.0@);
}

/// Read persisted validation data.
///
/// Fails exactly when no well-formed persisted validation data's
/// encoding begins there.
pub fn decode_pvd(bytes: &Vec<u8>, pos: usize) -> (r: Option<(PersistedValidationData, usize)>)
    ensures
        r matches Some(p) ==> pos <= p.1 <= bytes@.len() && pvd_enc_wf(p.0)
            && bytes@.subrange(pos as int, p.1 as int) == enc_pvd(p.0),
        r is None ==> forall|d: PersistedValidationData|
            pvd_enc_wf(d) ==> !starts_with_at(bytes@, pos as int, enc_pvd(d)),
{
    let (head, p1) = match decode_bytes(bytes, pos) {
        Some(x) => x,
        None => {
            proof {
                assert forall|d: PersistedValidationData| pvd_enc_wf(d) implies !starts_with_at(
                    bytes@,
                    pos as int,
                    enc_pvd(d),
                ) by {
                    if starts_with_at(bytes@, pos as int, enc_pvd(d)) {
                        lemma_pvd_pieces(bytes@, pos as int, d);
                    }
                }
            }
            return None;
        },
    };
    let (block_number, p2) = match decode_u32(bytes, p1) {
        Some(x) => x,
        None => {
            proof {
                assert forall|d: PersistedValidationData| pvd_enc_wf(d) implies !starts_with_at(
                    bytes@,
                    pos as int,
                    enc_pvd(d),
                ) by {
                    if starts_with_at(bytes@, pos as int, enc_pvd(d)) {
                        lemma_pvd_pieces(bytes@, pos as int, d);
                        crate::codec::lemma_bytes_prefix_secure(
                            bytes@,
                            pos as int,
                            d.parent_head.0@,
                            head@,
                        );
                        assert(pos + enc_bytes(d.parent_head.0@).len() + 4 <= bytes@.len());
                    }
                }
            }
            return None;
        },
    };
    let (heads, p3) = match decode_mqc_list(bytes, p2) {
        Some(x) => x,
        None => {
            proof {
                assert forall|d: PersistedValidationData| pvd_enc_wf(d) implies !starts_with_at(
                    bytes@,
                    pos as int,
                    enc_pvd(d),
                ) by {
                    if starts_with_at(bytes@, pos as int, enc_pvd(d)) {
                        lemma_pvd_pieces(bytes@, pos as int, d);
                        crate::codec::lemma_bytes_prefix_secure(
                            bytes@,
                            pos as int,
                            d.parent_head.0@,
                            head@,
                        );
                        assert(starts_with_at(
                            bytes@,
                            p2 as int,
                            enc_mqc_list(d.hrmp_mqc_heads@),
                        ));
                    }
                }
            }
            return None;
        },
    };
    let (dmq, p4) = match decode_hash256(bytes, p3) {
        Some(x) => x,
        None => {
            proof {
                assert forall|d: PersistedValidationData| pvd_enc_wf(d) implies !starts_with_at(
                    bytes@,
                    pos as int,
                    enc_pvd(d),
                ) by {
                    if starts_with_at(bytes@, pos as int, enc_pvd(d)) {
                        lemma_pvd_pieces(bytes@, pos as int, d);
                        crate::codec::lemma_bytes_prefix_secure(
                            bytes@,
                            pos as int,
                            d.parent_head.0@,
                            head@,
                        );
                        let q = pos + enc_bytes(head@).len() + 4;
                        let la: u32 = d.hrmp_mqc_heads@.len() as u32;
                        lemma_starts_with_concat(
                            bytes@,
                            q,
                            crate::codec::enc_compact_u32(la),
                            concat_enc_mqc(d.hrmp_mqc_heads@),
                        );
                        lemma_starts_with_concat(
                            bytes@,
                            q,
                            crate::codec::enc_compact_u32(heads@.len() as u32),
                            concat_enc_mqc(heads@),
                        );
                        crate::codec::lemma_compact_prefix_secure(
                            bytes@,
                            q,
                            la,
                            heads@.len() as u32,
                        );
                        lemma_concat_enc_mqc_len(d.hrmp_mqc_heads@);
                        lemma_concat_enc_mqc_len(heads@);
                        assert(enc_mqc_list(d.hrmp_mqc_heads@).len() == enc_mqc_list(
                            heads@,
                        ).len());
                        assert(pos + enc_bytes(d.parent_head.0@).len() + 4 + enc_mqc_list(
                            d.hrmp_mqc_heads@,
                        ).len() + 32 <= bytes@.len());
                        assert(p3 + 32 <= bytes@.len());
                    }
                }
            }
            return None;
        },
    };
    let d = PersistedValidationData {
        parent_head: HeadData(head),
        block_number,
        hrmp_mqc_heads: heads,
        dmq_mqc_head: dmq,
    };
    proof {
        assert(bytes@.subrange(pos as int, p4 as int) =~= enc_pvd(d));
    }
    Some((d, p4))
}

/// Read validation data: the persisted part, then the transient part.
///
/// Fails exactly when no well-formed validation data's encoding begins
/// there.
pub fn decode_validation_data(bytes: &Vec<u8>, pos: usize) -> (r: Option<(ValidationData, usize)>)
    ensures
        r matches Some(p) ==> pos <= p.1 <= bytes@.len() && pvd_enc_wf(p.0.persisted)
            && bytes@.subrange(pos as int, p.1 as int) == enc_validation_data(p.0),
        r is None ==> forall|v: ValidationData|
            pvd_enc_wf(v.persisted) ==> !starts_with_at(bytes@, pos as int, enc_validation_data(v)),
{
    let (persisted, p1) = match decode_pvd(bytes, pos) {
        Some(x) => x,
        None => {
            proof {
                assert forall|v: ValidationData| pvd_enc_wf(v.persisted) implies !starts_with_at(
                    bytes@,
                    pos as int,
                    enc_validation_data(v),
                ) by {
                    if starts_with_at(bytes@, pos as int, enc_validation_data(v)) {
                        lemma_starts_with_concat(
                            bytes@,
                            pos as int,
                            enc_pvd(v.persisted),
                            enc_transient(v.transient),
                        );
                    }
                }
            }
            return None;
        },
    };
    let (transient, p2) = match decode_transient(bytes, p1) {
        Some(x) => x,
        None => {
            proof {
                assert forall|v: ValidationData| pvd_enc_wf(v.persisted) implies !starts_with_at(
                    bytes@,
                    pos as int,
                    enc_validation_data(v),
                ) by {
                    if starts_with_at(bytes@, pos as int, enc_validation_data(v)) {
                        lemma_starts_with_concat(
                            bytes@,
                            pos as int,
                            enc_pvd(v.persisted),
                            enc_transient(v.transient),
                        );
                        lemma_enc_pvd_prefix_secure(bytes@, pos as int, v.persisted, persisted);
                        assert(starts_with_at(bytes@, p1 as int, enc_transient(v.transient)));
                    }
                }
            }
            return None;
        },
    };
    let v = ValidationData { persisted, transient };
    proof {
        assert(bytes@.subrange(pos as int, p2 as int) =~= enc_validation_data(v));
    }
    Some((v, p2))
}


/// A list of byte messages fit for the wire: counts and lengths fit
/// their prefixes.
pub open spec fn bytes_list_wf(l: Seq<Vec<u8>>) -> bool {
    l.len() <= u32::MAX && forall|k: int| 0 <= k < l.len() ==> (#[trigger] l[k])@.len() <= u32::MAX
}

/// Matching a prefix of a longer message list pins the shared entries
/// down and leaves the rest of the longer list matched right after.
pub proof fn lemma_bytes_list_align(s: Seq<u8>, pos: int, a: Seq<Vec<u8>>, l: Seq<Vec<u8>>)
    requires
        a.len() <= l.len(),
        forall|k: int| 0 <= k < a.len() ==> (#[trigger] a[k])@.len() <= u32::MAX,
        forall|k: int| 0 <= k < l.len() ==> (#[trigger] l[k])@.len() <= u32::MAX,
        starts_with_at(s, pos, concat_enc_bytes(a)),
        starts_with_at(s, pos, concat_enc_bytes(l)),
    ensures
        forall|k: int| 0 <= k < a.len() ==> (#[trigger] a[k])@ == l[k]@,
        starts_with_at(s, pos + concat_enc_bytes(a).len(), concat_enc_bytes(l.skip(a.len() as int))),
    decreases a.len(),
{
    if a.len() == 0 {
        assert(l.skip(0) =~= l);
        assert(concat_enc_bytes(a).len() == 0);
    } else {
        lemma_starts_with_concat(s, pos, enc_bytes(a[0]@), concat_enc_bytes(a.skip(1)));
        lemma_starts_with_concat(s, pos, enc_bytes(l[0]@), concat_enc_bytes(l.skip(1)));
        crate::codec::lemma_bytes_prefix_secure(s, pos, a[0]@, l[0]@);
        assert(enc_bytes(a[0]@).len() == enc_bytes(l[0]@).len());
        lemma_bytes_list_align(s, pos + enc_bytes(a[0]@).len(), a.skip(1), l.skip(1));
        assert forall|k: int| 0 <= k < a.len() implies (#[trigger] a[k])@ == l[k]@ by {
            if k > 0 {
                assert(a.skip(1)[k - 1] == a[k] && l.skip(1)[k - 1] == l[k]);
            }
        }
        assert(l.skip(1).skip(a.len() - 1) =~= l.skip(a.len() as int));
        assert(concat_enc_bytes(a).len() == enc_bytes(a[0]@).len() + concat_enc_bytes(
            a.skip(1),
        ).len());
    }
}

/// When no byte message can be read where the next list entry should
/// stand, no well-formed message list matches the whole region.
/// The witness step of `lemma_no_bytes_list_here`: one matching list
/// would put its next entry exactly where nothing can be read.
#[verifier::rlimit(100)]
#[verifier::spinoff_prover]
proof fn lemma_no_bytes_list_witness(
    bytes: Seq<u8>,
    pos: int,
    p1: int,
    m: u32,
    acc: Seq<Vec<u8>>,
    cur: int,
    l: Seq<Vec<u8>>,
)
    requires
        starts_with_at(bytes, pos, crate::codec::enc_compact_u32(m)),
        p1 == pos + crate::codec::enc_compact_u32(m).len(),
        acc.len() < m,
        forall|k: int| 0 <= k < acc.len() ==> (#[trigger] acc[k])@.len() <= u32::MAX,
        p1 <= cur <= bytes.len(),
        bytes.subrange(p1, cur) == concat_enc_bytes(acc),
        bytes_list_wf(l),
        starts_with_at(bytes, pos, enc_bytes_list(l)),
    ensures
        exists|s: Seq<u8>| s.len() <= u32::MAX && starts_with_at(bytes, cur, enc_bytes(s)),
{
    lemma_starts_with_concat(
        bytes,
        pos,
        crate::codec::enc_compact_u32(l.len() as u32),
        concat_enc_bytes(l),
    );
    crate::codec::lemma_compact_prefix_secure(bytes, pos, l.len() as u32, m);
    assert(l.len() == m);
    lemma_bytes_list_align(bytes, p1, acc, l);
    let rest = l.skip(acc.len() as int);
    assert(starts_with_at(bytes, cur, concat_enc_bytes(rest)));
    assert(rest.len() > 0);
    assert(concat_enc_bytes(rest) == enc_bytes(rest[0]@) + concat_enc_bytes(rest.skip(1)));
    lemma_starts_with_concat(bytes, cur, enc_bytes(rest[0]@), concat_enc_bytes(rest.skip(1)));
    assert(rest[0] == l[acc.len() as int]);
    assert(rest[0]@.len() <= u32::MAX && starts_with_at(bytes, cur, enc_bytes(rest[0]@)));
}

#[verifier::spinoff_prover]
proof fn lemma_no_bytes_list_here(
    bytes: Seq<u8>,
    pos: int,
    p1: int,
    m: u32,
    acc: Seq<Vec<u8>>,
    cur: int,
)
    requires
        starts_with_at(bytes, pos, crate::codec::enc_compact_u32(m)),
        p1 == pos + crate::codec::enc_compact_u32(m).len(),
        acc.len() < m,
        forall|k: int| 0 <= k < acc.len() ==> (#[trigger] acc[k])@.len() <= u32::MAX,
        p1 <= cur <= bytes.len(),
        bytes.subrange(p1, cur) == concat_enc_bytes(acc),
        forall|s: Seq<u8>| s.len() <= u32::MAX ==> !starts_with_at(bytes, cur, enc_bytes(s)),
    ensures
        forall|l: Seq<Vec<u8>>| bytes_list_wf(l) ==> !starts_with_at(bytes, pos, enc_bytes_list(l)),
{
    assert forall|l: Seq<Vec<u8>>| bytes_list_wf(l) implies !starts_with_at(
        bytes,
        pos,
        enc_bytes_list(l),
    ) by {
        if starts_with_at(bytes, pos, enc_bytes_list(l)) {
            lemma_no_bytes_list_witness(bytes, pos, p1, m, acc, cur, l);
        }
    }
}

/// Read a list of byte messages: a compact count, then each message
/// length-prefixed.
///
/// Fails exactly when no well-formed list's encoding begins there.
#[verifier::rlimit(100)]
pub fn decode_bytes_list(bytes: &Vec<u8>, pos: usize) -> (r: Option<(Vec<Vec<u8>>, usize)>)
    ensures
        r matches Some(p) ==> pos <= p.1 <= bytes@.len() && bytes_list_wf(p.0@)
            && bytes@.subrange(pos as int, p.1 as int) == enc_bytes_list(p.0@),
        r is None ==> forall|l: Seq<Vec<u8>>|
            bytes_list_wf(l) ==> !starts_with_at(bytes@, pos as int, enc_bytes_list(l)),
{
    let (m, p1) = match crate::codec::decode_compact_u32(bytes, pos) {
        Some(x) => x,
        None => {
            proof {
                assert forall|l: Seq<Vec<u8>>| bytes_list_wf(l) implies !starts_with_at(
                    bytes@,
                    pos as int,
                    enc_bytes_list(l),
                ) by {
                    if starts_with_at(bytes@, pos as int, enc_bytes_list(l)) {
                        lemma_starts_with_concat(
                            bytes@,
                            pos as int,
                            crate::codec::enc_compact_u32(l.len() as u32),
                            concat_enc_bytes(l),
                        );
                    }
                }
            }
            return None;
        },
    };
    let mu = m as usize;
    let mut acc: Vec<Vec<u8>> = Vec::new();
    let mut cur: usize = p1;
    let mut i: usize = 0;
    proof {
        assert(bytes@.subrange(p1 as int, p1 as int) =~= concat_enc_bytes(acc@));
        assert(starts_with_at(bytes@, pos as int, crate::codec::enc_compact_u32(m)));
    }
    while i < mu
        invariant
            mu == m,
            i <= mu,
            p1 <= cur <= bytes@.len(),
            pos <= p1,
            acc@.len() == i,
            forall|k: int| 0 <= k < acc@.len() ==> (#[trigger] acc@[k])@.len() <= u32::MAX,
            bytes@.subrange(p1 as int, cur as int) == concat_enc_bytes(acc@),
            starts_with_at(bytes@, pos as int, crate::codec::enc_compact_u32(m)),
            p1 == pos + crate::codec::enc_compact_u32(m).len(),
        decreases mu - i,
    {
        let (msg, c1) = match decode_bytes(bytes, cur) {
            Some(x) => x,
            None => {
                proof {
                    lemma_no_bytes_list_here(bytes@, pos as int, p1 as int, m, acc@, cur as int);
                }
                return None;
            },
        };
        let ghost old_acc = acc@;
        acc.push(msg);
        proof {
            lemma_concat_enc_bytes_push(old_acc, acc@[i as int]);
            assert(bytes@.subrange(p1 as int, c1 as int) =~= bytes@.subrange(
                p1 as int,
                cur as int,
            ) + bytes@.subrange(cur as int, c1 as int));
        }
        cur = c1;
        i = i + 1;
    }
    proof {
        assert(acc@.len() == m);
        assert(starts_with_at(bytes@, p1 as int, concat_enc_bytes(acc@)));
        crate::codec::lemma_concat_starts_with(
            bytes@,
            pos as int,
            crate::codec::enc_compact_u32(m),
            concat_enc_bytes(acc@),
        );
        assert(bytes@.subrange(pos as int, cur as int) == enc_bytes_list(acc@));
    }
    Some((acc, cur))
}


/// A list of horizontal messages fit for the wire.
pub open spec fn hrmp_list_wf(l: Seq<OutboundHrmpMessage>) -> bool {
    l.len() <= u32::MAX && forall|k: int| 0 <= k < l.len() ==> (#[trigger] l[k]).wf()
}

/// A well-formed horizontal message encodes to at least five bytes, and
/// a match of it places its payload's encoding right after its recipient.
#[verifier::spinoff_prover]
proof fn lemma_hrmp_message_shape(bytes: Seq<u8>, pos: int, w: OutboundHrmpMessage)
    requires
        w.wf(),
        starts_with_at(bytes, pos, enc_hrmp_message(w)),
    ensures
        bytes.len() >= pos + 5,
        pos >= 0,
        starts_with_at(bytes, pos + 4, enc_bytes(w.data@)),
{
    crate::codec::lemma_compact_shape(w.data@.len() as u32);
    assert(enc_hrmp_message(w).len() >= 5);
    lemma_starts_with_concat(bytes, pos, enc_para_id(w.recipient), enc_bytes(w.data@));
}

/// Read one horizontal message: a recipient, then its payload.
///
/// Fails exactly when no well-formed message's encoding begins there.
#[verifier::rlimit(100)]
pub fn decode_hrmp_message(bytes: &Vec<u8>, pos: usize) -> (r: Option<(OutboundHrmpMessage, usize)>)
    ensures
        r matches Some(p) ==> pos <= p.1 <= bytes@.len() && p.0.wf()
            && bytes@.subrange(pos as int, p.1 as int) == enc_hrmp_message(p.0),
        r is None ==> forall|w: OutboundHrmpMessage|
            w.wf() ==> !starts_with_at(bytes@, pos as int, enc_hrmp_message(w)),
{
    let (recipient, p1) = match decode_para_id(bytes, pos) {
        Some(x) => x,
        None => {
            proof {
                assert forall|w: OutboundHrmpMessage| w.wf() implies !starts_with_at(
                    bytes@,
                    pos as int,
                    enc_hrmp_message(w),
                ) by {
                    if starts_with_at(bytes@, pos as int, enc_hrmp_message(w)) {
                        lemma_hrmp_message_shape(bytes@, pos as int, w);
                    }
                }
            }
            return None;
        },
    };
    let (data, p2) = match decode_bytes(bytes, p1) {
        Some(x) => x,
        None => {
            proof {
                assert forall|w: OutboundHrmpMessage| w.wf() implies !starts_with_at(
                    bytes@,
                    pos as int,
                    enc_hrmp_message(w),
                ) by {
                    if starts_with_at(bytes@, pos as int, enc_hrmp_message(w)) {
                        lemma_hrmp_message_shape(bytes@, pos as int, w);
                    }
                }
            }
            return None;
        },
    };
    let w = OutboundHrmpMessage { recipient, data };
    proof {
        assert(bytes@.subrange(pos as int, p2 as int) =~= enc_hrmp_message(w));
    }
    Some((w, p2))
}

/// Two well-formed horizontal messages whose encodings begin at the same
/// place carry the same recipient and payload.
pub proof fn lemma_hrmp_prefix_secure(
    s: Seq<u8>,
    pos: int,
    a: OutboundHrmpMessage,
    b: OutboundHrmpMessage,
)
    requires
        a.wf(),
        b.wf(),
        starts_with_at(s, pos, enc_hrmp_message(a)),
        starts_with_at(s, pos, enc_hrmp_message(b)),
    ensures
        a.recipient.0 == b.recipient.0,
        a.data@ == b.data@,
{
    lemma_starts_with_concat(s, pos, enc_para_id(a.recipient), enc_bytes(a.data@));
    lemma_starts_with_concat(s, pos, enc_para_id(b.recipient), enc_bytes(b.data@));
    assert forall|i: int| 0 <= i < 4 implies enc_para_id(a.recipient)[i] == enc_para_id(
        b.recipient,
    )[i] by {
        lemma_starts_with_index(s, pos, enc_para_id(a.recipient), i);
        lemma_starts_with_index(s, pos, enc_para_id(b.recipient), i);
    }
    assert(enc_u32(a.recipient.0) =~= enc_u32(b.recipient.0));
    lemma_enc_u32_injective(a.recipient.0, b.recipient.0);
    crate::codec::lemma_bytes_prefix_secure(s, pos + 4, a.data@, b.data@);
}

/// Matching a prefix of a longer horizontal-message list pins the shared
/// entries down and leaves the rest matched right after.
pub proof fn lemma_hrmp_list_align(
    s: Seq<u8>,
    pos: int,
    a: Seq<OutboundHrmpMessage>,
    l: Seq<OutboundHrmpMessage>,
)
    requires
        a.len() <= l.len(),
        forall|k: int| 0 <= k < a.len() ==> (#[trigger] a[k]).wf(),
        forall|k: int| 0 <= k < l.len() ==> (#[trigger] l[k]).wf(),
        starts_with_at(s, pos, concat_enc_hrmp(a)),
        starts_with_at(s, pos, concat_enc_hrmp(l)),
    ensures
        forall|k: int|
            0 <= k < a.len() ==> (#[trigger] a[k]).recipient.0 == l[k].recipient.0 && a[k].data@
                == l[k].data@,
        starts_with_at(s, pos + concat_enc_hrmp(a).len(), concat_enc_hrmp(l.skip(a.len() as int))),
    decreases a.len(),
{
    if a.len() == 0 {
        assert(l.skip(0) =~= l);
        assert(concat_enc_hrmp(a).len() == 0);
    } else {
        lemma_starts_with_concat(s, pos, enc_hrmp_message(a[0]), concat_enc_hrmp(a.skip(1)));
        lemma_starts_with_concat(s, pos, enc_hrmp_message(l[0]), concat_enc_hrmp(l.skip(1)));
        lemma_hrmp_prefix_secure(s, pos, a[0], l[0]);
        assert(enc_hrmp_message(a[0]).len() == enc_hrmp_message(l[0]).len());
        lemma_hrmp_list_align(s, pos + enc_hrmp_message(a[0]).len(), a.skip(1), l.skip(1));
        assert forall|k: int| 0 <= k < a.len() implies (#[trigger] a[k]).recipient.0
            == l[k].recipient.0 && a[k].data@ == l[k].data@ by {
            if k > 0 {
                assert(a.skip(1)[k - 1] == a[k] && l.skip(1)[k - 1] == l[k]);
            }
        }
        assert(l.skip(1).skip(a.len() - 1) =~= l.skip(a.len() as int));
        assert(concat_enc_hrmp(a).len() == enc_hrmp_message(a[0]).len() + concat_enc_hrmp(
            a.skip(1),
        ).len());
    }
}

/// The witness step of `lemma_no_hrmp_list_here`: one matching list
/// would put its next entry exactly where nothing can be read.
#[verifier::rlimit(100)]
#[verifier::spinoff_prover]
proof fn lemma_no_hrmp_list_witness(
    bytes: Seq<u8>,
    pos: int,
    p1: int,
    m: u32,
    acc: Seq<OutboundHrmpMessage>,
    cur: int,
    l: Seq<OutboundHrmpMessage>,
)
    requires
        starts_with_at(bytes, pos, crate::codec::enc_compact_u32(m)),
        p1 == pos + crate::codec::enc_compact_u32(m).len(),
        acc.len() < m,
        forall|k: int| 0 <= k < acc.len() ==> (#[trigger] acc[k]).wf(),
        p1 <= cur <= bytes.len(),
        bytes.subrange(p1, cur) == concat_enc_hrmp(acc),
        hrmp_list_wf(l),
        starts_with_at(bytes, pos, enc_hrmp_list(l)),
    ensures
        exists|w: OutboundHrmpMessage| w.wf() && starts_with_at(bytes, cur, enc_hrmp_message(w)),
{
    lemma_starts_with_concat(
        bytes,
        pos,
        crate::codec::enc_compact_u32(l.len() as u32),
        concat_enc_hrmp(l),
    );
    crate::codec::lemma_compact_prefix_secure(bytes, pos, l.len() as u32, m);
    assert(l.len() == m);
    lemma_hrmp_list_align(bytes, p1, acc, l);
    let rest = l.skip(acc.len() as int);
    assert(starts_with_at(bytes, cur, concat_enc_hrmp(rest)));
    assert(rest.len() > 0);
    assert(concat_enc_hrmp(rest) == enc_hrmp_message(rest[0]) + concat_enc_hrmp(rest.skip(1)));
    lemma_starts_with_concat(bytes, cur, enc_hrmp_message(rest[0]), concat_enc_hrmp(rest.skip(1)));
    assert(rest[0] == l[acc.len() as int]);
    assert(rest[0].wf() && starts_with_at(bytes, cur, enc_hrmp_message(rest[0])));
}

/// When no horizontal message can be read where the next list entry
/// should stand, no well-formed message list matches the whole region.
#[verifier::spinoff_prover]
proof fn lemma_no_hrmp_list_here(
    bytes: Seq<u8>,
    pos: int,
    p1: int,
    m: u32,
    acc: Seq<OutboundHrmpMessage>,
    cur: int,
)
    requires
        starts_with_at(bytes, pos, crate::codec::enc_compact_u32(m)),
        p1 == pos + crate::codec::enc_compact_u32(m).len(),
        acc.len() < m,
        forall|k: int| 0 <= k < acc.len() ==> (#[trigger] acc[k]).wf(),
        p1 <= cur <= bytes.len(),
        bytes.subrange(p1, cur) == concat_enc_hrmp(acc),
        forall|w: OutboundHrmpMessage| w.wf() ==> !starts_with_at(bytes, cur, enc_hrmp_message(w)),
    ensures
        forall|l: Seq<OutboundHrmpMessage>|
            hrmp_list_wf(l) ==> !starts_with_at(bytes, pos, enc_hrmp_list(l)),
{
    assert forall|l: Seq<OutboundHrmpMessage>| hrmp_list_wf(l) implies !starts_with_at(
        bytes,
        pos,
        enc_hrmp_list(l),
    ) by {
        if starts_with_at(bytes, pos, enc_hrmp_list(l)) {
            lemma_no_hrmp_list_witness(bytes, pos, p1, m, acc, cur, l);
        }
    }
}

/// Read a list of horizontal messages: a compact count, then each.
///
/// Fails exactly when no well-formed list's encoding begins there.
#[verifier::rlimit(100)]
pub fn decode_hrmp_list(bytes: &Vec<u8>, pos: usize) -> (r: Option<(
    Vec<OutboundHrmpMessage>,
    usize,
)>)
    ensures
        r matches Some(p) ==> pos <= p.1 <= bytes@.len() && hrmp_list_wf(p.0@)
            && bytes@.subrange(pos as int, p.1 as int) == enc_hrmp_list(p.0@),
        r is None ==> forall|l: Seq<OutboundHrmpMessage>|
            hrmp_list_wf(l) ==> !starts_with_at(bytes@, pos as int, enc_hrmp_list(l)),
{
    let (m, p1) = match crate::codec::decode_compact_u32(bytes, pos) {
        Some(x) => x,
        None => {
            proof {
                assert forall|l: Seq<OutboundHrmpMessage>| hrmp_list_wf(l) implies !starts_with_at(
                    bytes@,
                    pos as int,
                    enc_hrmp_list(l),
                ) by {
                    if starts_with_at(bytes@, pos as int, enc_hrmp_list(l)) {
                        lemma_starts_with_concat(
                            bytes@,
                            pos as int,
                            crate::codec::enc_compact_u32(l.len() as u32),
                            concat_enc_hrmp(l),
                        );
                    }
                }
            }
            return None;
        },
    };
    let mu = m as usize;
    let mut acc: Vec<OutboundHrmpMessage> = Vec::new();
    let mut cur: usize = p1;
    let mut i: usize = 0;
    proof {
        assert(bytes@.subrange(p1 as int, p1 as int) =~= concat_enc_hrmp(acc@));
        assert(starts_with_at(bytes@, pos as int, crate::codec::enc_compact_u32(m)));
    }
    while i < mu
        invariant
            mu == m,
            i <= mu,
            p1 <= cur <= bytes@.len(),
            pos <= p1,
            acc@.len() == i,
            forall|k: int| 0 <= k < acc@.len() ==> (#[trigger] acc@[k]).wf(),
            bytes@.subrange(p1 as int, cur as int) == concat_enc_hrmp(acc@),
            starts_with_at(bytes@, pos as int, crate::codec::enc_compact_u32(m)),
            p1 == pos + crate::codec::enc_compact_u32(m).len(),
        decreases mu - i,
    {
        let (msg, c1) = match decode_hrmp_message(bytes, cur) {
            Some(x) => x,
            None => {
                proof {
                    lemma_no_hrmp_list_here(bytes@, pos as int, p1 as int, m, acc@, cur as int);
                }
                return None;
            },
        };
        let ghost old_acc = acc@;
        acc.push(msg);
        proof {
            lemma_concat_enc_hrmp_push(old_acc, acc@[i as int]);
            assert(bytes@.subrange(p1 as int, c1 as int) =~= bytes@.subrange(
                p1 as int,
                cur as int,
            ) + bytes@.subrange(cur as int, c1 as int));
        }
        cur = c1;
        i = i + 1;
    }
    proof {
        assert(acc@.len() == m);
        assert(starts_with_at(bytes@, p1 as int, concat_enc_hrmp(acc@)));
        crate::codec::lemma_concat_starts_with(
            bytes@,
            pos as int,
            crate::codec::enc_compact_u32(m),
            concat_enc_hrmp(acc@),
        );
        assert(bytes@.subrange(pos as int, cur as int) == enc_hrmp_list(acc@));
    }
    Some((acc, cur))
}


/// Message lists with the same entries encode to the same bytes.
proof fn lemma_concat_enc_bytes_congruent(a: Seq<Vec<u8>>, l: Seq<Vec<u8>>)
    requires
        a.len() == l.len(),
        forall|k: int| 0 <= k < a.len() ==> (#[trigger] a[k])@ == l[k]@,
    ensures
        concat_enc_bytes(a) == concat_enc_bytes(l),
    decreases a.len(),
{
    if a.len() > 0 {
        assert(a[0]@ == l[0]@);
        assert(forall|k: int|
            0 <= k < a.skip(1).len() ==> (#[trigger] a.skip(1)[k])@ == l.skip(1)[k]@);
        lemma_concat_enc_bytes_congruent(a.skip(1), l.skip(1));
    }
}

/// Horizontal-message lists with the same entries encode to the same
/// bytes.
proof fn lemma_concat_enc_hrmp_congruent(a: Seq<OutboundHrmpMessage>, l: Seq<OutboundHrmpMessage>)
    requires
        a.len() == l.len(),
        forall|k: int|
            0 <= k < a.len() ==> (#[trigger] a[k]).recipient.0 == l[k].recipient.0 && a[k].data@
                == l[k].data@,
    ensures
        concat_enc_hrmp(a) == concat_enc_hrmp(l),
    decreases a.len(),
{
    if a.len() > 0 {
        assert(enc_hrmp_message(a[0]) == enc_hrmp_message(l[0]));
        assert(forall|k: int|
            0 <= k < a.skip(1).len() ==> (#[trigger] a.skip(1)[k]).recipient.0
                == l.skip(1)[k].recipient.0 && a.skip(1)[k].data@ == l.skip(1)[k].data@);
        lemma_concat_enc_hrmp_congruent(a.skip(1), l.skip(1));
    }
}

/// A matched commitments encoding places each field after the fields
/// before it.
#[verifier::spinoff_prover]
proof fn lemma_commitments_pieces(s: Seq<u8>, pos: int, c: CandidateCommitments)
    requires
        starts_with_at(s, pos, enc_commitments(c)),
    ensures
        starts_with_at(s, pos, enc_bytes_list(c.upward_messages@)),
        starts_with_at(
            s,
            pos + enc_bytes_list(c.upward_messages@).len(),
            enc_hrmp_list(c.horizontal_messages@),
        ),
        starts_with_at(
            s,
            pos + enc_bytes_list(c.upward_messages@).len() + enc_hrmp_list(
                c.horizontal_messages@,
            ).len(),
            c.erasure_root.0@,
        ),
        starts_with_at(
            s,
            pos + enc_bytes_list(c.upward_messages@).len() + enc_hrmp_list(
                c.horizontal_messages@,
            ).len() + c.erasure_root.0@.len(),
            enc_opt_code(c.new_validation_code),
        ),
        starts_with_at(
            s,
            pos + enc_bytes_list(c.upward_messages@).len() + enc_hrmp_list(
                c.horizontal_messages@,
            ).len() + c.erasure_root.0@.len() + enc_opt_code(c.new_validation_code).len(),
            enc_bytes(c.head_data.0@),
        ),
        starts_with_at(
            s,
            pos + enc_bytes_list(c.upward_messages@).len() + enc_hrmp_list(
                c.horizontal_messages@,
            ).len() + c.erasure_root.0@.len() + enc_opt_code(c.new_validation_code).len()
                + enc_bytes(c.head_data.0@).len(),
            enc_u32(c.processed_downward_messages) + enc_u32(c.hrmp_watermark),
        ),
{
    let a = enc_bytes_list(c.upward_messages@);
    let b = enc_hrmp_list(c.horizontal_messages@);
    let e3 = c.erasure_root.0@;
    let d = enc_opt_code(c.new_validation_code);
    let e = enc_bytes(c.head_data.0@);
    let f = enc_u32(c.processed_downward_messages);
    let g = enc_u32(c.hrmp_watermark);
    assert(enc_commitments(c) == a + b + e3 + d + e + f + g);
    assert(a + b + e3 + d + e + f + g =~= (a + b + e3 + d + e) + (f + g));
    lemma_starts_with_concat(s, pos, a + b + e3 + d + e, f + g);
    lemma_starts_with_concat(s, pos, a + b + e3 + d, e);
    lemma_starts_with_concat(s, pos, a + b + e3, d);
    lemma_starts_with_concat(s, pos, a + b, e3);
    lemma_starts_with_concat(s, pos, a, b);
}

/// Matching commitments agree with the byte-message list decoded at the
/// front: the candidate's first field spans exactly the decoded region.
#[verifier::spinoff_prover]
proof fn lemma_commitments_align_up(
    s: Seq<u8>,
    pos: int,
    p1: int,
    up: Seq<Vec<u8>>,
    c: CandidateCommitments,
)
    requires
        c.wf(),
        starts_with_at(s, pos, enc_commitments(c)),
        bytes_list_wf(up),
        0 <= pos <= p1 <= s.len(),
        s.subrange(pos, p1) == enc_bytes_list(up),
    ensures
        enc_bytes_list(c.upward_messages@).len() == p1 - pos,
        starts_with_at(s, p1, enc_hrmp_list(c.horizontal_messages@)),
{
    lemma_commitments_pieces(s, pos, c);
    let lw: u32 = c.upward_messages@.len() as u32;
    let uw: u32 = up.len() as u32;
    lemma_starts_with_concat(
        s,
        pos,
        crate::codec::enc_compact_u32(lw),
        concat_enc_bytes(c.upward_messages@),
    );
    lemma_starts_with_concat(s, pos, crate::codec::enc_compact_u32(uw), concat_enc_bytes(up));
    crate::codec::lemma_compact_prefix_secure(s, pos, lw, uw);
    lemma_bytes_list_align(
        s,
        pos + crate::codec::enc_compact_u32(lw).len(),
        c.upward_messages@,
        up,
    );
    lemma_concat_enc_bytes_congruent(c.upward_messages@, up);
    assert(enc_bytes_list(c.upward_messages@) == enc_bytes_list(up));
}

/// Matching commitments agree with the two message lists decoded at the
/// front.
#[verifier::spinoff_prover]
proof fn lemma_commitments_align_hz(
    s: Seq<u8>,
    pos: int,
    p1: int,
    p2: int,
    up: Seq<Vec<u8>>,
    hz: Seq<OutboundHrmpMessage>,
    c: CandidateCommitments,
)
    requires
        c.wf(),
        starts_with_at(s, pos, enc_commitments(c)),
        bytes_list_wf(up),
        hrmp_list_wf(hz),
        0 <= pos <= p1 <= p2 <= s.len(),
        s.subrange(pos, p1) == enc_bytes_list(up),
        s.subrange(p1, p2) == enc_hrmp_list(hz),
    ensures
        enc_bytes_list(c.upward_messages@).len() + enc_hrmp_list(c.horizontal_messages@).len()
            == p2 - pos,
        starts_with_at(s, p2, c.erasure_root.0@),
        starts_with_at(s, p2 + 32, enc_opt_code(c.new_validation_code)),
{
    lemma_commitments_pieces(s, pos, c);
    lemma_commitments_align_up(s, pos, p1, up, c);
    let lw: u32 = c.horizontal_messages@.len() as u32;
    let hw: u32 = hz.len() as u32;
    lemma_starts_with_concat(
        s,
        p1,
        crate::codec::enc_compact_u32(lw),
        concat_enc_hrmp(c.horizontal_messages@),
    );
    lemma_starts_with_concat(s, p1, crate::codec::enc_compact_u32(hw), concat_enc_hrmp(hz));
    crate::codec::lemma_compact_prefix_secure(s, p1, lw, hw);
    lemma_hrmp_list_align(
        s,
        p1 + crate::codec::enc_compact_u32(lw).len(),
        c.horizontal_messages@,
        hz,
    );
    lemma_concat_enc_hrmp_congruent(c.horizontal_messages@, hz);
    assert(enc_hrmp_list(c.horizontal_messages@) == enc_hrmp_list(hz));
    assert(c.erasure_root.0@.len() == 32);
}

/// Matching commitments agree with everything decoded through the
/// optional code: the head-data field starts right after.
#[verifier::spinoff_prover]
#[verifier::rlimit(100)]
proof fn lemma_commitments_align_code(
    s: Seq<u8>,
    pos: int,
    p1: int,
    p2: int,
    p4: int,
    up: Seq<Vec<u8>>,
    hz: Seq<OutboundHrmpMessage>,
    code: Option<Vec<u8>>,
    c: CandidateCommitments,
)
    requires
        c.wf(),
        starts_with_at(s, pos, enc_commitments(c)),
        bytes_list_wf(up),
        hrmp_list_wf(hz),
        0 <= pos <= p1 <= p2 <= s.len(),
        p2 + 33 <= p4 <= s.len() || p2 + 33 == p4 + 32,
        s.subrange(pos, p1) == enc_bytes_list(up),
        s.subrange(p1, p2) == enc_hrmp_list(hz),
        (code matches Some(v) ==> v@.len() <= u32::MAX && p2 + 33 <= p4 && s.subrange(p2 + 32, p4)
            == seq![1u8] + enc_bytes(v@)),
        (code is None ==> p4 == p2 + 33 && s.subrange(p2 + 32, p4) == seq![0u8]),
    ensures
        (c.new_validation_code is Some <==> code is Some),
        enc_bytes_list(c.upward_messages@).len() + enc_hrmp_list(c.horizontal_messages@).len()
            == p2 - pos,
        enc_opt_code(c.new_validation_code).len() == p4 - (p2 + 32),
        starts_with_at(s, p4, enc_bytes(c.head_data.0@)),
{
    lemma_commitments_align_hz(s, pos, p1, p2, up, hz, c);
    lemma_commitments_pieces(s, pos, c);
    assert(starts_with_at(s, p2 + 32, enc_opt_code(c.new_validation_code)));
    crate::codec::lemma_starts_with_index(s, p2 + 32, enc_opt_code(c.new_validation_code), 0);
    match code {
        Option::None => {
            assert(s[p2 + 32] == 0u8);
            assert(c.new_validation_code is None);
        },
        Option::Some(v) => {
            assert(s[p2 + 32] == 1u8);
            assert(c.new_validation_code is Some);
            let w = c.new_validation_code->0;
            assert(enc_opt_code(c.new_validation_code) == seq![1u8] + enc_bytes(w.0@));
            lemma_starts_with_concat(s, p2 + 32, seq![1u8], enc_bytes(w.0@));
            assert(starts_with_at(s, p2 + 33, enc_bytes(v@))) by {
                assert(s.subrange(p2 + 32, p4) == seq![1u8] + enc_bytes(v@));
                lemma_starts_with_concat(s, p2 + 32, seq![1u8], enc_bytes(v@));
            }
            crate::codec::lemma_bytes_prefix_secure(s, p2 + 33, w.0@, v@);
        },
    }
}


/// Matching commitments agree with everything decoded through the
/// head-data: the two counters stand last.
#[verifier::spinoff_prover]
#[verifier::rlimit(100)]
proof fn lemma_commitments_align_head(
    s: Seq<u8>,
    pos: int,
    p1: int,
    p2: int,
    p4: int,
    p5: int,
    up: Seq<Vec<u8>>,
    hz: Seq<OutboundHrmpMessage>,
    code: Option<Vec<u8>>,
    head: Seq<u8>,
    c: CandidateCommitments,
)
    requires
        c.wf(),
        starts_with_at(s, pos, enc_commitments(c)),
        bytes_list_wf(up),
        hrmp_list_wf(hz),
        0 <= pos <= p1 <= p2 <= s.len(),
        p2 + 33 <= p4 <= p5 <= s.len(),
        s.subrange(pos, p1) == enc_bytes_list(up),
        s.subrange(p1, p2) == enc_hrmp_list(hz),
        (code matches Some(v) ==> v@.len() <= u32::MAX && s.subrange(p2 + 32, p4) == seq![1u8]
            + enc_bytes(v@)),
        (code is None ==> p4 == p2 + 33 && s.subrange(p2 + 32, p4) == seq![0u8]),
        head.len() <= u32::MAX,
        s.subrange(p4, p5) == enc_bytes(head),
    ensures
        starts_with_at(s, p5, enc_u32(c.processed_downward_messages)),
        starts_with_at(s, p5 + 4, enc_u32(c.hrmp_watermark)),
{
    lemma_commitments_align_code(s, pos, p1, p2, p4, up, hz, code, c);
    assert(starts_with_at(s, p4, enc_bytes(c.head_data.0@)));
    crate::codec::lemma_bytes_prefix_secure(s, p4, c.head_data.0@, head);
    assert(enc_bytes(c.head_data.0@).len() == p5 - p4);
    lemma_commitments_pieces(s, pos, c);
    let fg = enc_u32(c.processed_downward_messages) + enc_u32(c.hrmp_watermark);
    assert(starts_with_at(s, p5, fg));
    lemma_starts_with_concat(
        s,
        p5,
        enc_u32(c.processed_downward_messages),
        enc_u32(c.hrmp_watermark),
    );
}

/// No commitments match where no byte-message list can be read.
#[verifier::spinoff_prover]
proof fn lemma_no_commitments_up(bytes: Seq<u8>, pos: int)
    requires
        forall|l: Seq<Vec<u8>>| bytes_list_wf(l) ==> !starts_with_at(bytes, pos, enc_bytes_list(l)),
    ensures
        forall|c: CandidateCommitments| c.wf() ==> !starts_with_at(bytes, pos, enc_commitments(c)),
{
    assert forall|c: CandidateCommitments| c.wf() implies !starts_with_at(
        bytes,
        pos,
        enc_commitments(c),
    ) by {
        if starts_with_at(bytes, pos, enc_commitments(c)) {
            lemma_commitments_pieces(bytes, pos, c);
            assert(bytes_list_wf(c.upward_messages@));
        }
    }
}

/// No commitments match where no horizontal-message list follows the
/// byte messages.
#[verifier::spinoff_prover]
proof fn lemma_no_commitments_hz(bytes: Seq<u8>, pos: int, p1: int, up: Seq<Vec<u8>>)
    requires
        bytes_list_wf(up),
        0 <= pos <= p1 <= bytes.len(),
        bytes.subrange(pos, p1) == enc_bytes_list(up),
        forall|l: Seq<OutboundHrmpMessage>|
            hrmp_list_wf(l) ==> !starts_with_at(bytes, p1, enc_hrmp_list(l)),
    ensures
        forall|c: CandidateCommitments| c.wf() ==> !starts_with_at(bytes, pos, enc_commitments(c)),
{
    assert forall|c: CandidateCommitments| c.wf() implies !starts_with_at(
        bytes,
        pos,
        enc_commitments(c),
    ) by {
        if starts_with_at(bytes, pos, enc_commitments(c)) {
            lemma_commitments_align_up(bytes, pos, p1, up, c);
            assert(hrmp_list_wf(c.horizontal_messages@));
        }
    }
}

/// No commitments match when the region after the message lists is too
/// short for the digest, the marker, or the counters, or carries an
/// unknown marker.
#[verifier::spinoff_prover]
#[verifier::rlimit(100)]
proof fn lemma_no_commitments_middle(
    bytes: Seq<u8>,
    pos: int,
    p1: int,
    p2: int,
    up: Seq<Vec<u8>>,
    hz: Seq<OutboundHrmpMessage>,
)
    requires
        bytes_list_wf(up),
        hrmp_list_wf(hz),
        0 <= pos <= p1 <= p2 <= bytes.len(),
        bytes.subrange(pos, p1) == enc_bytes_list(up),
        bytes.subrange(p1, p2) == enc_hrmp_list(hz),
        bytes.len() < p2 + 33 || (bytes[p2 + 32] != 0 && bytes[p2 + 32] != 1),
    ensures
        forall|c: CandidateCommitments| c.wf() ==> !starts_with_at(bytes, pos, enc_commitments(c)),
{
    assert forall|c: CandidateCommitments| c.wf() implies !starts_with_at(
        bytes,
        pos,
        enc_commitments(c),
    ) by {
        if starts_with_at(bytes, pos, enc_commitments(c)) {
            lemma_commitments_align_hz(bytes, pos, p1, p2, up, hz, c);
            crate::codec::lemma_starts_with_index(
                bytes,
                p2 + 32,
                enc_opt_code(c.new_validation_code),
                0,
            );
        }
    }
}

/// No commitments match when the marker announces a code but no byte
/// string can be read after it.
#[verifier::spinoff_prover]
#[verifier::rlimit(100)]
proof fn lemma_no_commitments_code(
    bytes: Seq<u8>,
    pos: int,
    p1: int,
    p2: int,
    up: Seq<Vec<u8>>,
    hz: Seq<OutboundHrmpMessage>,
)
    requires
        bytes_list_wf(up),
        hrmp_list_wf(hz),
        0 <= pos <= p1 <= p2 <= bytes.len(),
        p2 + 33 <= bytes.len(),
        bytes.subrange(pos, p1) == enc_bytes_list(up),
        bytes.subrange(p1, p2) == enc_hrmp_list(hz),
        bytes[p2 + 32] == 1,
        forall|s: Seq<u8>| s.len() <= u32::MAX ==> !starts_with_at(bytes, p2 + 33, enc_bytes(s)),
    ensures
        forall|c: CandidateCommitments| c.wf() ==> !starts_with_at(bytes, pos, enc_commitments(c)),
{
    assert forall|c: CandidateCommitments| c.wf() implies !starts_with_at(
        bytes,
        pos,
        enc_commitments(c),
    ) by {
        if starts_with_at(bytes, pos, enc_commitments(c)) {
            lemma_commitments_align_hz(bytes, pos, p1, p2, up, hz, c);
            crate::codec::lemma_starts_with_index(
                bytes,
                p2 + 32,
                enc_opt_code(c.new_validation_code),
                0,
            );
            assert(c.new_validation_code is Some);
            let w = c.new_validation_code->0;
            assert(enc_opt_code(c.new_validation_code) == seq![1u8] + enc_bytes(w.0@));
            lemma_starts_with_concat(bytes, p2 + 32, seq![1u8], enc_bytes(w.0@));
            assert(w.0@.len() <= u32::MAX);
            assert(starts_with_at(bytes, p2 + 33, enc_bytes(w.0@)));
        }
    }
}

/// No commitments match when no head-data can be read after the code.
#[verifier::spinoff_prover]
#[verifier::rlimit(100)]
proof fn lemma_no_commitments_head(
    bytes: Seq<u8>,
    pos: int,
    p1: int,
    p2: int,
    p4: int,
    up: Seq<Vec<u8>>,
    hz: Seq<OutboundHrmpMessage>,
    code: Option<Vec<u8>>,
)
    requires
        bytes_list_wf(up),
        hrmp_list_wf(hz),
        0 <= pos <= p1 <= p2 <= bytes.len(),
        p2 + 33 <= p4 <= bytes.len(),
        bytes.subrange(pos, p1) == enc_bytes_list(up),
        bytes.subrange(p1, p2) == enc_hrmp_list(hz),
        (code matches Some(v) ==> v@.len() <= u32::MAX && bytes.subrange(p2 + 32, p4) == seq![1u8]
            + enc_bytes(v@)),
        (code is None ==> p4 == p2 + 33 && bytes.subrange(p2 + 32, p4) == seq![0u8]),
        forall|s: Seq<u8>| s.len() <= u32::MAX ==> !starts_with_at(bytes, p4, enc_bytes(s)),
    ensures
        forall|c: CandidateCommitments| c.wf() ==> !starts_with_at(bytes, pos, enc_commitments(c)),
{
    assert forall|c: CandidateCommitments| c.wf() implies !starts_with_at(
        bytes,
        pos,
        enc_commitments(c),
    ) by {
        if starts_with_at(bytes, pos, enc_commitments(c)) {
            lemma_commitments_align_code(bytes, pos, p1, p2, p4, up, hz, code, c);
            assert(c.head_data.0@.len() <= u32::MAX);
            assert(starts_with_at(bytes, p4, enc_bytes(c.head_data.0@)));
        }
    }
}

/// No commitments match when fewer than eight bytes remain for the two
/// counters after the head-data.
#[verifier::spinoff_prover]
#[verifier::rlimit(100)]
proof fn lemma_no_commitments_counters(
    bytes: Seq<u8>,
    pos: int,
    p1: int,
    p2: int,
    p4: int,
    p5: int,
    up: Seq<Vec<u8>>,
    hz: Seq<OutboundHrmpMessage>,
    code: Option<Vec<u8>>,
    head: Seq<u8>,
)
    requires
        bytes_list_wf(up),
        hrmp_list_wf(hz),
        0 <= pos <= p1 <= p2 <= bytes.len(),
        p2 + 33 <= p4 <= p5 <= bytes.len(),
        bytes.subrange(pos, p1) == enc_bytes_list(up),
        bytes.subrange(p1, p2) == enc_hrmp_list(hz),
        (code matches Some(v) ==> v@.len() <= u32::MAX && bytes.subrange(p2 + 32, p4) == seq![1u8]
            + enc_bytes(v@)),
        (code is None ==> p4 == p2 + 33 && bytes.subrange(p2 + 32, p4) == seq![0u8]),
        head.len() <= u32::MAX,
        bytes.subrange(p4, p5) == enc_bytes(head),
        bytes.len() < p5 + 8,
    ensures
        forall|c: CandidateCommitments| c.wf() ==> !starts_with_at(bytes, pos, enc_commitments(c)),
{
    assert forall|c: CandidateCommitments| c.wf() implies !starts_with_at(
        bytes,
        pos,
        enc_commitments(c),
    ) by {
        if starts_with_at(bytes, pos, enc_commitments(c)) {
            lemma_commitments_align_head(bytes, pos, p1, p2, p4, p5, up, hz, code, head, c);
            assert(p5 + 8 <= bytes.len());
        }
    }
}

/// The decoded fields reassemble into commitments whose encoding is
/// exactly the bytes consumed.
#[verifier::spinoff_prover]
#[verifier::rlimit(100)]
proof fn lemma_commitments_sound(
    bytes: Seq<u8>,
    pos: int,
    p1: int,
    p2: int,
    p3: int,
    p4: int,
    p5: int,
    p6: int,
    p7: int,
    c: CandidateCommitments,
)
    requires
        0 <= pos <= p1 <= p2 <= p3 <= p4 <= p5 <= p6 <= p7 <= bytes.len(),
        bytes.subrange(pos, p1) == enc_bytes_list(c.upward_messages@),
        bytes.subrange(p1, p2) == enc_hrmp_list(c.horizontal_messages@),
        bytes.subrange(p2, p3) == c.erasure_root.0@,
        bytes.subrange(p3, p4) == enc_opt_code(c.new_validation_code),
        bytes.subrange(p4, p5) == enc_bytes(c.head_data.0@),
        bytes.subrange(p5, p6) == enc_u32(c.processed_downward_messages),
        bytes.subrange(p6, p7) == enc_u32(c.hrmp_watermark),
    ensures
        bytes.subrange(pos, p7) == enc_commitments(c),
{
    assert(bytes.subrange(pos, p7) =~= enc_commitments(c));
}

/// Read candidate commitments.
///
/// Fails exactly when no well-formed commitments' encoding begins there.
#[verifier::spinoff_prover]
#[verifier::rlimit(100)]
pub fn decode_commitments(bytes: &Vec<u8>, pos: usize) -> (r: Option<(CandidateCommitments, usize)>)
    ensures
        r matches Some(p) ==> pos <= p.1 <= bytes@.len() && p.0.wf()
            && bytes@.subrange(pos as int, p.1 as int) == enc_commitments(p.0),
        r is None ==> forall|c: CandidateCommitments|
            c.wf() ==> !starts_with_at(bytes@, pos as int, enc_commitments(c)),
{
    let (up, p1) = match decode_bytes_list(bytes, pos) {
        Some(x) => x,
        None => {
            proof {
                lemma_no_commitments_up(bytes@, pos as int);
            }
            return None;
        },
    };
    let (hz, p2) = match decode_hrmp_list(bytes, p1) {
        Some(x) => x,
        None => {
            proof {
                lemma_no_commitments_hz(bytes@, pos as int, p1 as int, up@);
            }
            return None;
        },
    };
    let (root, p3) = match decode_hash256(bytes, p2) {
        Some(x) => x,
        None => {
            proof {
                lemma_no_commitments_middle(bytes@, pos as int, p1 as int, p2 as int, up@, hz@);
            }
            return None;
        },
    };
    if p3 >= bytes.len() {
        proof {
            lemma_no_commitments_middle(bytes@, pos as int, p1 as int, p2 as int, up@, hz@);
        }
        return None;
    }
    let marker = bytes[p3];
    if marker != 0 && marker != 1 {
        proof {
            lemma_no_commitments_middle(bytes@, pos as int, p1 as int, p2 as int, up@, hz@);
        }
        return None;
    }
    let (code, p4) = if marker == 0 {
        (None, p3 + 1)
    } else {
        match decode_bytes(bytes, p3 + 1) {
            Some((v, p)) => (Some(v), p),
            None => {
                proof {
                    lemma_no_commitments_code(bytes@, pos as int, p1 as int, p2 as int, up@, hz@);
                }
                return None;
            },
        }
    };
    proof {
        if marker == 0 {
            assert(bytes@.subrange(p3 as int, p4 as int) =~= seq![0u8]);
        } else {
            let v = code->0;
            assert(bytes@.subrange(p3 + 1, p4 as int) == enc_bytes(v@));
            assert(bytes@.subrange(p3 as int, p4 as int) =~= seq![1u8] + enc_bytes(v@));
        }
    }
    let (head, p5) = match decode_bytes(bytes, p4) {
        Some(x) => x,
        None => {
            proof {
                lemma_no_commitments_head(
                    bytes@,
                    pos as int,
                    p1 as int,
                    p2 as int,
                    p4 as int,
                    up@,
                    hz@,
                    code@,
                );
            }
            return None;
        },
    };
    let (processed_downward_messages, p6) = match decode_u32(bytes, p5) {
        Some(x) => x,
        None => {
            proof {
                lemma_no_commitments_counters(
                    bytes@,
                    pos as int,
                    p1 as int,
                    p2 as int,
                    p4 as int,
                    p5 as int,
                    up@,
                    hz@,
                    code@,
                    head@,
                );
            }
            return None;
        },
    };
    let (hrmp_watermark, p7) = match decode_u32(bytes, p6) {
        Some(x) => x,
        None => {
            proof {
                lemma_no_commitments_counters(
                    bytes@,
                    pos as int,
                    p1 as int,
                    p2 as int,
                    p4 as int,
                    p5 as int,
                    up@,
                    hz@,
                    code@,
                    head@,
                );
            }
            return None;
        },
    };
    let c = CandidateCommitments {
        upward_messages: up,
        horizontal_messages: hz,
        erasure_root: root,
        new_validation_code: match code {
            Some(v) => Some(ValidationCode(v)),
            None => None,
        },
        head_data: HeadData(head),
        processed_downward_messages,
        hrmp_watermark,
    };
    proof {
        lemma_commitments_sound(
            bytes@,
            pos as int,
            p1 as int,
            p2 as int,
            p3 as int,
            p4 as int,
            p5 as int,
            p6 as int,
            p7 as int,
            c,
        );
    }
    Some((c, p7))
}


/// Read a committed candidate receipt: a descriptor, then the full
/// commitments.
///
/// Fails exactly when no well-formed committed receipt's encoding begins
/// there.
#[verifier::spinoff_prover]
#[verifier::rlimit(100)]
pub fn decode_committed(bytes: &Vec<u8>, pos: usize) -> (r: Option<(
    CommittedCandidateReceipt,
    usize,
)>)
    ensures
        r matches Some(p) ==> pos <= p.1 <= bytes@.len() && p.0.wf()
            && bytes@.subrange(pos as int, p.1 as int) == enc_committed(p.0),
        r is None ==> forall|c: CommittedCandidateReceipt|
            c.wf() ==> !starts_with_at(bytes@, pos as int, enc_committed(c)),
{
    let (descriptor, p1) = match decode_descriptor(bytes, pos) {
        Some(x) => x,
        None => {
            proof {
                assert forall|c: CommittedCandidateReceipt| c.wf() implies !starts_with_at(
                    bytes@,
                    pos as int,
                    enc_committed(c),
                ) by {
                    if starts_with_at(bytes@, pos as int, enc_committed(c)) {
                        lemma_starts_with_concat(
                            bytes@,
                            pos as int,
                            enc_descriptor(c.descriptor),
                            enc_commitments(c.commitments),
                        );
                        lemma_enc_descriptor_len(c.descriptor);
                        assert(pos + 196 <= bytes@.len());
                    }
                }
            }
            return None;
        },
    };
    let (commitments, p2) = match decode_commitments(bytes, p1) {
        Some(x) => x,
        None => {
            proof {
                assert forall|c: CommittedCandidateReceipt| c.wf() implies !starts_with_at(
                    bytes@,
                    pos as int,
                    enc_committed(c),
                ) by {
                    if starts_with_at(bytes@, pos as int, enc_committed(c)) {
                        lemma_starts_with_concat(
                            bytes@,
                            pos as int,
                            enc_descriptor(c.descriptor),
                            enc_commitments(c.commitments),
                        );
                        lemma_enc_descriptor_len(c.descriptor);
                        assert(starts_with_at(bytes@, p1 as int, enc_commitments(c.commitments)));
                    }
                }
            }
            return None;
        },
    };
    let c = CommittedCandidateReceipt { descriptor, commitments };
    proof {
        assert(bytes@.subrange(pos as int, p2 as int) =~= enc_committed(c));
    }
    Some((c, p2))
}

/// Law: two well-formed committed receipts whose encodings begin at the
/// same place in the same byte string carry the same descriptor — the
/// committed wire form is prefix-unambiguous down to its descriptor.
pub proof fn lemma_enc_committed_prefix_secure(
    s: Seq<u8>,
    pos: int,
    a: CommittedCandidateReceipt,
    b: CommittedCandidateReceipt,
)
    requires
        a.wf(),
        b.wf(),
        starts_with_at(s, pos, enc_committed(a)),
        starts_with_at(s, pos, enc_committed(b)),
    ensures
        eq_descriptor(a.descriptor, b.descriptor),
{
    lemma_starts_with_concat(
        s,
        pos,
        enc_descriptor(a.descriptor),
        enc_commitments(a.commitments),
    );
    lemma_starts_with_concat(
        s,
        pos,
        enc_descriptor(b.descriptor),
        enc_commitments(b.commitments),
    );
    lemma_enc_descriptor_prefix_secure(s, pos, a.descriptor, b.descriptor);
}


/// The optional code of commitments, as the plain byte vector its wire
/// marker announces.
pub open spec fn commitments_code_bytes(c: CandidateCommitments) -> Option<Vec<u8>> {
    match c.new_validation_code {
        Option::Some(v) => Some(v.0),
        Option::None => None,
    }
}

/// Law: two well-formed commitments whose encodings begin at the same
/// place encode to the same length — the commitments wire form is
/// prefix-unambiguous in extent.
#[verifier::spinoff_prover]
#[verifier::rlimit(100)]
pub proof fn lemma_enc_commitments_prefix_secure(
    s: Seq<u8>,
    pos: int,
    a: CandidateCommitments,
    b: CandidateCommitments,
)
    requires
        a.wf(),
        b.wf(),
        starts_with_at(s, pos, enc_commitments(a)),
        starts_with_at(s, pos, enc_commitments(b)),
    ensures
        enc_commitments(a).len() == enc_commitments(b).len(),
{
    lemma_commitments_pieces(s, pos, b);
    let p1 = pos + enc_bytes_list(b.upward_messages@).len();
    let p2 = p1 + enc_hrmp_list(b.horizontal_messages@).len();
    let p4 = p2 + 32 + enc_opt_code(b.new_validation_code).len();
    let p5 = p4 + enc_bytes(b.head_data.0@).len();
    assert(s.subrange(pos, p1) == enc_bytes_list(b.upward_messages@));
    assert(s.subrange(p1, p2) == enc_hrmp_list(b.horizontal_messages@));
    assert(s.subrange(p2 + 32, p4) == enc_opt_code(b.new_validation_code));
    assert(s.subrange(p4, p5) == enc_bytes(b.head_data.0@));
    if b.new_validation_code is Some {
        let v = b.new_validation_code->0;
        assert(enc_opt_code(b.new_validation_code) == seq![1u8] + enc_bytes(v.0@));
    }
    lemma_commitments_align_head(
        s,
        pos,
        p1,
        p2,
        p4,
        p5,
        b.upward_messages@,
        b.horizontal_messages@,
        commitments_code_bytes(b),
        b.head_data.0@,
        a,
    );
    lemma_commitments_align_code(
        s,
        pos,
        p1,
        p2,
        p4,
        b.upward_messages@,
        b.horizontal_messages@,
        commitments_code_bytes(b),
        a,
    );
    crate::codec::lemma_bytes_prefix_secure(s, p4, a.head_data.0@, b.head_data.0@);
    assert(enc_commitments(a).len() == enc_bytes_list(a.upward_messages@).len() + enc_hrmp_list(
        a.horizontal_messages@,
    ).len() + 32 + enc_opt_code(a.new_validation_code).len() + enc_bytes(a.head_data.0@).len()
        + 8);
    assert(enc_commitments(b).len() == (p5 - pos) + 8);
}

/// Law: two well-formed committed receipts whose encodings begin at the
/// same place encode to the same length.
#[verifier::spinoff_prover]
pub proof fn lemma_enc_committed_extent_secure(
    s: Seq<u8>,
    pos: int,
    a: CommittedCandidateReceipt,
    b: CommittedCandidateReceipt,
)
    requires
        a.wf(),
        b.wf(),
        starts_with_at(s, pos, enc_committed(a)),
        starts_with_at(s, pos, enc_committed(b)),
    ensures
        enc_committed(a).len() == enc_committed(b).len(),
{
    lemma_starts_with_concat(s, pos, enc_descriptor(a.descriptor), enc_commitments(a.commitments));
    lemma_starts_with_concat(s, pos, enc_descriptor(b.descriptor), enc_commitments(b.commitments));
    lemma_enc_descriptor_len(a.descriptor);
    lemma_enc_descriptor_len(b.descriptor);
    lemma_enc_commitments_prefix_secure(s, pos + 196, a.commitments, b.commitments);
}

} // verus!
