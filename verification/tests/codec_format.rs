use parity_scale_codec::{Compact, Encode};
use relay_primitives::codec::{
    decode_bytes, decode_compact_u32, decode_u128, decode_u32, encode_bytes, encode_compact_u32,
    encode_u128, encode_u32,
};
use relay_primitives::candidate::{encode_descriptor, decode_descriptor, encode_receipt, decode_receipt, CandidateReceipt, CandidateDescriptor};
use relay_primitives::primitives::{CollatorId, CollatorSignature, Hash256, ParaId};

fn our_u32(v: u32) -> Vec<u8> {
    let mut out = Vec::new();
    encode_u32(v, &mut out);
    out
}

fn our_compact(v: u32) -> Vec<u8> {
    let mut out = Vec::new();
    encode_compact_u32(v, &mut out);
    out
}

#[test]
fn u32_encoding_matches_reference_codec() {
    for v in [0u32, 1, 5, 255, 256, 65536, 0xDEADBEEF, u32::MAX] {
        assert_eq!(our_u32(v), v.encode());
    }
}

#[test]
fn u128_encoding_matches_reference_codec() {
    for v in [0u128, 5, 1 << 40, u128::MAX] {
        let mut out = Vec::new();
        encode_u128(v, &mut out);
        assert_eq!(out, v.encode());
    }
}

#[test]
fn compact_encoding_matches_reference_codec() {
    for v in [0u32, 1, 63, 64, 255, 16383, 16384, 0x3FFFFFFF, 0x40000000, u32::MAX] {
        assert_eq!(our_compact(v), Compact(v).encode(), "value {v}");
    }
}

#[test]
fn byte_string_encoding_matches_reference_codec() {
    for v in [vec![], vec![7u8], vec![1u8; 100]] {
        let mut out = Vec::new();
        encode_bytes(&v, &mut out);
        assert_eq!(out, v.encode());
    }
}

#[test]
fn u32_and_u128_round_trip() {
    for v in [0u32, 77, u32::MAX] {
        let bytes = our_u32(v);
        assert_eq!(decode_u32(&bytes, 0), Some((v, 4)));
    }
    for v in [0u128, 77, u128::MAX] {
        let mut bytes = Vec::new();
        encode_u128(v, &mut bytes);
        assert_eq!(decode_u128(&bytes, 0), Some((v, 16)));
    }
    assert_eq!(decode_u32(&vec![1, 2, 3], 0), None);
}

#[test]
fn compact_round_trips_at_every_width() {
    for v in [0u32, 63, 64, 16383, 16384, 0x3FFFFFFF, 0x40000000, u32::MAX] {
        let bytes = our_compact(v);
        assert_eq!(decode_compact_u32(&bytes, 0), Some((v, bytes.len())), "value {v}");
    }
}

#[test]
fn compact_rejects_non_canonical_and_truncated_forms() {
    // The value 1 stored in the two-byte form.
    assert_eq!(decode_compact_u32(&vec![0b101, 0], 0), None);
    // The value 100 stored in the four-byte form.
    assert_eq!(decode_compact_u32(&vec![146, 1, 0, 0], 0), None);
    // A small value behind the four-byte marker.
    assert_eq!(decode_compact_u32(&vec![3, 7, 0, 0, 0], 0), None);
    // A width marker beyond four bytes.
    assert_eq!(decode_compact_u32(&vec![0b111], 0), None);
    // Truncated input.
    assert_eq!(decode_compact_u32(&vec![0b101], 0), None);
    assert_eq!(decode_compact_u32(&vec![], 0), None);
}

#[test]
fn byte_strings_round_trip() {
    for v in [vec![], vec![9u8, 8, 7], vec![0u8; 70]] {
        let mut bytes = vec![0xAAu8];
        encode_bytes(&v, &mut bytes);
        let (decoded, end) = decode_bytes(&bytes, 1).unwrap();
        assert_eq!(decoded, v);
        assert_eq!(end, bytes.len());
    }
    // The length prefix announces more bytes than remain.
    assert_eq!(decode_bytes(&vec![40, 1, 2], 0), None);
}

fn sample_descriptor() -> CandidateDescriptor {
    CandidateDescriptor {
        para_id: ParaId(5),
        relay_parent: Hash256(vec![1u8; 32]),
        collator: CollatorId(vec![2u8; 32]),
        persisted_validation_data_hash: Hash256(vec![3u8; 32]),
        pov_hash: Hash256(vec![4u8; 32]),
        signature: CollatorSignature(vec![5u8; 64]),
    }
}

#[test]
fn descriptor_round_trips() {
    let d = sample_descriptor();
    let mut bytes = Vec::new();
    encode_descriptor(&d, &mut bytes);
    assert_eq!(bytes.len(), 196);
    let (decoded, end) = decode_descriptor(&bytes, 0).unwrap();
    assert_eq!(decoded, d);
    assert_eq!(end, 196);
    assert_eq!(decode_descriptor(&bytes, 1), None);
}

#[test]
fn receipt_round_trips() {
    let r = CandidateReceipt {
        descriptor: sample_descriptor(),
        commitments_hash: Hash256(vec![6u8; 32]),
    };
    let mut bytes = Vec::new();
    encode_receipt(&r, &mut bytes);
    assert_eq!(bytes.len(), 228);
    let (decoded, end) = decode_receipt(&bytes, 0).unwrap();
    assert_eq!(decoded, r);
    assert_eq!(end, 228);
}
