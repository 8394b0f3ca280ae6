use parity_scale_codec::Encode;
use relay_primitives::backing::{ValidityAttestation, decode_attestation, encode_attestation};
use relay_primitives::bitfield::{AvailabilityBitfield, Bitfield, decode_bitfield, encode_bitfield};
use relay_primitives::candidate::{
    CandidateDescriptor, CommittedCandidateReceipt, decode_commitments, decode_committed,
    encode_committed, CandidateCommitments, PersistedValidationData, TransientValidationData, ValidationData,
    decode_bytes_list, decode_hrmp_list, decode_mqc_list, decode_pvd, decode_transient,
    decode_validation_data, encode_commitments, encode_descriptor, encode_pvd, encode_transient,
    encode_validation_data, PoV,
};
use relay_primitives::cores::{
    SessionInfo, encode_session_info,
    CoreOccupied, OccupiedCoreAssumption, ParathreadClaim, ParathreadEntry, ScheduledCore,
    decode_assumption, decode_claim, decode_core_occupied, decode_entry, decode_scheduled,
    encode_assumption, encode_claim, encode_core_occupied, encode_entry, encode_scheduled,
};
use relay_primitives::primitives::{
    AuthorityDiscoveryId, ValidatorId,
    BlockData, CollatorId, CollatorSignature, Hash256, HeadData, OutboundHrmpMessage, ParaId,
    SigningContext, ValidatorSignature, decode_signing_context, encode_signing_context,
};
use relay_primitives::rotation::{GroupRotationInfo, decode_rotation_info, encode_rotation_info};

fn blake2_256(data: &[u8]) -> Vec<u8> {
    let mut h = <blake2::Blake2b<blake2::digest::consts::U32> as blake2::Digest>::new();
    blake2::Digest::update(&mut h, data);
    blake2::Digest::finalize(h).to_vec()
}

#[test]
fn bitfield_round_trips_with_known_bytes() {
    let b = Bitfield::from_bits(vec![true, false, true]);
    let mut bytes = Vec::new();
    encode_bitfield(&b, &mut bytes);
    // Three bits, compact: 3 << 2 == 12; packed lsb-first: 0b101 == 5.
    assert_eq!(bytes, vec![12u8, 5]);
    let (decoded, end) = decode_bitfield(&bytes, 0).unwrap();
    assert_eq!(decoded, b);
    assert_eq!(end, 2);

    // A set bit in the padding of the last byte is refused.
    assert_eq!(decode_bitfield(&vec![12u8, 0b1101], 0), None);
    // Truncated packed region.
    assert_eq!(decode_bitfield(&vec![12u8], 0), None);

    let empty = Bitfield::from_bits(vec![]);
    let mut bytes = Vec::new();
    encode_bitfield(&empty, &mut bytes);
    assert_eq!(bytes, vec![0u8]);
    assert_eq!(decode_bitfield(&bytes, 0), Some((empty, 1)));

    let eight = Bitfield::from_bits(vec![true; 8]);
    let mut bytes = Vec::new();
    encode_bitfield(&eight, &mut bytes);
    assert_eq!(bytes, vec![32u8, 255]);
    let availability = AvailabilityBitfield::from(eight);
    assert_eq!(availability.0.count_ones(), 8);
}

#[test]
fn attestation_round_trips() {
    for a in [
        ValidityAttestation::Implicit(ValidatorSignature(vec![7u8; 64])),
        ValidityAttestation::Explicit(ValidatorSignature(vec![9u8; 64])),
    ] {
        let mut bytes = Vec::new();
        encode_attestation(&a, &mut bytes);
        assert_eq!(bytes.len(), 65);
        assert_eq!(decode_attestation(&bytes, 0), Some((a, 65)));
    }
    // Unknown tag.
    assert_eq!(decode_attestation(&vec![3u8; 65], 0), None);
    // Truncated signature.
    assert_eq!(decode_attestation(&vec![1u8; 10], 0), None);
}

#[test]
fn assumption_round_trips_with_stable_tags() {
    let cases = [
        (OccupiedCoreAssumption::Included, 0u8),
        (OccupiedCoreAssumption::TimedOut, 1u8),
        (OccupiedCoreAssumption::Free, 2u8),
    ];
    for (a, tag) in cases {
        let mut bytes = Vec::new();
        encode_assumption(&a, &mut bytes);
        assert_eq!(bytes, vec![tag]);
        assert_eq!(decode_assumption(&bytes, 0), Some((a, 1)));
    }
    assert_eq!(decode_assumption(&vec![9u8], 0), None);
}

#[test]
fn scheduled_core_round_trips() {
    let bare = ScheduledCore { para_id: ParaId(66), collator: None };
    let mut bytes = Vec::new();
    encode_scheduled(&bare, &mut bytes);
    assert_eq!(bytes, vec![66u8, 0, 0, 0, 0]);
    assert_eq!(decode_scheduled(&bytes, 0), Some((bare, 5)));

    let with = ScheduledCore { para_id: ParaId(66), collator: Some(CollatorId(vec![5u8; 32])) };
    let mut bytes = Vec::new();
    encode_scheduled(&with, &mut bytes);
    assert_eq!(bytes.len(), 37);
    assert_eq!(decode_scheduled(&bytes, 0), Some((with, 37)));

    // A marker byte beyond one is refused.
    assert_eq!(decode_scheduled(&vec![66u8, 0, 0, 0, 2], 0), None);
}

#[test]
fn parathread_types_round_trip() {
    let claim = ParathreadClaim(ParaId(9), CollatorId(vec![3u8; 32]));
    let mut bytes = Vec::new();
    encode_claim(&claim, &mut bytes);
    assert_eq!(decode_claim(&bytes, 0), Some((claim.clone(), 36)));

    let entry = ParathreadEntry { claim, retries: 4 };
    let mut bytes = Vec::new();
    encode_entry(&entry, &mut bytes);
    assert_eq!(decode_entry(&bytes, 0), Some((entry.clone(), 40)));

    let occupied = CoreOccupied::Parathread(entry);
    let mut bytes = Vec::new();
    encode_core_occupied(&occupied, &mut bytes);
    assert_eq!(decode_core_occupied(&bytes, 0), Some((occupied, 41)));

    let chain = CoreOccupied::Parachain;
    let mut bytes = Vec::new();
    encode_core_occupied(&chain, &mut bytes);
    assert_eq!(bytes, vec![1u8]);
    assert_eq!(decode_core_occupied(&bytes, 0), Some((chain, 1)));
    assert_eq!(decode_core_occupied(&vec![7u8], 0), None);
}

#[test]
fn rotation_info_and_signing_context_round_trip() {
    let info = GroupRotationInfo { session_start_block: 1, group_rotation_frequency: 2, now: 3 };
    let mut bytes = Vec::new();
    encode_rotation_info(&info, &mut bytes);
    assert_eq!(bytes, vec![1u8, 0, 0, 0, 2, 0, 0, 0, 3, 0, 0, 0]);
    assert_eq!(decode_rotation_info(&bytes, 0), Some((info, 12)));

    let ctx = SigningContext { session_index: 5, parent_hash: Hash256(vec![7u8; 32]) };
    let mut bytes = Vec::new();
    encode_signing_context(&ctx, &mut bytes);
    assert_eq!(bytes.len(), 36);
    assert_eq!(decode_signing_context(&bytes, 0), Some((ctx, 36)));
}

#[test]
fn transient_data_round_trips() {
    let none = TransientValidationData {
        max_code_size: 10,
        max_head_data_size: 20,
        balance: 1u128 << 100,
        code_upgrade_allowed: None,
        dmq_length: 3,
    };
    let mut bytes = Vec::new();
    encode_transient(&none, &mut bytes);
    assert_eq!(bytes.len(), 29);
    assert_eq!(decode_transient(&bytes, 0), Some((none.clone(), 29)));

    let some = TransientValidationData { code_upgrade_allowed: Some(55), ..none };
    let mut bytes = Vec::new();
    encode_transient(&some, &mut bytes);
    assert_eq!(bytes.len(), 33);
    assert_eq!(decode_transient(&bytes, 0), Some((some, 33)));

    // An upgrade marker beyond one is refused.
    let mut bad = bytes.clone();
    bad[24] = 2;
    assert_eq!(decode_transient(&bad, 0), None);
}

fn sample_pvd() -> PersistedValidationData {
    PersistedValidationData {
        parent_head: HeadData(vec![1, 2, 3]),
        block_number: 7,
        hrmp_mqc_heads: vec![(ParaId(1), Hash256(vec![9u8; 32]))],
        dmq_mqc_head: Hash256(vec![8u8; 32]),
    }
}

#[test]
fn persisted_validation_data_round_trips_and_matches_reference_codec() {
    let pvd = sample_pvd();
    let mut bytes = Vec::new();
    encode_pvd(&pvd, &mut bytes);

    let reference = (vec![1u8, 2, 3], 7u32, vec![(1u32, [9u8; 32])], [8u8; 32]).encode();
    assert_eq!(bytes, reference);

    assert_eq!(decode_pvd(&bytes, 0), Some((pvd.clone(), bytes.len())));

    // The canonical digest is the hash of exactly that encoding.
    assert_eq!(pvd.hash().0, blake2_256(&reference));
}

#[test]
fn validation_data_round_trips() {
    let v = ValidationData {
        persisted: sample_pvd(),
        transient: TransientValidationData {
            max_code_size: 1,
            max_head_data_size: 2,
            balance: 3,
            code_upgrade_allowed: Some(4),
            dmq_length: 5,
        },
    };
    let mut bytes = Vec::new();
    encode_validation_data(&v, &mut bytes);
    assert_eq!(decode_validation_data(&bytes, 0), Some((v, bytes.len())));
}

#[test]
fn commitments_encoding_matches_reference_codec() {
    let c = CandidateCommitments {
        upward_messages: vec![vec![1, 2], vec![]],
        horizontal_messages: vec![OutboundHrmpMessage { recipient: ParaId(4), data: vec![5, 6] }],
        erasure_root: Hash256(vec![7u8; 32]),
        new_validation_code: Some(relay_primitives::primitives::ValidationCode(vec![8, 9])),
        head_data: HeadData(vec![10]),
        processed_downward_messages: 11,
        hrmp_watermark: 12,
    };
    let mut bytes = Vec::new();
    encode_commitments(&c, &mut bytes);
    let reference = (
        vec![vec![1u8, 2], vec![]],
        vec![(4u32, vec![5u8, 6])],
        [7u8; 32],
        Some(vec![8u8, 9]),
        vec![10u8],
        11u32,
        12u32,
    )
        .encode();
    assert_eq!(bytes, reference);
}

#[test]
fn descriptor_encoding_matches_reference_codec() {
    let d = relay_primitives::candidate::CandidateDescriptor {
        para_id: ParaId(5),
        relay_parent: Hash256(vec![1u8; 32]),
        collator: CollatorId(vec![2u8; 32]),
        persisted_validation_data_hash: Hash256(vec![3u8; 32]),
        pov_hash: Hash256(vec![4u8; 32]),
        signature: CollatorSignature(vec![5u8; 64]),
    };
    let mut bytes = Vec::new();
    encode_descriptor(&d, &mut bytes);
    let reference = (5u32, [1u8; 32], [2u8; 32], [3u8; 32], [4u8; 32], [5u8; 64]).encode();
    assert_eq!(bytes, reference);
}

#[test]
fn pov_hash_is_digest_of_length_prefixed_witness() {
    let pov = PoV { block_data: BlockData(vec![1, 2, 3, 4]) };
    let reference = vec![1u8, 2, 3, 4].encode();
    assert_eq!(pov.hash().0, blake2_256(&reference));
}

#[test]
fn list_decoders_round_trip_and_reject_truncation() {
    // Byte-message list: two messages.
    let reference = vec![vec![1u8, 2], vec![3u8]].encode();
    let (msgs, end) = decode_bytes_list(&reference, 0).unwrap();
    assert_eq!(msgs, vec![vec![1u8, 2], vec![3u8]]);
    assert_eq!(end, reference.len());
    // Count announces more entries than remain.
    assert_eq!(decode_bytes_list(&vec![8u8, 0], 0), None);

    // Horizontal-message list.
    let reference = vec![(9u32, vec![7u8])].encode();
    let (msgs, end) = decode_hrmp_list(&reference, 0).unwrap();
    assert_eq!(msgs, vec![OutboundHrmpMessage { recipient: ParaId(9), data: vec![7] }]);
    assert_eq!(end, reference.len());

    // Queue-chain-head list.
    let reference = vec![(3u32, [6u8; 32])].encode();
    let (heads, end) = decode_mqc_list(&reference, 0).unwrap();
    assert_eq!(heads, vec![(ParaId(3), Hash256(vec![6u8; 32]))]);
    assert_eq!(end, reference.len());
    assert_eq!(decode_mqc_list(&vec![4u8, 0, 0], 0), None);
}

#[test]
fn commitments_and_committed_receipt_round_trip() {
    let committed = CommittedCandidateReceipt {
        descriptor: CandidateDescriptor {
            para_id: ParaId(5),
            relay_parent: Hash256(vec![1u8; 32]),
            collator: CollatorId(vec![2u8; 32]),
            persisted_validation_data_hash: Hash256(vec![3u8; 32]),
            pov_hash: Hash256(vec![4u8; 32]),
            signature: CollatorSignature(vec![5u8; 64]),
        },
        commitments: CandidateCommitments {
            upward_messages: vec![vec![1, 2], vec![]],
            horizontal_messages: vec![OutboundHrmpMessage {
                recipient: ParaId(4),
                data: vec![5, 6],
            }],
            erasure_root: Hash256(vec![7u8; 32]),
            new_validation_code: None,
            head_data: HeadData(vec![10]),
            processed_downward_messages: 11,
            hrmp_watermark: 12,
        },
    };
    let mut bytes = Vec::new();
    encode_committed(&committed, &mut bytes);
    assert_eq!(decode_committed(&bytes, 0), Some((committed.clone(), bytes.len())));

    let mut commitments_bytes = Vec::new();
    encode_commitments(&committed.commitments, &mut commitments_bytes);
    assert_eq!(
        decode_commitments(&commitments_bytes, 0),
        Some((committed.commitments.clone(), commitments_bytes.len()))
    );
    // Truncated input is refused.
    assert_eq!(decode_committed(&bytes[..bytes.len() - 1].to_vec(), 0), None);
}

#[test]
fn session_info_encoding_matches_reference_codec() {
    let si = SessionInfo {
        validators: vec![ValidatorId(vec![1u8; 32]), ValidatorId(vec![2u8; 32])],
        discovery_keys: vec![AuthorityDiscoveryId(vec![3u8; 32])],
        approval_keys: vec![],
        validator_groups: vec![vec![ValidatorId(vec![1u8; 32])], vec![ValidatorId(vec![2u8; 32])]],
        n_cores: 4,
        zeroth_delay_tranche_width: 5,
        relay_vrf_modulo_samples: 6,
        n_delay_tranches: 7,
        no_show_slots: 8,
        needed_approvals: 9,
    };
    let mut bytes = Vec::new();
    encode_session_info(&si, &mut bytes);
    let reference = (
        vec![[1u8; 32], [2u8; 32]],
        vec![[3u8; 32]],
        vec![vec![[1u8; 32]], vec![[2u8; 32]]],
        4u32,
        5u32,
        6u32,
        7u32,
        8u32,
        9u32,
    )
        .encode();
    assert_eq!(bytes, reference);
}

#[test]
fn backed_candidate_round_trips() {
    let backed = relay_primitives::backing::BackedCandidate {
        candidate: CommittedCandidateReceipt {
            descriptor: CandidateDescriptor {
                para_id: ParaId(5),
                relay_parent: Hash256(vec![1u8; 32]),
                collator: CollatorId(vec![2u8; 32]),
                persisted_validation_data_hash: Hash256(vec![3u8; 32]),
                pov_hash: Hash256(vec![4u8; 32]),
                signature: CollatorSignature(vec![5u8; 64]),
            },
            commitments: CandidateCommitments {
                upward_messages: vec![vec![1, 2]],
                horizontal_messages: vec![],
                erasure_root: Hash256(vec![7u8; 32]),
                new_validation_code: None,
                head_data: HeadData(vec![10]),
                processed_downward_messages: 11,
                hrmp_watermark: 12,
            },
        },
        validity_votes: vec![ValidityAttestation::Explicit(ValidatorSignature(vec![6u8; 64]))],
        validator_indices: Bitfield::from_bits(vec![false, true, false]),
    };
    let mut bytes = Vec::new();
    relay_primitives::backing::encode_backed(&backed, &mut bytes);
    assert_eq!(
        relay_primitives::backing::decode_backed(&bytes, 0),
        Some((backed, bytes.len()))
    );
    // Truncated input is refused.
    assert_eq!(relay_primitives::backing::decode_backed(&bytes[..10].to_vec(), 0), None);
}
