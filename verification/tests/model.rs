use relay_primitives::backing::{
    BackedCandidate, BackingError, ValidityAttestation, check_candidate_backing,
};
use relay_primitives::bitfield::Bitfield;
use relay_primitives::candidate::{
    CandidateCommitments, CandidateDescriptor, CandidateOrdering, CommittedCandidateReceipt,
    collator_signature_payload, encode_committed,
};
use relay_primitives::primitives::{
    CollatorId, CollatorSignature, Hash256, HeadData, ParaId, SigningContext, ValidatorId,
    ValidatorSignature,
};

fn keypair(seed: u8) -> schnorrkel::Keypair {
    schnorrkel::MiniSecretKey::from_bytes(&[seed; 32])
        .unwrap()
        .expand_to_keypair(schnorrkel::ExpansionMode::Ed25519)
}

fn blake2_256(data: &[u8]) -> Vec<u8> {
    let mut h = <blake2::Blake2b<blake2::digest::consts::U32> as blake2::Digest>::new();
    blake2::Digest::update(&mut h, data);
    blake2::Digest::finalize(h).to_vec()
}

fn sample_commitments() -> CandidateCommitments {
    CandidateCommitments {
        upward_messages: vec![vec![1, 2, 3], vec![]],
        horizontal_messages: vec![],
        erasure_root: Hash256(vec![4u8; 32]),
        new_validation_code: None,
        head_data: HeadData(vec![9, 9, 9]),
        processed_downward_messages: 2,
        hrmp_watermark: 15,
    }
}

fn signed_descriptor(collator: &schnorrkel::Keypair) -> CandidateDescriptor {
    let relay_parent = Hash256(vec![1u8; 32]);
    let para_id = ParaId(5);
    let pvd_hash = Hash256(vec![2u8; 32]);
    let pov_hash = Hash256(vec![3u8; 32]);
    let payload = collator_signature_payload(&relay_parent, &para_id, &pvd_hash, &pov_hash);
    let signature = collator.sign_simple(b"substrate", &payload).to_bytes().to_vec();
    CandidateDescriptor {
        para_id,
        relay_parent,
        collator: CollatorId(collator.public.to_bytes().to_vec()),
        persisted_validation_data_hash: pvd_hash,
        pov_hash,
        signature: CollatorSignature(signature),
    }
}

#[test]
fn collator_signature_payload_is_valid() {
    // If this fails, collator signature verification code has to be updated.
    let h = Hash256(vec![0u8; 32]);
    assert_eq!(h.0.len(), 32);

    let _payload = collator_signature_payload(
        &Hash256(vec![1u8; 32]),
        &ParaId(5),
        &Hash256(vec![2u8; 32]),
        &Hash256(vec![3u8; 32]),
    );
}

#[test]
fn payload_is_100_bytes_with_fixed_layout() {
    let payload = collator_signature_payload(
        &Hash256(vec![1u8; 32]),
        &ParaId(5),
        &Hash256(vec![2u8; 32]),
        &Hash256(vec![3u8; 32]),
    );
    assert_eq!(payload.len(), 100);
    assert_eq!(&payload[0..32], &[1u8; 32][..]);
    assert_eq!(&payload[32..36], &[5u8, 0, 0, 0][..]);
    assert_eq!(&payload[36..68], &[2u8; 32][..]);
    assert_eq!(&payload[68..100], &[3u8; 32][..]);

    let again = collator_signature_payload(
        &Hash256(vec![1u8; 32]),
        &ParaId(5),
        &Hash256(vec![2u8; 32]),
        &Hash256(vec![3u8; 32]),
    );
    assert_eq!(payload, again);
}

#[test]
fn collator_signature_verifies() {
    let collator = keypair(7);
    let descriptor = signed_descriptor(&collator);
    assert!(descriptor.check_collator_signature().is_ok());
}

#[test]
fn collator_signature_rejects_tampering() {
    let collator = keypair(7);
    let mut descriptor = signed_descriptor(&collator);
    descriptor.pov_hash = Hash256(vec![8u8; 32]);
    assert!(descriptor.check_collator_signature().is_err());

    let mut garbled = signed_descriptor(&collator);
    garbled.signature = CollatorSignature(vec![0u8; 64]);
    assert!(garbled.check_collator_signature().is_err());
}

#[test]
fn canonical_hash_paths_agree() {
    let collator = keypair(7);
    let committed = CommittedCandidateReceipt {
        descriptor: signed_descriptor(&collator),
        commitments: sample_commitments(),
    };
    let plain = committed.to_plain();
    assert_eq!(committed.hash(), plain.hash());
    assert_eq!(plain.descriptor, committed.descriptor);

    // Hashing the committed form's own encoding is a different digest.
    let mut committed_encoding: Vec<u8> = Vec::new();
    encode_committed(&committed, &mut committed_encoding);
    let direct = blake2_256(&committed_encoding);
    assert_ne!(committed.hash().0.0, direct);
}

fn backed(
    votes: Vec<ValidityAttestation>,
    bits: Vec<bool>,
) -> BackedCandidate {
    BackedCandidate {
        candidate: CommittedCandidateReceipt {
            descriptor: signed_descriptor(&keypair(7)),
            commitments: sample_commitments(),
        },
        validity_votes: votes,
        validator_indices: Bitfield::from_bits(bits),
    }
}

fn context() -> SigningContext {
    SigningContext { session_index: 4, parent_hash: Hash256(vec![6u8; 32]) }
}

#[test]
fn backing_all_clear_succeeds_only_without_votes() {
    let lookup: Vec<Option<ValidatorId>> = vec![None, None, None];
    let b = backed(vec![], vec![false, false, false]);
    assert_eq!(check_candidate_backing(&b, &context(), 3, &lookup), Ok(0));

    let sig = ValidatorSignature(vec![0u8; 64]);
    let b = backed(vec![ValidityAttestation::Explicit(sig)], vec![false, false, false]);
    assert_eq!(
        check_candidate_backing(&b, &context(), 3, &lookup),
        Err(BackingError::VoteCountMismatch)
    );
}

#[test]
fn backing_rejects_wrong_shapes() {
    let lookup: Vec<Option<ValidatorId>> = vec![None, None, None];
    let b = backed(vec![], vec![false, false]);
    assert_eq!(
        check_candidate_backing(&b, &context(), 3, &lookup),
        Err(BackingError::GroupSizeMismatch)
    );

    let sig = || ValidityAttestation::Explicit(ValidatorSignature(vec![0u8; 64]));
    let b = backed(vec![sig(), sig(), sig(), sig()], vec![false, false, false]);
    assert_eq!(
        check_candidate_backing(&b, &context(), 3, &lookup),
        Err(BackingError::TooManyVotes)
    );
}

#[test]
fn backing_verifies_a_real_vote() {
    let validator = keypair(11);
    let candidate = CommittedCandidateReceipt {
        descriptor: signed_descriptor(&keypair(7)),
        commitments: sample_commitments(),
    };
    let ctx = context();
    let hash = candidate.hash();
    let unsigned = ValidityAttestation::Explicit(ValidatorSignature(vec![0u8; 64]));
    let payload = unsigned.signed_payload(&hash, &ctx);
    let sig = validator.sign_simple(b"substrate", &payload).to_bytes().to_vec();
    let vote = ValidityAttestation::Explicit(ValidatorSignature(sig));

    let b = BackedCandidate {
        candidate,
        validity_votes: vec![vote],
        validator_indices: Bitfield::from_bits(vec![false, true, false]),
    };
    let lookup = vec![
        None,
        Some(ValidatorId(validator.public.to_bytes().to_vec())),
        None,
    ];
    assert_eq!(check_candidate_backing(&b, &ctx, 3, &lookup), Ok(1));
}

#[test]
fn backing_rejects_one_bad_signature() {
    let validator = keypair(11);
    let candidate = CommittedCandidateReceipt {
        descriptor: signed_descriptor(&keypair(7)),
        commitments: sample_commitments(),
    };
    let ctx = context();
    let vote = ValidityAttestation::Explicit(ValidatorSignature(vec![0u8; 64]));
    let b = BackedCandidate {
        candidate,
        validity_votes: vec![vote],
        validator_indices: Bitfield::from_bits(vec![false, true, false]),
    };
    let lookup = vec![
        None,
        Some(ValidatorId(validator.public.to_bytes().to_vec())),
        None,
    ];
    assert_eq!(
        check_candidate_backing(&b, &ctx, 3, &lookup),
        Err(BackingError::InvalidSignature)
    );
}

#[test]
fn backing_rejects_unknown_validator() {
    let b = backed(
        vec![ValidityAttestation::Explicit(ValidatorSignature(vec![0u8; 64]))],
        vec![true, false, false],
    );
    let lookup: Vec<Option<ValidatorId>> = vec![None, None, None];
    assert_eq!(
        check_candidate_backing(&b, &context(), 3, &lookup),
        Err(BackingError::UnknownValidator)
    );
}

#[test]
fn candidate_ordering_is_by_para_then_head_data() {
    let collator = keypair(7);
    let mut a = CommittedCandidateReceipt {
        descriptor: signed_descriptor(&collator),
        commitments: sample_commitments(),
    };
    let mut b = a.clone();
    a.descriptor.para_id = ParaId(1);
    b.descriptor.para_id = ParaId(2);
    assert_eq!(a.compare(&b), CandidateOrdering::Less);
    assert_eq!(b.compare(&a), CandidateOrdering::Greater);

    b.descriptor.para_id = ParaId(1);
    b.commitments.head_data = HeadData(vec![9, 9, 9, 0]);
    assert_eq!(a.compare(&b), CandidateOrdering::Less);
    b.commitments.head_data = a.commitments.head_data.clone();
    assert_eq!(a.compare(&b), CandidateOrdering::Equal);
}
