use relay_primitives::rotation::{CoreIndex, GroupIndex, GroupRotationInfo};
use relay_primitives::cores::{
    CoreOccupied, CoreState, OccupiedCore, ParathreadClaim, ParathreadEntry, ScheduledCore,
    ValidityError,
};
use relay_primitives::bitfield::Bitfield;
use relay_primitives::primitives::{CollatorId, ParaId};

#[test]
fn group_rotation_info_calculations() {
    let info = GroupRotationInfo { session_start_block: 10u32, now: 15, group_rotation_frequency: 5 };

    assert_eq!(info.next_rotation_at(), 20);
    assert_eq!(info.last_rotation_at(), 15);

    let info = GroupRotationInfo { session_start_block: 10u32, now: 11, group_rotation_frequency: 0 };

    assert_eq!(info.next_rotation_at(), 0);
    assert_eq!(info.last_rotation_at(), 0);
}

#[test]
fn group_for_core_without_rotation_is_core_index() {
    let info = GroupRotationInfo { session_start_block: 7, now: 1000, group_rotation_frequency: 0 };
    for core in [0u32, 1, 5, 900] {
        assert_eq!(info.group_for_core(CoreIndex(core), 4), GroupIndex(core));
    }
}

#[test]
fn group_for_core_rotates_by_elapsed_periods() {
    // Three whole rotations elapsed: (25 - 10) / 5 == 3.
    let info = GroupRotationInfo { session_start_block: 10, now: 25, group_rotation_frequency: 5 };
    assert_eq!(info.group_for_core(CoreIndex(2), 7), GroupIndex(5));
    assert_eq!(info.group_for_core(CoreIndex(6), 7), GroupIndex(2));
}

#[test]
fn group_for_core_degenerate_cases() {
    // No cores at all: group zero.
    let info = GroupRotationInfo { session_start_block: 10, now: 25, group_rotation_frequency: 5 };
    assert_eq!(info.group_for_core(CoreIndex(3), 0), GroupIndex(0));
    // A height before the session start saturates to zero elapsed blocks.
    let early = GroupRotationInfo { session_start_block: 10, now: 5, group_rotation_frequency: 5 };
    assert_eq!(early.group_for_core(CoreIndex(2), 7), GroupIndex(2));
    assert_eq!(early.last_rotation_at(), 5);
}

#[test]
fn core_index_and_group_index_from_u32() {
    assert_eq!(CoreIndex::from(9u32), CoreIndex(9));
    assert_eq!(GroupIndex::from(4u32), GroupIndex(4));
}

#[test]
fn core_state_para_id_and_occupancy() {
    let scheduled = ScheduledCore { para_id: ParaId(21), collator: None };
    let occupied = OccupiedCore {
        para_id: ParaId(7),
        next_up_on_available: Some(scheduled.clone()),
        occupied_since: 10,
        time_out_at: 20,
        next_up_on_time_out: None,
        availability: Bitfield::from_bits(vec![true, false, true]),
        group_responsible: GroupIndex(1),
    };

    let state = CoreState::Occupied(occupied);
    assert_eq!(state.para_id(), Some(ParaId(7)));
    assert!(state.is_occupied());

    let state = CoreState::Scheduled(scheduled);
    assert_eq!(state.para_id(), Some(ParaId(21)));
    assert!(!state.is_occupied());

    let state = CoreState::Free;
    assert_eq!(state.para_id(), None);
    assert!(!state.is_occupied());
}

#[test]
fn parathread_entry_holds_claim_and_retries() {
    let entry = ParathreadEntry {
        claim: ParathreadClaim(ParaId(3), CollatorId(vec![9u8; 32])),
        retries: 2,
    };
    let occupied = CoreOccupied::Parathread(entry.clone());
    match occupied {
        CoreOccupied::Parathread(e) => {
            assert_eq!(e.claim.0, ParaId(3));
            assert_eq!(e.retries, 2);
        },
        CoreOccupied::Parachain => panic!("wrong occupier"),
    }
}

#[test]
fn validity_error_codes_are_stable() {
    assert_eq!(u8::from(ValidityError::InvalidEthereumSignature), 0);
    assert_eq!(u8::from(ValidityError::SignerHasNoClaim), 1);
    assert_eq!(u8::from(ValidityError::NoPermission), 2);
    assert_eq!(u8::from(ValidityError::InvalidStatement), 3);
}

#[test]
fn bitfield_counts_set_bits() {
    let b = Bitfield::from_bits(vec![true, false, true, true, false]);
    assert_eq!(b.len(), 5);
    assert_eq!(b.count_ones(), 3);
    assert!(b.get(0));
    assert!(!b.get(1));
}
