//! The availability-core scheduling state: what occupies a core, what is
//! scheduled on it, the per-block invariants the external scheduler's
//! output must satisfy, and the per-session snapshot that parameterizes
//! the rotation engine.

use vstd::prelude::*;
use crate::bitfield::{Bitfield, enc_bitfield, encode_bitfield};
use crate::codec::{
    enc_u32, encode_u32, decode_u32, starts_with_at, lemma_starts_with_index, decode_fixed,
};
use crate::primitives::{enc_para_id, encode_para_id, decode_para_id};
use crate::candidate::CandidateReceipt;
use crate::primitives::{
    ParaId, CollatorId, ValidatorId, AuthorityDiscoveryId, HeadData, BlockNumber,
};
use crate::rotation::{GroupIndex, GroupRotationInfo, CoreIndex, spec_group_for_core};

verus! {

/// A claim on authoring the next block of a parathread: the para and the
/// collator that must author it.
#[derive(Clone, Debug, PartialEq, Eq)]
pub struct ParathreadClaim(pub ParaId, pub CollatorId);

/// An entry tracking a parathread claim, capping how often it may be
/// retried before eviction; the eviction policy itself lives outside this
/// library.
#[derive(Clone, Debug, PartialEq, Eq)]
pub struct ParathreadEntry {
    /// The claim.
    pub claim: ParathreadClaim,
    /// How many times the claim has been retried.
    pub retries: u32,
}

/// What occupies an availability core.
#[derive(Clone, Debug, PartialEq, Eq)]
pub enum CoreOccupied {
    /// A parathread, with its retry-tracked claim.
    Parathread(ParathreadEntry),
    /// A parachain.
    Parachain,
}

/// A para scheduled onto a core, with the collator required to author the
/// block, if any.
#[derive(Clone, Debug, PartialEq, Eq)]
pub struct ScheduledCore {
    /// The para scheduled.
    pub para_id: ParaId,
    /// The collator required to author the block, if any.
    pub collator: Option<CollatorId>,
}

/// Information about a core that is currently occupied.
#[derive(Clone, Debug, PartialEq, Eq)]
pub struct OccupiedCore {
    /// The para occupying the core.
    pub para_id: ParaId,
    /// What is next up on this core if it is freed by availability, if
    /// anything is queued.
    pub next_up_on_available: Option<ScheduledCore>,
    /// The relay-chain height at which the occupancy began.
    pub occupied_since: BlockNumber,
    /// The relay-chain height at which the occupancy times out.
    pub time_out_at: BlockNumber,
    /// What is next up on this core if it is freed by timeout, if
    /// anything is queued.
    pub next_up_on_time_out: Option<ScheduledCore>,
    /// One bit per validator of the whole set; a set bit at position `i`
    /// records that validator `i` attested availability on-chain. The
    /// supermajority threshold that turns these bits into "available" is
    /// external policy; this library only stores the bitfield.
    pub availability: Bitfield,
    /// The group assigned to distribute availability pieces of the
    /// occupying candidate.
    pub group_responsible: GroupIndex,
}

impl OccupiedCore {
    /// The invariants an occupied core must satisfy at height `now`, in a
    /// session with `n_validators` validators: the occupancy window
    /// contains `now`, and the availability bitfield carries one bit per
    /// validator of the whole set.
    pub open spec fn wf_at(&self, now: BlockNumber, n_validators: int) -> bool {
        self.occupied_since <= now <= self.time_out_at && self.availability@.len() == n_validators
    }

    /// The responsible group is the one the rotation engine computes for
    /// the core at the session's parameters.
    pub open spec fn group_consistent(
        &self,
        rotation: GroupRotationInfo,
        core: CoreIndex,
        n_cores: int,
    ) -> bool {
        self.group_responsible.0 == spec_group_for_core(rotation, core.0, n_cores)
    }
}

/// The state of an availability core: exactly one of occupied, scheduled
/// or free holds per core per block. Only parathread cores may be idle;
/// a parachain-dedicated core is never left free.
#[derive(Clone, Debug, PartialEq, Eq)]
pub enum CoreState {
    /// The core is occupied; wire tag zero.
    Occupied(OccupiedCore),
    /// The core is free, with a para scheduled and given the opportunity
    /// to occupy it; wire tag one.
    Scheduled(ScheduledCore),
    /// The core is free and nothing is scheduled; wire tag two.
    Free,
}

/// The para an occupied or scheduled core belongs to, if any.
pub open spec fn spec_core_para_id(c: CoreState) -> Option<ParaId> {
    match c {
        CoreState::Occupied(occupied) => Some(occupied.para_id),
        CoreState::Scheduled(scheduled) => Some(scheduled.para_id),
        CoreState::Free => None,
    }
}

impl CoreState {
    /// If this core state has a para, return it.
    pub fn para_id(&self) -> (r: Option<ParaId>)
        ensures
            r == spec_core_para_id(*self),
    {
        match self {
            CoreState::Occupied(occupied) => Some(occupied.para_id),
            CoreState::Scheduled(scheduled) => Some(scheduled.para_id),
            CoreState::Free => None,
        }
    }

    /// Is this core occupied?
    pub fn is_occupied(&self) -> (r: bool)
        ensures
            r == (*self matches CoreState::Occupied(_)),
    {
        match self {
            CoreState::Occupied(_) => true,
            _ => false,
        }
    }
}

/// An assumption made about the state of an occupied core.
#[derive(Clone, Copy, Debug, PartialEq, Eq, Structural)]
pub enum OccupiedCoreAssumption {
    /// The occupying candidate was made available and included to free
    /// the core; wire tag zero.
    Included,
    /// The occupying candidate timed out and freed the core without
    /// advancing the para; wire tag one.
    TimedOut,
    /// The core was not occupied to begin with; wire tag two.
    Free,
}

/// An event concerning a candidate, as surfaced per block.
#[derive(Clone, Debug, PartialEq, Eq)]
pub enum CandidateEvent {
    /// The candidate was backed in the most recent block; wire tag zero.
    CandidateBacked(CandidateReceipt, HeadData),
    /// The candidate was included and became a parablock in the most
    /// recent block; wire tag one.
    CandidateIncluded(CandidateReceipt, HeadData),
    /// The candidate was not made available in time and timed out; wire
    /// tag two.
    CandidateTimedOut(CandidateReceipt, HeadData),
}

/// A validator group: the validators of one shuffled partition cell of
/// the session's validator list.
pub type ValidatorGroup = Vec<ValidatorId>;

/// The immutable per-session snapshot: the validator set, its discovery
/// identities, the shuffled validator groups, the core count, and the
/// timing parameters an approval-checking subsystem consumes.
#[derive(Clone, Debug, PartialEq, Eq)]
pub struct SessionInfo {
    /// Validators in canonical ordering.
    pub validators: Vec<ValidatorId>,
    /// The validators' authority-discovery keys, in canonical ordering.
    pub discovery_keys: Vec<AuthorityDiscoveryId>,
    /// The assignment and approval keys: external input whose shape is
    /// not yet specified, kept off the wire.
    pub approval_keys: Vec<()>,
    /// Validators in shuffled ordering: the validator groups, typically
    /// referred to by group index.
    pub validator_groups: Vec<ValidatorGroup>,
    /// The number of availability cores used during this session.
    pub n_cores: u32,
    /// The zeroth delay-tranche width.
    pub zeroth_delay_tranche_width: u32,
    /// How many samples are drawn for assignment by modulo.
    pub relay_vrf_modulo_samples: u32,
    /// The total number of delay tranches.
    pub n_delay_tranches: u32,
    /// How many slots must pass before an assignment counts as a no-show.
    pub no_show_slots: u32,
    /// How many validators are needed to approve a block.
    pub needed_approvals: u32,
}

impl SessionInfo {
    /// The groups partition indices of the validator list: every group
    /// member is a validator of the session.
    pub open spec fn wf(&self) -> bool {
        forall|g: int, k: int|
            0 <= g < self.validator_groups@.len() && 0 <= k < self.validator_groups@[g]@.len()
                ==> (#[trigger] self.validator_groups@[g]@[k]).wf()
    }
}

/// Custom validity errors used while validating transactions.
#[derive(Clone, Copy, Debug, PartialEq, Eq, Structural)]
pub enum ValidityError {
    /// The signature over the claim is invalid; wire code zero.
    InvalidEthereumSignature,
    /// The signer has no claim; wire code one.
    SignerHasNoClaim,
    /// No permission to execute the call; wire code two.
    NoPermission,
    /// An invalid statement was made for a claim; wire code three.
    InvalidStatement,
}

/// The stable code of a validity error.
pub open spec fn spec_validity_error_code(e: ValidityError) -> u8 {
    match e {
        ValidityError::InvalidEthereumSignature => 0,
        ValidityError::SignerHasNoClaim => 1,
        ValidityError::NoPermission => 2,
        ValidityError::InvalidStatement => 3,
    }
}

impl core::convert::From<ValidityError> for u8 {
    fn from(e: ValidityError) -> (r: u8) {
        match e {
            ValidityError::InvalidEthereumSignature => 0,
            ValidityError::SignerHasNoClaim => 1,
            ValidityError::NoPermission => 2,
            ValidityError::InvalidStatement => 3,
        }
    }
}

impl vstd::std_specs::convert::FromSpecImpl<ValidityError> for u8 {
    open spec fn obeys_from_spec() -> bool {
        true
    }

    open spec fn from_spec(e: ValidityError) -> u8 {
        spec_validity_error_code(e)
    }
}


impl ParathreadClaim {
    /// The collator key has its fixed width.
    pub open spec fn wf(&self) -> bool {
        self.1.wf()
    }
}

/// The encoding of a parathread claim: the para, then the collator key.
pub open spec fn enc_claim(c: ParathreadClaim) -> Seq<u8> {
    enc_para_id(c.0) + c.1.0@
}

/// Append the encoding of `c` to `out`.
pub fn encode_claim(c: &ParathreadClaim, out: &mut Vec<u8>)
    ensures
        final(out)@ == old(out)@ + enc_claim(*c),
{
    encode_para_id(&c.0, out);
    out.extend_from_slice(c.1.0.as_slice());
    assert(out@ =~= old(out)@ + enc_claim(*c));
}

/// Read a parathread claim: a para identifier, then 32 key bytes.
///
/// Fails exactly when fewer than 36 bytes remain.
pub fn decode_claim(bytes: &Vec<u8>, pos: usize) -> (r: Option<(ParathreadClaim, usize)>)
    ensures
        r matches Some(p) ==> p.1 == pos + 36 && p.1 <= bytes@.len() && p.0.wf()
            && bytes@.subrange(pos as int, p.1 as int) == enc_claim(p.0),
        r is None ==> bytes@.len() < pos + 36,
{
    let (para, p1) = match decode_para_id(bytes, pos) {
        Some(x) => x,
        None => {
            return None;
        },
    };
    let (key, p2) = match decode_fixed(bytes, p1, 32) {
        Some(x) => x,
        None => {
            return None;
        },
    };
    let c = ParathreadClaim(para, crate::primitives::CollatorId(key));
    proof {
        assert(bytes@.subrange(pos as int, p2 as int) =~= enc_claim(c));
    }
    Some((c, p2))
}

impl ParathreadEntry {
    /// The claim is well-formed.
    pub open spec fn wf(&self) -> bool {
        self.claim.wf()
    }
}

/// The encoding of a parathread entry: the claim, then the retry count.
pub open spec fn enc_entry(e: ParathreadEntry) -> Seq<u8> {
    enc_claim(e.claim) + enc_u32(e.retries)
}

/// Append the encoding of `e` to `out`.
pub fn encode_entry(e: &ParathreadEntry, out: &mut Vec<u8>)
    ensures
        final(out)@ == old(out)@ + enc_entry(*e),
{
    encode_claim(&e.claim, out);
    encode_u32(e.retries, out);
    assert(out@ =~= old(out)@ + enc_entry(*e));
}

/// Read a parathread entry: a claim, then a retry count.
///
/// Fails exactly when fewer than 40 bytes remain.
pub fn decode_entry(bytes: &Vec<u8>, pos: usize) -> (r: Option<(ParathreadEntry, usize)>)
    ensures
        r matches Some(p) ==> p.1 == pos + 40 && p.1 <= bytes@.len() && p.0.wf()
            && bytes@.subrange(pos as int, p.1 as int) == enc_entry(p.0),
        r is None ==> bytes@.len() < pos + 40,
{
    let (claim, p1) = match decode_claim(bytes, pos) {
        Some(x) => x,
        None => {
            return None;
        },
    };
    let (retries, p2) = match decode_u32(bytes, p1) {
        Some(x) => x,
        None => {
            return None;
        },
    };
    let e = ParathreadEntry { claim, retries };
    proof {
        assert(bytes@.subrange(pos as int, p2 as int) =~= enc_entry(e));
    }
    Some((e, p2))
}

impl CoreOccupied {
    /// A parathread occupier carries a well-formed entry.
    pub open spec fn wf(&self) -> bool {
        match self {
            CoreOccupied::Parathread(e) => e.wf(),
            CoreOccupied::Parachain => true,
        }
    }
}

/// The encoding of a core occupier: tag zero with the entry for a
/// parathread, tag one for a parachain.
pub open spec fn enc_core_occupied(c: CoreOccupied) -> Seq<u8> {
    match c {
        CoreOccupied::Parathread(e) => seq![0u8] + enc_entry(e),
        CoreOccupied::Parachain => seq![1u8],
    }
}

/// Append the encoding of `c` to `out`.
pub fn encode_core_occupied(c: &CoreOccupied, out: &mut Vec<u8>)
    ensures
        final(out)@ == old(out)@ + enc_core_occupied(*c),
{
    match c {
        CoreOccupied::Parathread(e) => {
            out.push(0u8);
            encode_entry(e, out);
        },
        CoreOccupied::Parachain => {
            out.push(1u8);
        },
    }
    assert(out@ =~= old(out)@ + enc_core_occupied(*c));
}

/// Read a core occupier.
///
/// Fails exactly when no occupier's encoding begins there: an unknown tag
/// or a truncated entry.
pub fn decode_core_occupied(bytes: &Vec<u8>, pos: usize) -> (r: Option<(CoreOccupied, usize)>)
    ensures
        r matches Some(p) ==> pos <= p.1 <= bytes@.len() && p.0.wf()
            && bytes@.subrange(pos as int, p.1 as int) == enc_core_occupied(p.0),
        r is None ==> forall|c: CoreOccupied|
            c.wf() ==> !starts_with_at(bytes@, pos as int, enc_core_occupied(c)),
{
    if pos >= bytes.len() {
        proof {
            assert forall|c: CoreOccupied| c.wf() implies !starts_with_at(
                bytes@,
                pos as int,
                enc_core_occupied(c),
            ) by {
                assert(enc_core_occupied(c).len() >= 1);
            }
        }
        return None;
    }
    let tag = bytes[pos];
    if tag == 0 {
        match decode_entry(bytes, pos + 1) {
            Some((e, end)) => {
                let c = CoreOccupied::Parathread(e);
                proof {
                    assert(bytes@.subrange(pos as int, end as int) =~= enc_core_occupied(c));
                }
                Some((c, end))
            },
            None => {
                proof {
                    assert forall|c: CoreOccupied| c.wf() implies !starts_with_at(
                        bytes@,
                        pos as int,
                        enc_core_occupied(c),
                    ) by {
                        if starts_with_at(bytes@, pos as int, enc_core_occupied(c)) {
                            lemma_starts_with_index(bytes@, pos as int, enc_core_occupied(c), 0);
                            assert(c is Parathread);
                            assert(pos + 41 <= bytes@.len());
                        }
                    }
                }
                None
            },
        }
    } else if tag == 1 {
        let c = CoreOccupied::Parachain;
        proof {
            assert(bytes@.subrange(pos as int, pos + 1 as int) =~= enc_core_occupied(c));
        }
        Some((c, pos + 1))
    } else {
        proof {
            assert forall|c: CoreOccupied| c.wf() implies !starts_with_at(
                bytes@,
                pos as int,
                enc_core_occupied(c),
            ) by {
                if starts_with_at(bytes@, pos as int, enc_core_occupied(c)) {
                    lemma_starts_with_index(bytes@, pos as int, enc_core_occupied(c), 0);
                }
            }
        }
        None
    }
}

impl ScheduledCore {
    /// A required collator, if named, has its fixed key width.
    pub open spec fn wf(&self) -> bool {
        self.collator matches Some(c) ==> c.wf()
    }
}

/// The encoding of an optional collator key: a marker byte, then the 32
/// key bytes if present.
pub open spec fn enc_opt_collator(o: Option<CollatorId>) -> Seq<u8> {
    match o {
        Option::None => seq![0u8],
        Option::Some(c) => seq![1u8] + c.0@,
    }
}

/// The encoding of a scheduled core: the para, then the optional
/// required collator.
pub open spec fn enc_scheduled(s: ScheduledCore) -> Seq<u8> {
    enc_para_id(s.para_id) + enc_opt_collator(s.collator)
}

/// Append the encoding of `s` to `out`.
pub fn encode_scheduled(s: &ScheduledCore, out: &mut Vec<u8>)
    ensures
        final(out)@ == old(out)@ + enc_scheduled(*s),
{
    encode_para_id(&s.para_id, out);
    match &s.collator {
        None => {
            out.push(0u8);
        },
        Some(c) => {
            out.push(1u8);
            out.extend_from_slice(c.0.as_slice());
        },
    }
    assert(out@ =~= old(out)@ + enc_scheduled(*s));
}

/// Read a scheduled core.
///
/// Fails exactly when no scheduled core's encoding begins there: too few
/// bytes, or an option marker other than zero or one.
pub fn decode_scheduled(bytes: &Vec<u8>, pos: usize) -> (r: Option<(ScheduledCore, usize)>)
    ensures
        r matches Some(p) ==> pos <= p.1 <= bytes@.len() && p.0.wf()
            && bytes@.subrange(pos as int, p.1 as int) == enc_scheduled(p.0),
        r is None ==> forall|s: ScheduledCore|
            s.wf() ==> !starts_with_at(bytes@, pos as int, enc_scheduled(s)),
{
    let (para, p1) = match decode_para_id(bytes, pos) {
        Some(x) => x,
        None => {
            proof {
                assert forall|s: ScheduledCore| s.wf() implies !starts_with_at(
                    bytes@,
                    pos as int,
                    enc_scheduled(s),
                ) by {
                    assert(enc_scheduled(s).len() >= 5);
                }
            }
            return None;
        },
    };
    if p1 >= bytes.len() {
        proof {
            assert forall|s: ScheduledCore| s.wf() implies !starts_with_at(
                bytes@,
                pos as int,
                enc_scheduled(s),
            ) by {
                assert(enc_scheduled(s).len() >= 5);
            }
        }
        return None;
    }
    let marker = bytes[p1];
    if marker == 0 {
        let s = ScheduledCore { para_id: para, collator: None };
        proof {
            assert(bytes@.subrange(pos as int, p1 + 1 as int) =~= enc_scheduled(s));
        }
        Some((s, p1 + 1))
    } else if marker == 1 {
        match decode_fixed(bytes, p1 + 1, 32) {
            Some((key, end)) => {
                let s = ScheduledCore {
                    para_id: para,
                    collator: Some(crate::primitives::CollatorId(key)),
                };
                proof {
                    assert(bytes@.subrange(pos as int, end as int) =~= enc_scheduled(s));
                }
                Some((s, end))
            },
            None => {
                proof {
                    assert forall|s: ScheduledCore| s.wf() implies !starts_with_at(
                        bytes@,
                        pos as int,
                        enc_scheduled(s),
                    ) by {
                        if starts_with_at(bytes@, pos as int, enc_scheduled(s)) {
                            lemma_starts_with_index(bytes@, pos as int, enc_scheduled(s), 4);
                            assert(enc_scheduled(s)[4] == enc_opt_collator(s.collator)[0]);
                            assert(s.collator is Some);
                            assert(pos + 37 <= bytes@.len());
                        }
                    }
                }
                None
            },
        }
    } else {
        proof {
            assert forall|s: ScheduledCore| s.wf() implies !starts_with_at(
                bytes@,
                pos as int,
                enc_scheduled(s),
            ) by {
                if starts_with_at(bytes@, pos as int, enc_scheduled(s)) {
                    lemma_starts_with_index(bytes@, pos as int, enc_scheduled(s), 4);
                    assert(enc_scheduled(s)[4] == enc_opt_collator(s.collator)[0]);
                }
            }
        }
        None
    }
}

/// The encoding of an optional queued assignment: a marker byte, then
/// the scheduled core if present.
pub open spec fn enc_opt_scheduled(o: Option<ScheduledCore>) -> Seq<u8> {
    match o {
        Option::None => seq![0u8],
        Option::Some(s) => seq![1u8] + enc_scheduled(s),
    }
}

/// Append the encoding of `o` to `out`.
pub fn encode_opt_scheduled(o: &Option<ScheduledCore>, out: &mut Vec<u8>)
    ensures
        final(out)@ == old(out)@ + enc_opt_scheduled(*o),
{
    match o {
        None => {
            out.push(0u8);
        },
        Some(s) => {
            out.push(1u8);
            encode_scheduled(s, out);
        },
    }
    assert(out@ =~= old(out)@ + enc_opt_scheduled(*o));
}

impl OccupiedCore {
    /// Queued assignments are well-formed and the bitfield length fits
    /// its prefix.
    pub open spec fn wf(&self) -> bool {
        &&& (self.next_up_on_available matches Some(s) ==> s.wf())
        &&& (self.next_up_on_time_out matches Some(s) ==> s.wf())
        &&& self.availability@.len() <= u32::MAX
    }
}

/// The encoding of an occupied core: the fields in order.
pub open spec fn enc_occupied_core(o: OccupiedCore) -> Seq<u8> {
    enc_para_id(o.para_id) + enc_opt_scheduled(o.next_up_on_available) + enc_u32(o.occupied_since)
        + enc_u32(o.time_out_at) + enc_opt_scheduled(o.next_up_on_time_out) + enc_bitfield(
        o.availability@,
    ) + enc_u32(o.group_responsible.0)
}

/// Append the encoding of `o` to `out`.
pub fn encode_occupied_core(o: &OccupiedCore, out: &mut Vec<u8>)
    requires
        o.availability@.len() <= u32::MAX,
    ensures
        final(out)@ == old(out)@ + enc_occupied_core(*o),
{
    encode_para_id(&o.para_id, out);
    encode_opt_scheduled(&o.next_up_on_available, out);
    encode_u32(o.occupied_since, out);
    encode_u32(o.time_out_at, out);
    encode_opt_scheduled(&o.next_up_on_time_out, out);
    encode_bitfield(&o.availability, out);
    encode_u32(o.group_responsible.0, out);
    assert(out@ =~= old(out)@ + enc_occupied_core(*o));
}

/// The encoding of a core state: the stable tag — occupied zero,
/// scheduled one, free two — then the payload.
pub open spec fn enc_core_state(c: CoreState) -> Seq<u8> {
    match c {
        CoreState::Occupied(o) => seq![0u8] + enc_occupied_core(o),
        CoreState::Scheduled(s) => seq![1u8] + enc_scheduled(s),
        CoreState::Free => seq![2u8],
    }
}

/// Append the encoding of `c` to `out`.
pub fn encode_core_state(c: &CoreState, out: &mut Vec<u8>)
    requires
        c matches CoreState::Occupied(o) ==> o.availability@.len() <= u32::MAX,
    ensures
        final(out)@ == old(out)@ + enc_core_state(*c),
{
    match c {
        CoreState::Occupied(o) => {
            out.push(0u8);
            encode_occupied_core(o, out);
        },
        CoreState::Scheduled(s) => {
            out.push(1u8);
            encode_scheduled(s, out);
        },
        CoreState::Free => {
            out.push(2u8);
        },
    }
    assert(out@ =~= old(out)@ + enc_core_state(*c));
}

/// The encoding of an occupancy assumption: its stable tag byte —
/// included zero, timed out one, free two.
pub open spec fn enc_assumption(a: OccupiedCoreAssumption) -> Seq<u8> {
    match a {
        OccupiedCoreAssumption::Included => seq![0u8],
        OccupiedCoreAssumption::TimedOut => seq![1u8],
        OccupiedCoreAssumption::Free => seq![2u8],
    }
}

/// Append the encoding of `a` to `out`.
pub fn encode_assumption(a: &OccupiedCoreAssumption, out: &mut Vec<u8>)
    ensures
        final(out)@ == old(out)@ + enc_assumption(*a),
{
    match a {
        OccupiedCoreAssumption::Included => out.push(0u8),
        OccupiedCoreAssumption::TimedOut => out.push(1u8),
        OccupiedCoreAssumption::Free => out.push(2u8),
    }
    assert(out@ =~= old(out)@ + enc_assumption(*a));
}

/// Read an occupancy assumption: one tag byte.
///
/// Fails exactly when no byte remains or the tag is unknown.
pub fn decode_assumption(bytes: &Vec<u8>, pos: usize) -> (r: Option<(
    OccupiedCoreAssumption,
    usize,
)>)
    ensures
        r matches Some(p) ==> p.1 == pos + 1 && p.1 <= bytes@.len()
            && bytes@.subrange(pos as int, p.1 as int) == enc_assumption(p.0),
        r is None ==> forall|a: OccupiedCoreAssumption|
            !starts_with_at(bytes@, pos as int, enc_assumption(a)),
{
    if pos >= bytes.len() {
        return None;
    }
    let tag = bytes[pos];
    let a = if tag == 0 {
        OccupiedCoreAssumption::Included
    } else if tag == 1 {
        OccupiedCoreAssumption::TimedOut
    } else if tag == 2 {
        OccupiedCoreAssumption::Free
    } else {
        proof {
            assert forall|a: OccupiedCoreAssumption| !starts_with_at(
                bytes@,
                pos as int,
                enc_assumption(a),
            ) by {
                if starts_with_at(bytes@, pos as int, enc_assumption(a)) {
                    lemma_starts_with_index(bytes@, pos as int, enc_assumption(a), 0);
                }
            }
        }
        return None;
    };
    proof {
        assert(bytes@.subrange(pos as int, pos + 1 as int) =~= enc_assumption(a));
    }
    Some((a, pos + 1))
}

/// The encoding of a candidate event: the stable tag — backed zero,
/// included one, timed out two — then the receipt and the head-data.
pub open spec fn enc_candidate_event(e: CandidateEvent) -> Seq<u8> {
    match e {
        CandidateEvent::CandidateBacked(r, h) => seq![0u8] + crate::candidate::enc_receipt(r)
            + crate::codec::enc_bytes(h.0@),
        CandidateEvent::CandidateIncluded(r, h) => seq![1u8] + crate::candidate::enc_receipt(r)
            + crate::codec::enc_bytes(h.0@),
        CandidateEvent::CandidateTimedOut(r, h) => seq![2u8] + crate::candidate::enc_receipt(r)
            + crate::codec::enc_bytes(h.0@),
    }
}

/// Append the encoding of `e` to `out`.
pub fn encode_candidate_event(e: &CandidateEvent, out: &mut Vec<u8>)
    requires
        ({
            match *e {
                CandidateEvent::CandidateBacked(_, h) => h.wf(),
                CandidateEvent::CandidateIncluded(_, h) => h.wf(),
                CandidateEvent::CandidateTimedOut(_, h) => h.wf(),
            }
        }),
    ensures
        final(out)@ == old(out)@ + enc_candidate_event(*e),
{
    match e {
        CandidateEvent::CandidateBacked(r, h) => {
            out.push(0u8);
            crate::candidate::encode_receipt(r, out);
            crate::codec::encode_bytes(&h.0, out);
        },
        CandidateEvent::CandidateIncluded(r, h) => {
            out.push(1u8);
            crate::candidate::encode_receipt(r, out);
            crate::codec::encode_bytes(&h.0, out);
        },
        CandidateEvent::CandidateTimedOut(r, h) => {
            out.push(2u8);
            crate::candidate::encode_receipt(r, out);
            crate::codec::encode_bytes(&h.0, out);
        },
    }
    assert(out@ =~= old(out)@ + enc_candidate_event(*e));
}


/// The concatenated encodings of a sequence of validator keys: 32 raw
/// bytes each.
pub open spec fn concat_enc_validators(l: Seq<ValidatorId>) -> Seq<u8>
    decreases l.len(),
{
    if l.len() == 0 {
        Seq::empty()
    } else {
        l[0].0@ + concat_enc_validators(l.skip(1))
    }
}

/// Appending a key appends its bytes.
pub proof fn lemma_concat_enc_validators_push(l: Seq<ValidatorId>, x: ValidatorId)
    ensures
        concat_enc_validators(l.push(x)) == concat_enc_validators(l) + x.0@,
    decreases l.len(),
{
    if l.len() == 0 {
        assert(l.push(x)[0] == x);
        assert(l.push(x).skip(1) =~= Seq::<ValidatorId>::empty());
        assert(concat_enc_validators(l.push(x).skip(1)) == Seq::<u8>::empty());
        assert(concat_enc_validators(l) == Seq::<u8>::empty());
        assert(x.0@ + Seq::<u8>::empty() =~= Seq::<u8>::empty() + x.0@);
        assert(concat_enc_validators(l.push(x)) =~= concat_enc_validators(l) + x.0@);
    } else {
        assert(l.push(x).skip(1) =~= l.skip(1).push(x));
        lemma_concat_enc_validators_push(l.skip(1), x);
        assert(l.push(x)[0] == l[0]);
        assert(concat_enc_validators(l.push(x)) == l[0].0@ + (concat_enc_validators(l.skip(1))
            + x.0@));
        assert(l[0].0@ + (concat_enc_validators(l.skip(1)) + x.0@) =~= (l[0].0@
            + concat_enc_validators(l.skip(1))) + x.0@);
    }
}

/// The encoding of a validator list: count, then each key's bytes.
pub open spec fn enc_validator_list(l: Seq<ValidatorId>) -> Seq<u8> {
    crate::codec::enc_compact_u32(l.len() as u32) + concat_enc_validators(l)
}

/// Append the encoding of the validator list `v` to `out`.
pub fn encode_validator_list(v: &Vec<ValidatorId>, out: &mut Vec<u8>)
    requires
        v@.len() <= u32::MAX,
    ensures
        final(out)@ == old(out)@ + enc_validator_list(v@),
{
    crate::codec::encode_compact_u32(v.len() as u32, out);
    let mut i: usize = 0;
    proof {
        assert(v@.take(0) =~= Seq::<ValidatorId>::empty());
        assert(out@ =~= old(out)@ + crate::codec::enc_compact_u32(v@.len() as u32)
            + concat_enc_validators(v@.take(0)));
    }
    while i < v.len()
        invariant
            i <= v@.len(),
            v@.len() <= u32::MAX,
            out@ == old(out)@ + crate::codec::enc_compact_u32(v@.len() as u32)
                + concat_enc_validators(v@.take(i as int)),
        decreases v@.len() - i,
    {
        out.extend_from_slice(v[i].0.as_slice());
        proof {
            lemma_concat_enc_validators_push(v@.take(i as int), v@[i as int]);
            assert(v@.take(i as int).push(v@[i as int]) =~= v@.take(i + 1));
            assert(out@ =~= old(out)@ + crate::codec::enc_compact_u32(v@.len() as u32)
                + concat_enc_validators(v@.take(i + 1)));
        }
        i = i + 1;
    }
    proof {
        assert(v@.take(v@.len() as int) =~= v@);
        assert(out@ =~= old(out)@ + enc_validator_list(v@));
    }
}

/// The concatenated encodings of a sequence of discovery keys: 32 raw
/// bytes each.
pub open spec fn concat_enc_discovery(l: Seq<AuthorityDiscoveryId>) -> Seq<u8>
    decreases l.len(),
{
    if l.len() == 0 {
        Seq::empty()
    } else {
        l[0].0@ + concat_enc_discovery(l.skip(1))
    }
}

/// Appending a key appends its bytes.
pub proof fn lemma_concat_enc_discovery_push(l: Seq<AuthorityDiscoveryId>, x: AuthorityDiscoveryId)
    ensures
        concat_enc_discovery(l.push(x)) == concat_enc_discovery(l) + x.0@,
    decreases l.len(),
{
    if l.len() == 0 {
        assert(l.push(x)[0] == x);
        assert(l.push(x).skip(1) =~= Seq::<AuthorityDiscoveryId>::empty());
        assert(concat_enc_discovery(l.push(x).skip(1)) == Seq::<u8>::empty());
        assert(concat_enc_discovery(l) == Seq::<u8>::empty());
        assert(x.0@ + Seq::<u8>::empty() =~= Seq::<u8>::empty() + x.0@);
        assert(concat_enc_discovery(l.push(x)) =~= concat_enc_discovery(l) + x.0@);
    } else {
        assert(l.push(x).skip(1) =~= l.skip(1).push(x));
        lemma_concat_enc_discovery_push(l.skip(1), x);
        assert(l.push(x)[0] == l[0]);
        assert(concat_enc_discovery(l.push(x)) == l[0].0@ + (concat_enc_discovery(l.skip(1))
            + x.0@));
        assert(l[0].0@ + (concat_enc_discovery(l.skip(1)) + x.0@) =~= (l[0].0@
            + concat_enc_discovery(l.skip(1))) + x.0@);
    }
}

/// The encoding of a discovery-key list: count, then each key's bytes.
pub open spec fn enc_discovery_list(l: Seq<AuthorityDiscoveryId>) -> Seq<u8> {
    crate::codec::enc_compact_u32(l.len() as u32) + concat_enc_discovery(l)
}

/// Append the encoding of the discovery-key list `v` to `out`.
pub fn encode_discovery_list(v: &Vec<AuthorityDiscoveryId>, out: &mut Vec<u8>)
    requires
        v@.len() <= u32::MAX,
    ensures
        final(out)@ == old(out)@ + enc_discovery_list(v@),
{
    crate::codec::encode_compact_u32(v.len() as u32, out);
    let mut i: usize = 0;
    proof {
        assert(v@.take(0) =~= Seq::<AuthorityDiscoveryId>::empty());
        assert(out@ =~= old(out)@ + crate::codec::enc_compact_u32(v@.len() as u32)
            + concat_enc_discovery(v@.take(0)));
    }
    while i < v.len()
        invariant
            i <= v@.len(),
            v@.len() <= u32::MAX,
            out@ == old(out)@ + crate::codec::enc_compact_u32(v@.len() as u32)
                + concat_enc_discovery(v@.take(i as int)),
        decreases v@.len() - i,
    {
        out.extend_from_slice(v[i].0.as_slice());
        proof {
            lemma_concat_enc_discovery_push(v@.take(i as int), v@[i as int]);
            assert(v@.take(i as int).push(v@[i as int]) =~= v@.take(i + 1));
            assert(out@ =~= old(out)@ + crate::codec::enc_compact_u32(v@.len() as u32)
                + concat_enc_discovery(v@.take(i + 1)));
        }
        i = i + 1;
    }
    proof {
        assert(v@.take(v@.len() as int) =~= v@);
        assert(out@ =~= old(out)@ + enc_discovery_list(v@));
    }
}

/// The concatenated encodings of a sequence of validator groups.
pub open spec fn concat_enc_groups(l: Seq<Vec<ValidatorId>>) -> Seq<u8>
    decreases l.len(),
{
    if l.len() == 0 {
        Seq::empty()
    } else {
        enc_validator_list(l[0]@) + concat_enc_groups(l.skip(1))
    }
}

/// Appending a group appends its encoding.
pub proof fn lemma_concat_enc_groups_push(l: Seq<Vec<ValidatorId>>, x: Vec<ValidatorId>)
    ensures
        concat_enc_groups(l.push(x)) == concat_enc_groups(l) + enc_validator_list(x@),
    decreases l.len(),
{
    if l.len() == 0 {
        assert(l.push(x)[0] == x);
        assert(l.push(x).skip(1) =~= Seq::<Vec<ValidatorId>>::empty());
        assert(concat_enc_groups(l.push(x).skip(1)) == Seq::<u8>::empty());
        assert(concat_enc_groups(l) == Seq::<u8>::empty());
        assert(enc_validator_list(x@) + Seq::<u8>::empty() =~= Seq::<u8>::empty()
            + enc_validator_list(x@));
        assert(concat_enc_groups(l.push(x)) =~= concat_enc_groups(l) + enc_validator_list(x@));
    } else {
        assert(l.push(x).skip(1) =~= l.skip(1).push(x));
        lemma_concat_enc_groups_push(l.skip(1), x);
        assert(l.push(x)[0] == l[0]);
        assert(concat_enc_groups(l.push(x)) == enc_validator_list(l[0]@) + (concat_enc_groups(
            l.skip(1),
        ) + enc_validator_list(x@)));
        assert(enc_validator_list(l[0]@) + (concat_enc_groups(l.skip(1)) + enc_validator_list(x@))
            =~= (enc_validator_list(l[0]@) + concat_enc_groups(l.skip(1))) + enc_validator_list(
            x@,
        ));
    }
}

/// The encoding of the validator groups: group count, then each group.
pub open spec fn enc_group_list(l: Seq<Vec<ValidatorId>>) -> Seq<u8> {
    crate::codec::enc_compact_u32(l.len() as u32) + concat_enc_groups(l)
}

/// Append the encoding of the group list `v` to `out`.
pub fn encode_group_list(v: &Vec<ValidatorGroup>, out: &mut Vec<u8>)
    requires
        v@.len() <= u32::MAX,
        forall|g: int| 0 <= g < v@.len() ==> (#[trigger] v@[g])@.len() <= u32::MAX,
    ensures
        final(out)@ == old(out)@ + enc_group_list(v@),
{
    crate::codec::encode_compact_u32(v.len() as u32, out);
    let mut i: usize = 0;
    proof {
        assert(v@.take(0) =~= Seq::<Vec<ValidatorId>>::empty());
        assert(out@ =~= old(out)@ + crate::codec::enc_compact_u32(v@.len() as u32)
            + concat_enc_groups(v@.take(0)));
    }
    while i < v.len()
        invariant
            i <= v@.len(),
            v@.len() <= u32::MAX,
            forall|g: int| 0 <= g < v@.len() ==> (#[trigger] v@[g])@.len() <= u32::MAX,
            out@ == old(out)@ + crate::codec::enc_compact_u32(v@.len() as u32) + concat_enc_groups(
                v@.take(i as int),
            ),
        decreases v@.len() - i,
    {
        encode_validator_list(&v[i], out);
        proof {
            lemma_concat_enc_groups_push(v@.take(i as int), v@[i as int]);
            assert(v@.take(i as int).push(v@[i as int]) =~= v@.take(i + 1));
            assert(out@ =~= old(out)@ + crate::codec::enc_compact_u32(v@.len() as u32)
                + concat_enc_groups(v@.take(i + 1)));
        }
        i = i + 1;
    }
    proof {
        assert(v@.take(v@.len() as int) =~= v@);
        assert(out@ =~= old(out)@ + enc_group_list(v@));
    }
}

impl SessionInfo {
    /// List lengths fit the 32-bit count prefixes of the wire format.
    pub open spec fn enc_wf(&self) -> bool {
        &&& self.validators@.len() <= u32::MAX
        &&& self.discovery_keys@.len() <= u32::MAX
        &&& self.validator_groups@.len() <= u32::MAX
        &&& forall|g: int|
            0 <= g < self.validator_groups@.len() ==> (#[trigger] self.validator_groups@[g])@.len()
                <= u32::MAX
    }
}

/// The encoding of a session snapshot: the keyed lists, then the six
/// session parameters; the approval keys, not yet specified, stay off
/// the wire.
pub open spec fn enc_session_info(si: SessionInfo) -> Seq<u8> {
    enc_validator_list(si.validators@) + enc_discovery_list(si.discovery_keys@) + enc_group_list(
        si.validator_groups@,
    ) + enc_u32(si.n_cores) + enc_u32(si.zeroth_delay_tranche_width) + enc_u32(
        si.relay_vrf_modulo_samples,
    ) + enc_u32(si.n_delay_tranches) + enc_u32(si.no_show_slots) + enc_u32(si.needed_approvals)
}

/// Append the encoding of `si` to `out`.
pub fn encode_session_info(si: &SessionInfo, out: &mut Vec<u8>)
    requires
        si.enc_wf(),
    ensures
        final(out)@ == old(out)@ + enc_session_info(*si),
{
    encode_validator_list(&si.validators, out);
    encode_discovery_list(&si.discovery_keys, out);
    encode_group_list(&si.validator_groups, out);
    encode_u32(si.n_cores, out);
    encode_u32(si.zeroth_delay_tranche_width, out);
    encode_u32(si.relay_vrf_modulo_samples, out);
    encode_u32(si.n_delay_tranches, out);
    encode_u32(si.no_show_slots, out);
    encode_u32(si.needed_approvals, out);
    assert(out@ =~= old(out)@ + enc_session_info(*si));
}

} // verus!
