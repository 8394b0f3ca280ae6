//! The backing verifier: attestations, backed candidates, and the check
//! that a group's aggregated backing signatures match the bitfield of
//! participating validators.

use vstd::prelude::*;
use crate::bitfield::{Bitfield, count_ones, lemma_count_ones_all_clear};
use crate::candidate::{CommittedCandidateReceipt, committed_candidate_hash};
use crate::crypto::{sr25519_verify, sr25519_accepts};
use crate::primitives::{
    ValidatorId, ValidatorSignature, SigningContext, CandidateHash, enc_signing_context,
    encode_signing_context,
};

verus! {

/// Why a backing check failed.
#[derive(Clone, Copy, Debug, PartialEq, Eq, Structural)]
pub enum BackingError {
    /// The bitfield's length differs from the group size.
    GroupSizeMismatch,
    /// More votes were supplied than the group has members.
    TooManyVotes,
    /// A set bit named a group slot with no known validator.
    UnknownValidator,
    /// A signature failed verification.
    InvalidSignature,
    /// The number of set bits differs from the number of votes.
    VoteCountMismatch,
}

/// A statement about a candidate, in its compact signed form.
#[derive(Clone, Debug, PartialEq, Eq)]
pub enum CompactStatement {
    /// Proposal of a candidate.
    Candidate(CandidateHash),
    /// A statement that a candidate is valid.
    Valid(CandidateHash),
    /// A statement that a candidate is invalid.
    Invalid(CandidateHash),
}

/// The encoding of a compact statement: a stable tag byte — proposal one,
/// valid two, invalid three — then the candidate hash.
pub open spec fn enc_compact_statement(s: CompactStatement) -> Seq<u8> {
    match s {
        CompactStatement::Candidate(h) => seq![1u8] + h.0.0@,
        CompactStatement::Valid(h) => seq![2u8] + h.0.0@,
        CompactStatement::Invalid(h) => seq![3u8] + h.0.0@,
    }
}

/// An attestation of validity, expressed as a signature: an implicit
/// attestation is the proposer's, signing the proposal statement; an
/// explicit one signs the validity statement.
#[derive(Clone, Debug, PartialEq, Eq)]
pub enum ValidityAttestation {
    /// Implicit attestation by having proposed the candidate.
    Implicit(ValidatorSignature),
    /// An explicit attestation of validity.
    Explicit(ValidatorSignature),
}

/// The signature an attestation carries.
pub open spec fn attestation_signature(a: ValidityAttestation) -> ValidatorSignature {
    match a {
        ValidityAttestation::Implicit(s) => s,
        ValidityAttestation::Explicit(s) => s,
    }
}

/// The payload an attestation signs for a candidate hash under a signing
/// context: the compact statement the attestation kind selects — the
/// proposal statement for an implicit attestation, the validity statement
/// for an explicit one — followed by the encoded context.
pub open spec fn attestation_signed_payload(
    a: ValidityAttestation,
    candidate_hash: Seq<u8>,
    c: SigningContext,
) -> Seq<u8> {
    (match a {
        ValidityAttestation::Implicit(_) => seq![1u8] + candidate_hash,
        ValidityAttestation::Explicit(_) => seq![2u8] + candidate_hash,
    }) + enc_signing_context(c)
}

/// Law: the payload an attestation signs is the encoding of the compact
/// statement its kind selects — the proposal statement for an implicit
/// attestation, the validity statement for an explicit one — followed by
/// the encoded signing context.
pub proof fn lemma_attestation_payload_is_statement(
    a: ValidityAttestation,
    h: CandidateHash,
    c: SigningContext,
)
    ensures
        attestation_signed_payload(a, h.0.0@, c) == enc_compact_statement(
            match a {
                ValidityAttestation::Implicit(_) => CompactStatement::Candidate(h),
                ValidityAttestation::Explicit(_) => CompactStatement::Valid(h),
            },
        ) + enc_signing_context(c),
{
}

impl ValidityAttestation {
    /// The signature is well-formed.
    pub open spec fn wf(&self) -> bool {
        attestation_signature(*self).wf()
    }

    /// Get a reference to the signature the attestation carries.
    pub fn signature(&self) -> (r: &ValidatorSignature)
        ensures
            *r == attestation_signature(*self),
    {
        match self {
            ValidityAttestation::Implicit(s) => s,
            ValidityAttestation::Explicit(s) => s,
        }
    }

    /// Build the payload this attestation signs for the given candidate
    /// hash and signing context.
    pub fn signed_payload(&self, candidate_hash: &CandidateHash, ctx: &SigningContext) -> (r: Vec<
        u8,
    >)
        ensures
            r@ == attestation_signed_payload(*self, candidate_hash.0.0@, *ctx),
    {
        let mut payload: Vec<u8> = Vec::new();
        match self {
            ValidityAttestation::Implicit(_) => {
                payload.push(1u8);
            },
            ValidityAttestation::Explicit(_) => {
                payload.push(2u8);
            },
        }
        payload.extend_from_slice(candidate_hash.0.0.as_slice());
        encode_signing_context(ctx, &mut payload);
        assert(payload@ =~= attestation_signed_payload(*self, candidate_hash.0.0@, *ctx));
        payload
    }
}

/// A backed (or backable) candidate: the committed receipt, the validity
/// votes, and the bitfield naming which members of the assigned group —
/// not of the global validator set — voted.
#[derive(Clone, Debug, PartialEq, Eq)]
pub struct BackedCandidate {
    /// The candidate referred to.
    pub candidate: CommittedCandidateReceipt,
    /// The validity votes themselves, expressed as signatures, in order.
    pub validity_votes: Vec<ValidityAttestation>,
    /// The indices of the voting validators within the group, as a
    /// bitfield.
    pub validator_indices: Bitfield,
}

impl BackedCandidate {
    /// The candidate is well-formed.
    pub open spec fn wf(&self) -> bool {
        self.candidate.wf()
    }

    /// Get a reference to the descriptor of the candidate.
    pub fn descriptor(&self) -> (r: &crate::candidate::CandidateDescriptor)
        ensures
            *r == self.candidate.descriptor,
    {
        &self.candidate.descriptor
    }
}

/// The walk of the backing check from bit position `i`, with `used` votes
/// already consumed: each set bit consumes the next vote in order and
/// pairs it with the validator the lookup table names for that position;
/// a missing validator or a rejected signature aborts the whole walk.
pub open spec fn walk_from(
    indices: Seq<bool>,
    votes: Seq<ValidityAttestation>,
    lookup: Seq<Option<ValidatorId>>,
    candidate_hash: Seq<u8>,
    c: SigningContext,
    i: nat,
    used: nat,
) -> Result<nat, BackingError>
    decreases indices.len() - i,
{
    if i >= indices.len() {
        Ok(used)
    } else if !indices[i as int] {
        walk_from(indices, votes, lookup, candidate_hash, c, i + 1, used)
    } else if used >= votes.len() {
        Ok(used)
    } else if i >= lookup.len() || lookup[i as int] is None {
        Err(BackingError::UnknownValidator)
    } else if !sr25519_accepts(
        attestation_signed_payload(votes[used as int], candidate_hash, c),
        (lookup[i as int]->0).0@,
        attestation_signature(votes[used as int]).0@,
    ) {
        Err(BackingError::InvalidSignature)
    } else {
        walk_from(indices, votes, lookup, candidate_hash, c, i + 1, used + 1)
    }
}

/// Once the votes are exhausted, the rest of the walk changes nothing.
pub proof fn lemma_walk_votes_exhausted(
    indices: Seq<bool>,
    votes: Seq<ValidityAttestation>,
    lookup: Seq<Option<ValidatorId>>,
    candidate_hash: Seq<u8>,
    c: SigningContext,
    i: nat,
    used: nat,
)
    requires
        used >= votes.len(),
    ensures
        walk_from(indices, votes, lookup, candidate_hash, c, i, used) == Ok::<
            nat,
            BackingError,
        >(used),
    decreases indices.len() - i,
{
    if i < indices.len() && !indices[i as int] {
        lemma_walk_votes_exhausted(indices, votes, lookup, candidate_hash, c, i + 1, used);
    }
}

/// The outcome the backing check owes for the given inputs: the size
/// checks, then the walk, then the count comparison.
pub open spec fn backing_outcome(
    indices: Seq<bool>,
    votes: Seq<ValidityAttestation>,
    lookup: Seq<Option<ValidatorId>>,
    candidate_hash: Seq<u8>,
    c: SigningContext,
    group_len: int,
) -> Result<nat, BackingError> {
    if indices.len() != group_len {
        Err(BackingError::GroupSizeMismatch)
    } else if votes.len() > group_len {
        Err(BackingError::TooManyVotes)
    } else {
        match walk_from(indices, votes, lookup, candidate_hash, c, 0, 0) {
            Err(e) => Err(e),
            Ok(n) => if count_ones(indices) != votes.len() {
                Err(BackingError::VoteCountMismatch)
            } else {
                Ok(n)
            },
        }
    }
}

/// Verify the backing of the given candidate.
///
/// `validator_lookup` resolves an index of a validator within the group
/// assigned to this para — not within the overall validator set — to its
/// identity; `group_len` is the number of validators in the group.
///
/// Walks the bitfield in index order: the n-th set bit consumes the n-th
/// vote and its signature is checked over the attestation's payload for
/// the candidate's canonical hash under the signing context. Returns the
/// number of signatures checked, or the first failure; a bitfield whose
/// set bits do not match the votes supplied fails the count comparison
/// after the walk.
pub fn check_candidate_backing(
    backed: &BackedCandidate,
    signing_context: &SigningContext,
    group_len: usize,
    validator_lookup: &Vec<Option<ValidatorId>>,
) -> (r: Result<usize, BackingError>)
    requires
        backed.wf(),
    ensures
        r matches Ok(n) ==> backing_outcome(
            backed.validator_indices@,
            backed.validity_votes@,
            validator_lookup@,
            committed_candidate_hash(backed.candidate),
            *signing_context,
            group_len as int,
        ) == Ok::<nat, BackingError>(n as nat),
        r matches Err(e) ==> backing_outcome(
            backed.validator_indices@,
            backed.validity_votes@,
            validator_lookup@,
            committed_candidate_hash(backed.candidate),
            *signing_context,
            group_len as int,
        ) == Err::<nat, BackingError>(e),
{
    let ghost s = backed.validator_indices@;
    let ghost v = backed.validity_votes@;
    let ghost l = validator_lookup@;
    let ghost h = committed_candidate_hash(backed.candidate);
    if backed.validator_indices.len() != group_len {
        return Err(BackingError::GroupSizeMismatch);
    }
    if backed.validity_votes.len() > group_len {
        return Err(BackingError::TooManyVotes);
    }
    let hash = backed.candidate.hash();
    let n_votes = backed.validity_votes.len();
    let mut i: usize = 0;
    let mut used: usize = 0;
    while i < backed.validator_indices.len() && used < n_votes
        invariant
            backed.wf(),
            s == backed.validator_indices@,
            v == backed.validity_votes@,
            l == validator_lookup@,
            h == committed_candidate_hash(backed.candidate),
            hash.0.0@ == h,
            n_votes == v.len(),
            n_votes == backed.validity_votes@.len(),
            s.len() == group_len as int,
            v.len() <= group_len as int,
            i <= s.len(),
            used <= n_votes,
            used <= i,
            walk_from(s, v, l, h, *signing_context, i as nat, used as nat) == walk_from(
                s,
                v,
                l,
                h,
                *signing_context,
                0,
                0,
            ),
        decreases s.len() - i,
    {
        if backed.validator_indices.get(i) {
            if i >= validator_lookup.len() {
                proof {
                    assert(walk_from(s, v, l, h, *signing_context, i as nat, used as nat)
                        == Err::<nat, BackingError>(BackingError::UnknownValidator));
                }
                return Err(BackingError::UnknownValidator);
            }
            match &validator_lookup[i] {
                None => {
                    proof {
                        assert(walk_from(s, v, l, h, *signing_context, i as nat, used as nat)
                            == Err::<nat, BackingError>(BackingError::UnknownValidator));
                    }
                    return Err(BackingError::UnknownValidator);
                },
                Some(validator_id) => {
                    let payload = backed.validity_votes[used].signed_payload(
                        &hash,
                        signing_context,
                    );
                    let accepted = sr25519_verify(
                        &payload,
                        &validator_id.0,
                        &backed.validity_votes[used].signature().0,
                    );
                    if !accepted {
                        proof {
                            assert(walk_from(s, v, l, h, *signing_context, i as nat, used as nat)
                                == Err::<nat, BackingError>(BackingError::InvalidSignature));
                        }
                        return Err(BackingError::InvalidSignature);
                    }
                    proof {
                        assert(walk_from(s, v, l, h, *signing_context, i as nat, used as nat)
                            == walk_from(
                            s,
                            v,
                            l,
                            h,
                            *signing_context,
                            (i + 1) as nat,
                            (used + 1) as nat,
                        ));
                    }
                    used = used + 1;
                },
            }
        } else {
            proof {
                assert(walk_from(s, v, l, h, *signing_context, i as nat, used as nat) == walk_from(
                    s,
                    v,
                    l,
                    h,
                    *signing_context,
                    (i + 1) as nat,
                    used as nat,
                ));
            }
        }
        i = i + 1;
    }
    proof {
        if i >= s.len() {
            assert(walk_from(s, v, l, h, *signing_context, i as nat, used as nat) == Ok::<
                nat,
                BackingError,
            >(used as nat));
        } else {
            lemma_walk_votes_exhausted(s, v, l, h, *signing_context, i as nat, used as nat);
        }
    }
    let set_bits = backed.validator_indices.count_ones();
    if set_bits != n_votes {
        return Err(BackingError::VoteCountMismatch);
    }
    Ok(used)
}


/// A walk over clear bits consumes nothing.
pub proof fn lemma_walk_all_clear(
    indices: Seq<bool>,
    votes: Seq<ValidityAttestation>,
    lookup: Seq<Option<ValidatorId>>,
    candidate_hash: Seq<u8>,
    c: SigningContext,
    i: nat,
    used: nat,
)
    requires
        forall|k: int| i <= k < indices.len() ==> !indices[k],
    ensures
        walk_from(indices, votes, lookup, candidate_hash, c, i, used) == Ok::<
            nat,
            BackingError,
        >(used),
    decreases indices.len() - i,
{
    if i < indices.len() {
        lemma_walk_all_clear(indices, votes, lookup, candidate_hash, c, i + 1, used);
    }
}

/// Law: with a bitfield of the group's size and every bit clear, the
/// check succeeds with zero signatures exactly when no votes were
/// supplied; with votes supplied it fails the count comparison.
pub proof fn lemma_all_clear_outcome(
    indices: Seq<bool>,
    votes: Seq<ValidityAttestation>,
    lookup: Seq<Option<ValidatorId>>,
    candidate_hash: Seq<u8>,
    c: SigningContext,
    group_len: int,
)
    requires
        indices.len() == group_len,
        votes.len() <= group_len,
        forall|i: int| 0 <= i < indices.len() ==> !indices[i],
    ensures
        votes.len() == 0 ==> backing_outcome(indices, votes, lookup, candidate_hash, c, group_len)
            == Ok::<nat, BackingError>(0),
        votes.len() > 0 ==> backing_outcome(indices, votes, lookup, candidate_hash, c, group_len)
            == Err::<nat, BackingError>(BackingError::VoteCountMismatch),
{
    lemma_walk_all_clear(indices, votes, lookup, candidate_hash, c, 0, 0);
    lemma_count_ones_all_clear(indices);
}

/// Law: the check fails — it never panics — on a bitfield whose length
/// differs from the group size, and on more votes than group members.
pub proof fn lemma_shape_errors(
    indices: Seq<bool>,
    votes: Seq<ValidityAttestation>,
    lookup: Seq<Option<ValidatorId>>,
    candidate_hash: Seq<u8>,
    c: SigningContext,
    group_len: int,
)
    ensures
        indices.len() != group_len ==> backing_outcome(
            indices,
            votes,
            lookup,
            candidate_hash,
            c,
            group_len,
        ) == Err::<nat, BackingError>(BackingError::GroupSizeMismatch),
        indices.len() == group_len && votes.len() > group_len ==> backing_outcome(
            indices,
            votes,
            lookup,
            candidate_hash,
            c,
            group_len,
        ) == Err::<nat, BackingError>(BackingError::TooManyVotes),
{
}

/// The position of the `k`-th set bit at or after position `i`, or minus
/// one if there is none.
pub open spec fn nth_set_bit_from(s: Seq<bool>, i: nat, k: nat) -> int
    decreases s.len() - i,
{
    if i >= s.len() {
        -1
    } else if s[i as int] {
        if k == 0 {
            i as int
        } else {
            nth_set_bit_from(s, i + 1, (k - 1) as nat)
        }
    } else {
        nth_set_bit_from(s, i + 1, k)
    }
}

/// Whether the `k`-th vote was genuinely verified: its paired bit
/// position resolves to a validator and the scheme accepts its signature
/// over the payload the attestation kind selects.
pub open spec fn vote_verified(
    indices: Seq<bool>,
    votes: Seq<ValidityAttestation>,
    lookup: Seq<Option<ValidatorId>>,
    candidate_hash: Seq<u8>,
    c: SigningContext,
    i: nat,
    used: nat,
    k: int,
) -> bool {
    let pos = nth_set_bit_from(indices, i, (k - used) as nat);
    &&& 0 <= pos < indices.len()
    &&& indices[pos]
    &&& pos < lookup.len()
    &&& lookup[pos] is Some
    &&& sr25519_accepts(
        attestation_signed_payload(votes[k], candidate_hash, c),
        (lookup[pos]->0).0@,
        attestation_signature(votes[k]).0@,
    )
}

/// A successful walk consumed as many votes as it could — all of them,
/// or one per remaining set bit — and verified every vote it consumed.
pub proof fn lemma_walk_ok(
    indices: Seq<bool>,
    votes: Seq<ValidityAttestation>,
    lookup: Seq<Option<ValidatorId>>,
    candidate_hash: Seq<u8>,
    c: SigningContext,
    i: nat,
    used: nat,
    n: nat,
)
    requires
        i <= indices.len(),
        used <= votes.len(),
        walk_from(indices, votes, lookup, candidate_hash, c, i, used) == Ok::<
            nat,
            BackingError,
        >(n),
    ensures
        used + count_ones(indices.skip(i as int)) <= votes.len() ==> n == used + count_ones(
            indices.skip(i as int),
        ),
        used + count_ones(indices.skip(i as int)) > votes.len() ==> n == votes.len(),
        forall|k: int|
            used <= k < n ==> vote_verified(
                indices,
                votes,
                lookup,
                candidate_hash,
                c,
                i,
                used,
                k,
            ),
    decreases indices.len() - i,
{
    if i >= indices.len() {
        assert(indices.skip(i as int) =~= Seq::<bool>::empty());
        assert(count_ones(indices.skip(i as int)) == 0);
    } else {
        let tail = indices.skip(i as int);
        assert(tail[0] == indices[i as int]);
        assert(tail.skip(1) =~= indices.skip(i + 1 as int));
        assert(count_ones(tail) == (if indices[i as int] {
            1nat
        } else {
            0nat
        }) + count_ones(indices.skip(i + 1 as int)));
        if !indices[i as int] {
            lemma_walk_ok(indices, votes, lookup, candidate_hash, c, i + 1, used, n);
            assert forall|k: int| used <= k < n implies vote_verified(
                indices,
                votes,
                lookup,
                candidate_hash,
                c,
                i,
                used,
                k,
            ) by {
                assert(vote_verified(indices, votes, lookup, candidate_hash, c, i + 1, used, k));
                assert(nth_set_bit_from(indices, i, (k - used) as nat) == nth_set_bit_from(
                    indices,
                    i + 1,
                    (k - used) as nat,
                ));
            }
        } else if used >= votes.len() {
            assert(n == used && used == votes.len());
        } else {
            lemma_walk_ok(indices, votes, lookup, candidate_hash, c, i + 1, used + 1, n);
            assert forall|k: int| used <= k < n implies vote_verified(
                indices,
                votes,
                lookup,
                candidate_hash,
                c,
                i,
                used,
                k,
            ) by {
                if k == used {
                    assert(nth_set_bit_from(indices, i, 0) == i as int);
                } else {
                    assert(vote_verified(
                        indices,
                        votes,
                        lookup,
                        candidate_hash,
                        c,
                        i + 1,
                        used + 1,
                        k,
                    ));
                    assert(nth_set_bit_from(indices, i, (k - used) as nat) == nth_set_bit_from(
                        indices,
                        i + 1,
                        (k - (used + 1)) as nat,
                    ));
                }
            }
        }
    }
}

/// Law: no partial acceptance — when the backing check succeeds, the
/// number of signatures checked equals both the vote count and the number
/// of set bits, and every vote in order was verified against the
/// validator of its paired set bit.
pub proof fn lemma_backing_ok_all_verified(
    indices: Seq<bool>,
    votes: Seq<ValidityAttestation>,
    lookup: Seq<Option<ValidatorId>>,
    candidate_hash: Seq<u8>,
    c: SigningContext,
    group_len: int,
    n: nat,
)
    requires
        backing_outcome(indices, votes, lookup, candidate_hash, c, group_len) == Ok::<
            nat,
            BackingError,
        >(n),
    ensures
        n == votes.len(),
        count_ones(indices) == votes.len(),
        forall|k: int|
            0 <= k < votes.len() ==> vote_verified(
                indices,
                votes,
                lookup,
                candidate_hash,
                c,
                0,
                0,
                k,
            ),
{
    let r = walk_from(indices, votes, lookup, candidate_hash, c, 0, 0);
    assert(r is Ok && r->Ok_0 == n);
    lemma_walk_ok(indices, votes, lookup, candidate_hash, c, 0, 0, n);
    assert(indices.skip(0) =~= indices);
}


/// The encoding of an attestation: a stable tag byte — implicit one,
/// explicit two — then the 64 signature bytes.
pub open spec fn enc_attestation(a: ValidityAttestation) -> Seq<u8> {
    match a {
        ValidityAttestation::Implicit(s) => seq![1u8] + s.0@,
        ValidityAttestation::Explicit(s) => seq![2u8] + s.0@,
    }
}

/// Attestations with the same encoding prefix are the same vote.
pub open spec fn eq_attestation(a: ValidityAttestation, b: ValidityAttestation) -> bool {
    &&& (a is Implicit <==> b is Implicit)
    &&& attestation_signature(a).0@ == attestation_signature(b).0@
}

/// Append the encoding of `a` to `out`.
pub fn encode_attestation(a: &ValidityAttestation, out: &mut Vec<u8>)
    ensures
        final(out)@ == old(out)@ + enc_attestation(*a),
{
    match a {
        ValidityAttestation::Implicit(s) => {
            out.push(1u8);
            out.extend_from_slice(s.0.as_slice());
        },
        ValidityAttestation::Explicit(s) => {
            out.push(2u8);
            out.extend_from_slice(s.0.as_slice());
        },
    }
    assert(out@ =~= old(out)@ + enc_attestation(*a));
}

/// Read an attestation: a tag byte, then 64 signature bytes.
///
/// Fails exactly when no attestation's encoding begins there: an unknown
/// tag or too few bytes.
pub fn decode_attestation(bytes: &Vec<u8>, pos: usize) -> (r: Option<(ValidityAttestation, usize)>)
    ensures
        r matches Some(p) ==> pos <= p.1 <= bytes@.len() && p.0.wf()
            && bytes@.subrange(pos as int, p.1 as int) == enc_attestation(p.0),
        r is None ==> forall|a: ValidityAttestation|
            a.wf() ==> !crate::codec::starts_with_at(bytes@, pos as int, enc_attestation(a)),
{
    if pos >= bytes.len() {
        return None;
    }
    let tag = bytes[pos];
    if tag != 1 && tag != 2 {
        proof {
            assert forall|a: ValidityAttestation| a.wf() implies !crate::codec::starts_with_at(
                bytes@,
                pos as int,
                enc_attestation(a),
            ) by {
                if crate::codec::starts_with_at(bytes@, pos as int, enc_attestation(a)) {
                    crate::codec::lemma_starts_with_index(bytes@, pos as int, enc_attestation(a), 0);
                }
            }
        }
        return None;
    }
    let (sig, end) = match crate::codec::decode_fixed(bytes, pos + 1, 64) {
        Some(x) => x,
        None => {
            proof {
                assert forall|a: ValidityAttestation| a.wf() implies !crate::codec::starts_with_at(
                    bytes@,
                    pos as int,
                    enc_attestation(a),
                ) by {
                    if crate::codec::starts_with_at(bytes@, pos as int, enc_attestation(a)) {
                        assert(enc_attestation(a).len() == 65);
                    }
                }
            }
            return None;
        },
    };
    let a = if tag == 1 {
        ValidityAttestation::Implicit(ValidatorSignature(sig))
    } else {
        ValidityAttestation::Explicit(ValidatorSignature(sig))
    };
    proof {
        assert(bytes@.subrange(pos as int, end as int) =~= enc_attestation(a));
    }
    Some((a, end))
}

/// Two well-formed attestations whose encodings begin at the same place
/// are the same vote.
pub proof fn lemma_enc_attestation_prefix_secure(
    s: Seq<u8>,
    pos: int,
    a: ValidityAttestation,
    b: ValidityAttestation,
)
    requires
        a.wf(),
        b.wf(),
        crate::codec::starts_with_at(s, pos, enc_attestation(a)),
        crate::codec::starts_with_at(s, pos, enc_attestation(b)),
    ensures
        eq_attestation(a, b),
{
    crate::codec::lemma_starts_with_index(s, pos, enc_attestation(a), 0);
    crate::codec::lemma_starts_with_index(s, pos, enc_attestation(b), 0);
    assert forall|i: int| 0 <= i < 64 implies attestation_signature(a).0@[i]
        == attestation_signature(b).0@[i] by {
        crate::codec::lemma_starts_with_index(s, pos, enc_attestation(a), i + 1);
        crate::codec::lemma_starts_with_index(s, pos, enc_attestation(b), i + 1);
    }
    assert(attestation_signature(a).0@ =~= attestation_signature(b).0@);
}

/// The concatenated encodings of a sequence of attestations.
pub open spec fn concat_enc_attestations(l: Seq<ValidityAttestation>) -> Seq<u8>
    decreases l.len(),
{
    if l.len() == 0 {
        Seq::empty()
    } else {
        enc_attestation(l[0]) + concat_enc_attestations(l.skip(1))
    }
}

/// Appending an attestation appends its encoding.
pub proof fn lemma_concat_enc_attestations_push(l: Seq<ValidityAttestation>, x: ValidityAttestation)
    ensures
        concat_enc_attestations(l.push(x)) == concat_enc_attestations(l) + enc_attestation(x),
    decreases l.len(),
{
    if l.len() == 0 {
        assert(l.push(x)[0] == x);
        assert(l.push(x).skip(1) =~= Seq::<ValidityAttestation>::empty());
        assert(concat_enc_attestations(l.push(x).skip(1)) == Seq::<u8>::empty());
        assert(concat_enc_attestations(l) == Seq::<u8>::empty());
        assert(enc_attestation(x) + Seq::<u8>::empty() =~= Seq::<u8>::empty() + enc_attestation(x));
        assert(concat_enc_attestations(l.push(x)) =~= concat_enc_attestations(l) + enc_attestation(
            x,
        ));
    } else {
        assert(l.push(x).skip(1) =~= l.skip(1).push(x));
        lemma_concat_enc_attestations_push(l.skip(1), x);
        assert(l.push(x)[0] == l[0]);
        assert(concat_enc_attestations(l.push(x)) == enc_attestation(l[0]) + (
        concat_enc_attestations(l.skip(1)) + enc_attestation(x)));
        assert(enc_attestation(l[0]) + (concat_enc_attestations(l.skip(1)) + enc_attestation(x))
            =~= (enc_attestation(l[0]) + concat_enc_attestations(l.skip(1))) + enc_attestation(x));
    }
}

/// The encoding of a sequence of attestations: count, then each.
pub open spec fn enc_attestation_list(l: Seq<ValidityAttestation>) -> Seq<u8> {
    crate::codec::enc_compact_u32(l.len() as u32) + concat_enc_attestations(l)
}

/// Append the encoding of the attestation list `v` to `out`.
pub fn encode_attestation_list(v: &Vec<ValidityAttestation>, out: &mut Vec<u8>)
    requires
        v@.len() <= u32::MAX,
    ensures
        final(out)@ == old(out)@ + enc_attestation_list(v@),
{
    crate::codec::encode_compact_u32(v.len() as u32, out);
    let mut i: usize = 0;
    proof {
        assert(v@.take(0) =~= Seq::<ValidityAttestation>::empty());
        assert(out@ =~= old(out)@ + crate::codec::enc_compact_u32(v@.len() as u32)
            + concat_enc_attestations(v@.take(0)));
    }
    while i < v.len()
        invariant
            i <= v@.len(),
            v@.len() <= u32::MAX,
            out@ == old(out)@ + crate::codec::enc_compact_u32(v@.len() as u32)
                + concat_enc_attestations(v@.take(i as int)),
        decreases v@.len() - i,
    {
        encode_attestation(&v[i], out);
        proof {
            lemma_concat_enc_attestations_push(v@.take(i as int), v@[i as int]);
            assert(v@.take(i as int).push(v@[i as int]) =~= v@.take(i + 1));
            assert(out@ =~= old(out)@ + crate::codec::enc_compact_u32(v@.len() as u32)
                + concat_enc_attestations(v@.take(i + 1)));
        }
        i = i + 1;
    }
    proof {
        assert(v@.take(v@.len() as int) =~= v@);
        assert(out@ =~= old(out)@ + enc_attestation_list(v@));
    }
}

/// The encoding of a backed candidate: the committed receipt, the votes,
/// then the group bitfield.
pub open spec fn enc_backed(b: BackedCandidate) -> Seq<u8> {
    crate::candidate::enc_committed(b.candidate) + enc_attestation_list(b.validity_votes@)
        + crate::bitfield::enc_bitfield(b.validator_indices@)
}

/// Append the encoding of `b` to `out`.
pub fn encode_backed(b: &BackedCandidate, out: &mut Vec<u8>)
    requires
        b.candidate.commitments.wf(),
        b.validity_votes@.len() <= u32::MAX,
        b.validator_indices@.len() <= u32::MAX,
    ensures
        final(out)@ == old(out)@ + enc_backed(*b),
{
    crate::candidate::encode_committed(&b.candidate, out);
    encode_attestation_list(&b.validity_votes, out);
    crate::bitfield::encode_bitfield(&b.validator_indices, out);
    assert(out@ =~= old(out)@ + enc_backed(*b));
}


/// An attestation list fit for the wire.
pub open spec fn attestation_list_wf(l: Seq<ValidityAttestation>) -> bool {
    l.len() <= u32::MAX && forall|k: int| 0 <= k < l.len() ==> (#[trigger] l[k]).wf()
}

/// Well-formed attestations encode to 65 bytes each.
pub proof fn lemma_concat_enc_attestations_len(l: Seq<ValidityAttestation>)
    requires
        forall|k: int| 0 <= k < l.len() ==> (#[trigger] l[k]).wf(),
    ensures
        concat_enc_attestations(l).len() == 65 * l.len(),
    decreases l.len(),
{
    if l.len() > 0 {
        assert(l[0].wf());
        assert(forall|k: int| 0 <= k < l.skip(1).len() ==> (#[trigger] l.skip(1)[k]).wf());
        lemma_concat_enc_attestations_len(l.skip(1));
    }
}

/// Two well-formed attestation lists of one length whose concatenated
/// encodings begin at the same place are equal vote by vote.
pub proof fn lemma_attestation_align(
    s: Seq<u8>,
    pos: int,
    a: Seq<ValidityAttestation>,
    b: Seq<ValidityAttestation>,
)
    requires
        a.len() == b.len(),
        forall|k: int| 0 <= k < a.len() ==> (#[trigger] a[k]).wf(),
        forall|k: int| 0 <= k < b.len() ==> (#[trigger] b[k]).wf(),
        crate::codec::starts_with_at(s, pos, concat_enc_attestations(a)),
        crate::codec::starts_with_at(s, pos, concat_enc_attestations(b)),
    ensures
        forall|k: int| 0 <= k < a.len() ==> eq_attestation(#[trigger] a[k], b[k]),
    decreases a.len(),
{
    if a.len() > 0 {
        crate::codec::lemma_starts_with_concat(
            s,
            pos,
            enc_attestation(a[0]),
            concat_enc_attestations(a.skip(1)),
        );
        crate::codec::lemma_starts_with_concat(
            s,
            pos,
            enc_attestation(b[0]),
            concat_enc_attestations(b.skip(1)),
        );
        lemma_enc_attestation_prefix_secure(s, pos, a[0], b[0]);
        lemma_attestation_align(s, pos + 65, a.skip(1), b.skip(1));
        assert forall|k: int| 0 <= k < a.len() implies eq_attestation(#[trigger] a[k], b[k]) by {
            if k > 0 {
                assert(a.skip(1)[k - 1] == a[k] && b.skip(1)[k - 1] == b[k]);
            }
        }
    }
}

/// When no attestation can be read where the next entry should stand, no
/// well-formed attestation list matches the whole region.
#[verifier::spinoff_prover]
#[verifier::rlimit(100)]
proof fn lemma_no_attestation_list_here(
    bytes: Seq<u8>,
    pos: int,
    p1: int,
    m: u32,
    acc: Seq<ValidityAttestation>,
    cur: int,
)
    requires
        crate::codec::starts_with_at(bytes, pos, crate::codec::enc_compact_u32(m)),
        p1 == pos + crate::codec::enc_compact_u32(m).len(),
        acc.len() < m,
        forall|k: int| 0 <= k < acc.len() ==> (#[trigger] acc[k]).wf(),
        p1 <= cur <= bytes.len(),
        bytes.subrange(p1, cur) == concat_enc_attestations(acc),
        forall|w: ValidityAttestation|
            w.wf() ==> !crate::codec::starts_with_at(bytes, cur, enc_attestation(w)),
    ensures
        forall|l: Seq<ValidityAttestation>|
            attestation_list_wf(l) ==> !crate::codec::starts_with_at(
                bytes,
                pos,
                enc_attestation_list(l),
            ),
{
    assert forall|l: Seq<ValidityAttestation>| attestation_list_wf(l)
        implies !crate::codec::starts_with_at(bytes, pos, enc_attestation_list(l)) by {
        if crate::codec::starts_with_at(bytes, pos, enc_attestation_list(l)) {
            assert(false) by {
                crate::codec::lemma_starts_with_concat(
                    bytes,
                    pos,
                    crate::codec::enc_compact_u32(l.len() as u32),
                    concat_enc_attestations(l),
                );
                crate::codec::lemma_compact_prefix_secure(bytes, pos, l.len() as u32, m);
                assert(l.len() == m);
                lemma_attestation_align_prefix(bytes, p1, acc, l);
                let rest = l.skip(acc.len() as int);
                assert(crate::codec::starts_with_at(bytes, cur, concat_enc_attestations(rest)));
                assert(rest.len() > 0);
                assert(concat_enc_attestations(rest) == enc_attestation(rest[0])
                    + concat_enc_attestations(rest.skip(1)));
                crate::codec::lemma_starts_with_concat(
                    bytes,
                    cur,
                    enc_attestation(rest[0]),
                    concat_enc_attestations(rest.skip(1)),
                );
                assert(rest[0] == l[acc.len() as int]);
                assert(rest[0].wf());
            }
        }
    }
}

/// Matching a prefix of a longer attestation list leaves the rest of the
/// longer list matched right after.
pub proof fn lemma_attestation_align_prefix(
    s: Seq<u8>,
    pos: int,
    a: Seq<ValidityAttestation>,
    l: Seq<ValidityAttestation>,
)
    requires
        a.len() <= l.len(),
        forall|k: int| 0 <= k < a.len() ==> (#[trigger] a[k]).wf(),
        forall|k: int| 0 <= k < l.len() ==> (#[trigger] l[k]).wf(),
        crate::codec::starts_with_at(s, pos, concat_enc_attestations(a)),
        crate::codec::starts_with_at(s, pos, concat_enc_attestations(l)),
    ensures
        crate::codec::starts_with_at(
            s,
            pos + concat_enc_attestations(a).len(),
            concat_enc_attestations(l.skip(a.len() as int)),
        ),
    decreases a.len(),
{
    if a.len() == 0 {
        assert(l.skip(0) =~= l);
        assert(concat_enc_attestations(a).len() == 0);
    } else {
        crate::codec::lemma_starts_with_concat(
            s,
            pos,
            enc_attestation(a[0]),
            concat_enc_attestations(a.skip(1)),
        );
        crate::codec::lemma_starts_with_concat(
            s,
            pos,
            enc_attestation(l[0]),
            concat_enc_attestations(l.skip(1)),
        );
        lemma_enc_attestation_prefix_secure(s, pos, a[0], l[0]);
        lemma_attestation_align_prefix(s, pos + 65, a.skip(1), l.skip(1));
        assert(l.skip(1).skip(a.len() - 1) =~= l.skip(a.len() as int));
        assert(concat_enc_attestations(a).len() == 65 + concat_enc_attestations(a.skip(1)).len());
    }
}

/// Read a list of attestations: a compact count, then each.
///
/// Fails exactly when no well-formed list's encoding begins there.
#[verifier::rlimit(100)]
pub fn decode_attestation_list(bytes: &Vec<u8>, pos: usize) -> (r: Option<(
    Vec<ValidityAttestation>,
    usize,
)>)
    ensures
        r matches Some(p) ==> pos <= p.1 <= bytes@.len() && attestation_list_wf(p.0@)
            && bytes@.subrange(pos as int, p.1 as int) == enc_attestation_list(p.0@),
        r is None ==> forall|l: Seq<ValidityAttestation>|
            attestation_list_wf(l) ==> !crate::codec::starts_with_at(
                bytes@,
                pos as int,
                enc_attestation_list(l),
            ),
{
    let (m, p1) = match crate::codec::decode_compact_u32(bytes, pos) {
        Some(x) => x,
        None => {
            proof {
                assert forall|l: Seq<ValidityAttestation>| attestation_list_wf(l)
                    implies !crate::codec::starts_with_at(
                    bytes@,
                    pos as int,
                    enc_attestation_list(l),
                ) by {
                    if crate::codec::starts_with_at(
                        bytes@,
                        pos as int,
                        enc_attestation_list(l),
                    ) {
                        crate::codec::lemma_starts_with_concat(
                            bytes@,
                            pos as int,
                            crate::codec::enc_compact_u32(l.len() as u32),
                            concat_enc_attestations(l),
                        );
                    }
                }
            }
            return None;
        },
    };
    let mu = m as usize;
    let mut acc: Vec<ValidityAttestation> = Vec::new();
    let mut cur: usize = p1;
    let mut i: usize = 0;
    proof {
        assert(bytes@.subrange(p1 as int, p1 as int) =~= concat_enc_attestations(acc@));
        assert(crate::codec::starts_with_at(
            bytes@,
            pos as int,
            crate::codec::enc_compact_u32(m),
        ));
    }
    while i < mu
        invariant
            mu == m,
            i <= mu,
            p1 <= cur <= bytes@.len(),
            pos <= p1,
            acc@.len() == i,
            forall|k: int| 0 <= k < acc@.len() ==> (#[trigger] acc@[k]).wf(),
            bytes@.subrange(p1 as int, cur as int) == concat_enc_attestations(acc@),
            crate::codec::starts_with_at(bytes@, pos as int, crate::codec::enc_compact_u32(m)),
            p1 == pos + crate::codec::enc_compact_u32(m).len(),
        decreases mu - i,
    {
        let (vote, c1) = match decode_attestation(bytes, cur) {
            Some(x) => x,
            None => {
                proof {
                    lemma_no_attestation_list_here(
                        bytes@,
                        pos as int,
                        p1 as int,
                        m,
                        acc@,
                        cur as int,
                    );
                }
                return None;
            },
        };
        let ghost old_acc = acc@;
        acc.push(vote);
        proof {
            lemma_concat_enc_attestations_push(old_acc, acc@[i as int]);
            assert(bytes@.subrange(p1 as int, c1 as int) =~= bytes@.subrange(
                p1 as int,
                cur as int,
            ) + bytes@.subrange(cur as int, c1 as int));
        }
        cur = c1;
        i = i + 1;
    }
    proof {
        assert(acc@.len() == m);
        assert(crate::codec::starts_with_at(bytes@, p1 as int, concat_enc_attestations(acc@)));
        crate::codec::lemma_concat_starts_with(
            bytes@,
            pos as int,
            crate::codec::enc_compact_u32(m),
            concat_enc_attestations(acc@),
        );
        assert(bytes@.subrange(pos as int, cur as int) == enc_attestation_list(acc@));
    }
    Some((acc, cur))
}


impl BackedCandidate {
    /// Fit for the wire: the candidate, votes and bitfield all fit their
    /// prefixes.
    pub open spec fn enc_wf(&self) -> bool {
        self.candidate.wf() && attestation_list_wf(self.validity_votes@)
            && self.validator_indices@.len() <= u32::MAX
    }
}

/// No backed candidate matches when no attestation list follows the
/// committed receipt.
#[verifier::spinoff_prover]
#[verifier::rlimit(100)]
proof fn lemma_no_backed_votes(
    bytes: Seq<u8>,
    pos: int,
    p1: int,
    cand: CommittedCandidateReceipt,
)
    requires
        cand.wf(),
        0 <= pos <= p1 <= bytes.len(),
        bytes.subrange(pos, p1) == crate::candidate::enc_committed(cand),
        forall|l: Seq<ValidityAttestation>|
            attestation_list_wf(l) ==> !crate::codec::starts_with_at(
                bytes,
                p1,
                enc_attestation_list(l),
            ),
    ensures
        forall|b: BackedCandidate|
            b.enc_wf() ==> !crate::codec::starts_with_at(bytes, pos, enc_backed(b)),
{
    assert forall|b: BackedCandidate| b.enc_wf() implies !crate::codec::starts_with_at(
        bytes,
        pos,
        enc_backed(b),
    ) by {
        if crate::codec::starts_with_at(bytes, pos, enc_backed(b)) {
            assert(false) by {
                crate::codec::lemma_starts_with_concat(
                    bytes,
                    pos,
                    crate::candidate::enc_committed(b.candidate) + enc_attestation_list(
                        b.validity_votes@,
                    ),
                    crate::bitfield::enc_bitfield(b.validator_indices@),
                );
                crate::codec::lemma_starts_with_concat(
                    bytes,
                    pos,
                    crate::candidate::enc_committed(b.candidate),
                    enc_attestation_list(b.validity_votes@),
                );
                crate::candidate::lemma_enc_committed_extent_secure(
                    bytes,
                    pos,
                    b.candidate,
                    cand,
                );
                assert(crate::codec::starts_with_at(
                    bytes,
                    p1,
                    enc_attestation_list(b.validity_votes@),
                ));
            }
        }
    }
}

/// No backed candidate matches when no bitfield follows the votes.
#[verifier::spinoff_prover]
#[verifier::rlimit(100)]
proof fn lemma_no_backed_bitfield(
    bytes: Seq<u8>,
    pos: int,
    p1: int,
    p2: int,
    cand: CommittedCandidateReceipt,
    votes: Seq<ValidityAttestation>,
)
    requires
        cand.wf(),
        attestation_list_wf(votes),
        0 <= pos <= p1 <= p2 <= bytes.len(),
        bytes.subrange(pos, p1) == crate::candidate::enc_committed(cand),
        bytes.subrange(p1, p2) == enc_attestation_list(votes),
        forall|s: Seq<bool>|
            s.len() <= u32::MAX ==> !crate::codec::starts_with_at(
                bytes,
                p2,
                crate::bitfield::enc_bitfield(s),
            ),
    ensures
        forall|b: BackedCandidate|
            b.enc_wf() ==> !crate::codec::starts_with_at(bytes, pos, enc_backed(b)),
{
    assert forall|b: BackedCandidate| b.enc_wf() implies !crate::codec::starts_with_at(
        bytes,
        pos,
        enc_backed(b),
    ) by {
        if crate::codec::starts_with_at(bytes, pos, enc_backed(b)) {
            assert(false) by {
                crate::codec::lemma_starts_with_concat(
                    bytes,
                    pos,
                    crate::candidate::enc_committed(b.candidate) + enc_attestation_list(
                        b.validity_votes@,
                    ),
                    crate::bitfield::enc_bitfield(b.validator_indices@),
                );
                crate::codec::lemma_starts_with_concat(
                    bytes,
                    pos,
                    crate::candidate::enc_committed(b.candidate),
                    enc_attestation_list(b.validity_votes@),
                );
                crate::candidate::lemma_enc_committed_extent_secure(
                    bytes,
                    pos,
                    b.candidate,
                    cand,
                );
                crate::codec::lemma_starts_with_concat(
                    bytes,
                    p1,
                    crate::codec::enc_compact_u32(b.validity_votes@.len() as u32),
                    concat_enc_attestations(b.validity_votes@),
                );
                crate::codec::lemma_starts_with_concat(
                    bytes,
                    p1,
                    crate::codec::enc_compact_u32(votes.len() as u32),
                    concat_enc_attestations(votes),
                );
                crate::codec::lemma_compact_prefix_secure(
                    bytes,
                    p1,
                    b.validity_votes@.len() as u32,
                    votes.len() as u32,
                );
                lemma_concat_enc_attestations_len(b.validity_votes@);
                lemma_concat_enc_attestations_len(votes);
                assert(enc_attestation_list(b.validity_votes@).len() == enc_attestation_list(
                    votes,
                ).len());
                assert(crate::codec::starts_with_at(
                    bytes,
                    p2,
                    crate::bitfield::enc_bitfield(b.validator_indices@),
                ));
            }
        }
    }
}

/// Read a backed candidate: the committed receipt, the votes, then the
/// group bitfield.
///
/// Fails exactly when no well-formed backed candidate's encoding begins
/// there.
#[verifier::spinoff_prover]
#[verifier::rlimit(100)]
pub fn decode_backed(bytes: &Vec<u8>, pos: usize) -> (r: Option<(BackedCandidate, usize)>)
    ensures
        r matches Some(p) ==> pos <= p.1 <= bytes@.len() && p.0.enc_wf()
            && bytes@.subrange(pos as int, p.1 as int) == enc_backed(p.0),
        r is None ==> forall|b: BackedCandidate|
            b.enc_wf() ==> !crate::codec::starts_with_at(bytes@, pos as int, enc_backed(b)),
{
    let (candidate, p1) = match crate::candidate::decode_committed(bytes, pos) {
        Some(x) => x,
        None => {
            proof {
                assert forall|b: BackedCandidate| b.enc_wf()
                    implies !crate::codec::starts_with_at(bytes@, pos as int, enc_backed(b)) by {
                    if crate::codec::starts_with_at(bytes@, pos as int, enc_backed(b)) {
                        crate::codec::lemma_starts_with_concat(
                            bytes@,
                            pos as int,
                            crate::candidate::enc_committed(b.candidate) + enc_attestation_list(
                                b.validity_votes@,
                            ),
                            crate::bitfield::enc_bitfield(b.validator_indices@),
                        );
                        crate::codec::lemma_starts_with_concat(
                            bytes@,
                            pos as int,
                            crate::candidate::enc_committed(b.candidate),
                            enc_attestation_list(b.validity_votes@),
                        );
                    }
                }
            }
            return None;
        },
    };
    let (validity_votes, p2) = match decode_attestation_list(bytes, p1) {
        Some(x) => x,
        None => {
            proof {
                lemma_no_backed_votes(bytes@, pos as int, p1 as int, candidate);
            }
            return None;
        },
    };
    let (validator_indices, p3) = match crate::bitfield::decode_bitfield(bytes, p2) {
        Some(x) => x,
        None => {
            proof {
                lemma_no_backed_bitfield(
                    bytes@,
                    pos as int,
                    p1 as int,
                    p2 as int,
                    candidate,
                    validity_votes@,
                );
            }
            return None;
        },
    };
    let b = BackedCandidate { candidate, validity_votes, validator_indices };
    proof {
        assert(bytes@.subrange(pos as int, p3 as int) =~= enc_backed(b));
    }
    Some((b, p3))
}

} // verus!
