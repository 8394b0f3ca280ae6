//! The rotation engine: pure arithmetic every node recomputes identically
//! to agree on which validator group is responsible for which core at a
//! given relay-chain height.

use vstd::prelude::*;
use vstd::arithmetic::div_mod::{lemma_add_mod_noop, lemma_mod_bound, lemma_small_mod};
use crate::primitives::BlockNumber;

verus! {

/// The unique (during a session) index of an availability core.
#[derive(Clone, Copy, Debug, Default, PartialEq, Eq, PartialOrd, Ord, Hash, Structural)]
pub struct CoreIndex(pub u32);

impl core::convert::From<u32> for CoreIndex {
    fn from(i: u32) -> (r: CoreIndex) {
        CoreIndex(i)
    }
}

impl vstd::std_specs::convert::FromSpecImpl<u32> for CoreIndex {
    open spec fn obeys_from_spec() -> bool {
        true
    }

    open spec fn from_spec(i: u32) -> CoreIndex {
        CoreIndex(i)
    }
}

/// The unique (during a session) index of a validator group.
#[derive(Clone, Copy, Debug, Default, PartialEq, Eq, Hash, Structural)]
pub struct GroupIndex(pub u32);

impl core::convert::From<u32> for GroupIndex {
    fn from(i: u32) -> (r: GroupIndex) {
        GroupIndex(i)
    }
}

impl vstd::std_specs::convert::FromSpecImpl<u32> for GroupIndex {
    open spec fn obeys_from_spec() -> bool {
        true
    }

    open spec fn from_spec(i: u32) -> GroupIndex {
        GroupIndex(i)
    }
}

/// A helper value for tracking validator-group rotations: a pure value
/// type, recomputed at every query, never stored mutable state.
#[derive(Clone, Copy, Debug, PartialEq, Eq, Structural)]
pub struct GroupRotationInfo {
    /// The block number at which the session started.
    pub session_start_block: BlockNumber,
    /// How often groups rotate; zero means never.
    pub group_rotation_frequency: BlockNumber,
    /// The current block number.
    pub now: BlockNumber,
}

/// Subtraction on block numbers that never underflows: heights before the
/// session start count as zero elapsed blocks.
pub open spec fn sat_sub(a: u32, b: u32) -> int {
    if a >= b {
        a - b
    } else {
        0
    }
}

/// The group responsible for a core: with rotation disabled the core
/// index itself; with no cores, group zero; otherwise the core index
/// shifted by one position per whole rotation period elapsed since the
/// session start, cyclically among `min(cores, u32::MAX)` cores.
pub open spec fn spec_group_for_core(info: GroupRotationInfo, core_index: u32, cores: int) -> int {
    if info.group_rotation_frequency == 0 {
        core_index as int
    } else if cores == 0 {
        0
    } else {
        let capped = if cores <= 0xFFFFFFFF {
            cores
        } else {
            0xFFFFFFFF
        };
        let rotations = sat_sub(info.now, info.session_start_block)
            / info.group_rotation_frequency as int;
        (core_index + rotations) % capped
    }
}

/// The height of the next rotation boundary strictly after `now`; zero
/// when rotation is disabled.
pub open spec fn spec_next_rotation_at(info: GroupRotationInfo) -> int {
    if info.group_rotation_frequency == 0 {
        0
    } else {
        let cycle = info.now + info.group_rotation_frequency;
        let offset = if cycle >= info.session_start_block {
            cycle - info.session_start_block
        } else {
            0
        };
        cycle - (offset % info.group_rotation_frequency as int)
    }
}

/// The height of the last rotation boundary at or before `now`; zero when
/// rotation is disabled.
pub open spec fn spec_last_rotation_at(info: GroupRotationInfo) -> int {
    if info.group_rotation_frequency == 0 {
        0
    } else {
        info.now - (sat_sub(info.now, info.session_start_block)
            % info.group_rotation_frequency as int)
    }
}

impl GroupRotationInfo {
    /// Returns the index of the group needed to validate the core at the
    /// given index, assuming the given number of cores.
    ///
    /// `core_index` should be less than `cores`, which is capped at the
    /// largest 32-bit value.
    pub fn group_for_core(&self, core_index: CoreIndex, cores: usize) -> (r: GroupIndex)
        ensures
            r.0 == spec_group_for_core(*self, core_index.0, cores as int),
    {
        if self.group_rotation_frequency == 0 {
            return GroupIndex(core_index.0);
        }
        if cores == 0 {
            return GroupIndex(0);
        }
        let capped: u32 = if cores >= u32::MAX as usize {
            u32::MAX
        } else {
            cores as u32
        };
        let elapsed = self.now.saturating_sub(self.session_start_block);
        let rotations = elapsed / self.group_rotation_frequency;
        let idx: u64 = (core_index.0 as u64 + rotations as u64) % (capped as u64);
        proof {
            assert(elapsed == sat_sub(self.now, self.session_start_block));
            assert(idx == (core_index.0 + rotations) % (capped as int));
        }
        GroupIndex(idx as u32)
    }

    /// Returns the block number of the next rotation after the current
    /// block: the smallest rotation boundary strictly greater than `now`.
    ///
    /// If the group rotation frequency is zero, returns zero.
    pub fn next_rotation_at(&self) -> (r: BlockNumber)
        requires
            self.now + self.group_rotation_frequency <= u32::MAX,
        ensures
            r == spec_next_rotation_at(*self),
    {
        if self.group_rotation_frequency == 0 {
            return 0;
        }
        let cycle = self.now + self.group_rotation_frequency;
        let offset = cycle.saturating_sub(self.session_start_block);
        let rem = offset % self.group_rotation_frequency;
        proof {
            assert(rem <= offset) by (nonlinear_arith)
                requires
                    rem == offset % self.group_rotation_frequency && self.group_rotation_frequency
                        > 0,
            ;
        }
        cycle - rem
    }

    /// Returns the block number of the last rotation before or including
    /// the current block: the largest rotation boundary not exceeding
    /// `now`.
    ///
    /// If the group rotation frequency is zero, returns zero.
    pub fn last_rotation_at(&self) -> (r: BlockNumber)
        ensures
            r == spec_last_rotation_at(*self),
    {
        if self.group_rotation_frequency == 0 {
            return 0;
        }
        let offset = self.now.saturating_sub(self.session_start_block);
        let rem = offset % self.group_rotation_frequency;
        proof {
            assert(rem <= offset) by (nonlinear_arith)
                requires
                    rem == offset % self.group_rotation_frequency && self.group_rotation_frequency
                        > 0,
            ;
        }
        self.now - rem
    }
}

/// Law: with rotation disabled, the responsible group is the core index
/// itself, whatever the current height.
pub proof fn lemma_no_rotation_group_is_core(info: GroupRotationInfo, core_index: u32, cores: int)
    requires
        info.group_rotation_frequency == 0,
    ensures
        spec_group_for_core(info, core_index, cores) == core_index,
{
}

/// Law: cores rotate in lockstep — at any height, consecutive cores are
/// assigned consecutive groups, cyclically.
pub proof fn lemma_rotation_lockstep(info: GroupRotationInfo, core_index: u32, cores: int)
    requires
        info.group_rotation_frequency > 0,
        0 < cores <= 0xFFFFFFFF,
        core_index + 1 < cores,
    ensures
        spec_group_for_core(info, (core_index + 1) as u32, cores) == (spec_group_for_core(
            info,
            core_index,
            cores,
        ) + 1) % cores,
{
    let rotations = sat_sub(info.now, info.session_start_block)
        / info.group_rotation_frequency as int;
    let x = core_index + rotations;
    let g = x % cores;
    lemma_add_mod_noop(x, 1, cores);
    assert((g + (1int % cores)) % cores == (x + 1) % cores);
    if cores == 1 {
        lemma_mod_bound(g + 1, cores);
        lemma_mod_bound(x + 1, cores);
    } else {
        lemma_small_mod(1nat, cores as nat);
        assert(1int % cores == 1);
    }
}


/// The encoding of rotation info: its three block numbers in order.
pub open spec fn enc_rotation_info(info: GroupRotationInfo) -> Seq<u8> {
    crate::codec::enc_u32(info.session_start_block) + crate::codec::enc_u32(
        info.group_rotation_frequency,
    ) + crate::codec::enc_u32(info.now)
}

/// Append the encoding of `info` to `out`.
pub fn encode_rotation_info(info: &GroupRotationInfo, out: &mut Vec<u8>)
    ensures
        final(out)@ == old(out)@ + enc_rotation_info(*info),
{
    crate::codec::encode_u32(info.session_start_block, out);
    crate::codec::encode_u32(info.group_rotation_frequency, out);
    crate::codec::encode_u32(info.now, out);
    assert(out@ =~= old(out)@ + enc_rotation_info(*info));
}

/// Read rotation info: three block numbers.
///
/// Fails exactly when fewer than twelve bytes remain.
pub fn decode_rotation_info(bytes: &Vec<u8>, pos: usize) -> (r: Option<(GroupRotationInfo, usize)>)
    ensures
        r matches Some(p) ==> p.1 == pos + 12 && p.1 <= bytes@.len()
            && bytes@.subrange(pos as int, p.1 as int) == enc_rotation_info(p.0),
        r is None ==> bytes@.len() < pos + 12,
{
    let (session_start_block, p1) = match crate::codec::decode_u32(bytes, pos) {
        Some(x) => x,
        None => {
            return None;
        },
    };
    let (group_rotation_frequency, p2) = match crate::codec::decode_u32(bytes, p1) {
        Some(x) => x,
        None => {
            return None;
        },
    };
    let (now, p3) = match crate::codec::decode_u32(bytes, p2) {
        Some(x) => x,
        None => {
            return None;
        },
    };
    let info = GroupRotationInfo { session_start_block, group_rotation_frequency, now };
    proof {
        assert(bytes@.subrange(pos as int, p3 as int) =~= enc_rotation_info(info));
    }
    Some((info, p3))
}

/// Law: three block numbers determine rotation info — the encoding is
/// unambiguous.
pub proof fn lemma_enc_rotation_info_injective(a: GroupRotationInfo, b: GroupRotationInfo)
    requires
        enc_rotation_info(a) == enc_rotation_info(b),
    ensures
        a == b,
{
    assert forall|i: int| 0 <= i < 4 implies crate::codec::enc_u32(a.session_start_block)[i]
        == crate::codec::enc_u32(b.session_start_block)[i] by {
        assert(enc_rotation_info(a)[i] == crate::codec::enc_u32(a.session_start_block)[i]);
        assert(enc_rotation_info(b)[i] == crate::codec::enc_u32(b.session_start_block)[i]);
    }
    assert(crate::codec::enc_u32(a.session_start_block) =~= crate::codec::enc_u32(
        b.session_start_block,
    ));
    crate::codec::lemma_enc_u32_injective(a.session_start_block, b.session_start_block);
    assert forall|i: int| 0 <= i < 4 implies crate::codec::enc_u32(a.group_rotation_frequency)[i]
        == crate::codec::enc_u32(b.group_rotation_frequency)[i] by {
        assert(enc_rotation_info(a)[4 + i] == crate::codec::enc_u32(a.group_rotation_frequency)[i]);
        assert(enc_rotation_info(b)[4 + i] == crate::codec::enc_u32(b.group_rotation_frequency)[i]);
    }
    assert(crate::codec::enc_u32(a.group_rotation_frequency) =~= crate::codec::enc_u32(
        b.group_rotation_frequency,
    ));
    crate::codec::lemma_enc_u32_injective(a.group_rotation_frequency, b.group_rotation_frequency);
    assert forall|i: int| 0 <= i < 4 implies crate::codec::enc_u32(a.now)[i]
        == crate::codec::enc_u32(b.now)[i] by {
        assert(enc_rotation_info(a)[8 + i] == crate::codec::enc_u32(a.now)[i]);
        assert(enc_rotation_info(b)[8 + i] == crate::codec::enc_u32(b.now)[i]);
    }
    assert(crate::codec::enc_u32(a.now) =~= crate::codec::enc_u32(b.now));
    crate::codec::lemma_enc_u32_injective(a.now, b.now);
}

} // verus!
