//! Verified primitives for a relay-chain style parachain consensus protocol:
//! the candidate data model with its canonical hashing rules, the backing
//! signature verifier, the validator-group rotation arithmetic, and the
//! availability-core scheduling state, together with the byte-exact wire
//! codec that every node must reproduce independently.

pub mod backing;
pub mod bitfield;
pub mod candidate;
pub mod codec;
pub mod cores;
pub mod crypto;
pub mod primitives;
pub mod rotation;
