//! A password-seeded keystream cipher built on a Keccak sponge.
//!
//! The crate is organised in three layers, leaves first:
//! - [`permutation`]: the fixed Keccak-f[1600] transform over 25 lanes of 64
//!   bits, specified round by round and proved lane by lane;
//! - [`sponge`]: the absorb/pad/squeeze state machine ([`sponge::Keccak`])
//!   that owns the 1600-bit state and drives the permutation;
//! - [`alphabet`]: ordered symbol sequences with last-match-wins lookup, and
//!   the parser that reads one from a comma-separated line;
//! - [`cipher`]: the two keystream consumers — a byte-wise XOR cipher and a
//!   rejection-sampled substitution cipher over a bounded alphabet — together
//!   with the proved round-trip laws.

pub mod permutation;
pub mod sponge;
pub mod alphabet;
pub mod cipher;
