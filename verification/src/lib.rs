//! Simulation of secure multi-party computation over k-of-n replicated secret sharing.
pub mod assignment;
pub mod error;
pub mod mpc;
pub mod prng;
pub mod randomness;
pub mod sharing;

pub use sharing::bitadder::{full, full_adder, parallel_prefix, BitAdder, BitOps, PlainBits};
pub use sharing::{
    ArithRepSharing, ArithShare, ArithmeticShares, ArithmeticSharing, BinaryShares, BinarySharing,
    BitRepSharing, BitShare, PartyID, PartyShares, Shares,
};

use vstd::prelude::*;

verus! {

/// Default number of parties.
pub const DEFAULT_N: usize = 3;

/// Default reconstruction threshold.
pub const DEFAULT_K: usize = 2;

} // verus!
