//! Self-play engine for two-player, zero-sum, perfect-information games:
//! a PUCT-guided Monte Carlo tree search over an index-addressed node arena,
//! a self-play orchestrator that records training targets into a bounded
//! replay buffer, and a head-to-head evaluation orchestrator.
//!
//! Probabilities, value estimates and rewards are fixed-point integers
//! scaled by `UNIT`; policy targets are exact rationals (weight, total).

use vstd::prelude::*;

pub mod buffer;
pub mod demo;
pub mod env;
pub mod num;
pub mod runner;
pub mod sampling;
pub mod tree;

verus! {

/// One, in fixed-point scale: a probability of 1.0 or a value of +1.0.
pub const UNIT: i64 = 10000;

/// `UNIT` squared: the scale of a product of two fixed-point values.
pub const UNIT_SQ: i64 = 100000000;

/// Upper bound on a prior after exploration noise was mixed in.
pub const PRIOR_CAP: i64 = 20000;

/// Upper bound on the exploration constant `c_puct` (100 in fixed point).
pub const CPUCT_CAP: i64 = 1000000;

/// Upper bound on the number of simulations over the lifetime of one tree.
pub const SIM_CAP: u64 = 1048576;

/// Upper bound on the size of the action space.
pub const ACT_CAP: usize = 1048576;

} // verus!
