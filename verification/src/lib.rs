//! Expected time to victory in a blockchain double-spend race.
//!
//! The race is modelled as an absorbing Markov chain over pairs
//! `(attacker height, honest lead)`, bounded by a reset policy that forces
//! the attacker to start over once the honest lead grows beyond the policy's
//! tolerance.  This crate holds the integer core of the model: the
//! enumeration of admissible reset policies, the dense indexing of the
//! transient race states together with the symbolic transition matrix, and
//! the step-by-step replay rules of the stochastic simulator.

use vstd::prelude::*;

pub mod analysis;
pub mod reset_policy;
pub mod simulation;

verus! {

/// A reset policy is usable when it has an entry for every attacker height
/// from zero up to the confirmation depth (so it is non-empty) and every
/// tolerated honest lead is non-negative.
pub open spec fn policy_ok(p: Seq<i64>) -> bool {
    &&& p.len() >= 1
    &&& forall|i: int| 0 <= i < p.len() ==> p[i] >= 0
}

} // verus!
