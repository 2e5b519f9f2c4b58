//! An incentivized commit-reveal randomness beacon.
//!
//! Registered groups of staked members jointly produce random values for
//! requesters.  Each request runs through a commit window and a reveal
//! window, both measured in blocks; members who fail to participate are
//! slashed a fraction of their reserved deposit when the request is
//! finalized.  A second, non-incentivized beacon folds a rolling window of
//! per-block entropy for callers that only need a cheap random value.

pub mod assoc;
pub mod currency;
pub mod flip;
pub mod hashing;
pub mod laws;
pub mod ledger;
pub mod model;
pub mod pallet;
