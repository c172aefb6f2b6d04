//! Token lockups that unlock along a piecewise-linear schedule, with
//! draft-based staging of grants before funds arrive and authorized
//! termination (claw-back) of the unvested remainder, optionally bounded
//! by a vesting schedule committed to in advance by hash.

pub mod contract;
pub mod draft;
pub mod error;
pub mod lockup;
pub mod migrate;
pub mod schedule;
pub mod termination;
pub mod view;
