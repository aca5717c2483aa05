//! A resumable, value-conserving reward distribution engine.
//!
//! A [`registry`] holds the participants. The [`sampler`] draws winners from
//! it without replacement. A [`checkpoint`] records a payout round in flight,
//! and the [`engine`] pays such a round out in bounded steps, so that a round
//! may be interrupted and taken up again without paying anyone twice or
//! leaving anyone out. Amounts are read from their bytes in [`amount`];
//! every refusal is an [`error::EngineError`].

pub mod amount;
pub mod checkpoint;
pub mod engine;
pub mod error;
pub mod registry;
pub mod sampler;
