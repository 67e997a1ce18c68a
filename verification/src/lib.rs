//! Scoring engine for a multi-day coding-puzzle event.
//!
//! The crate models an append-only log of puzzle completions (a
//! [`leaderboard::Leaderboard`] of [`leaderboard::Entry`] records) and the
//! ranking algorithms computed over it: classic local-score and star-count
//! standings, three alternative season-long classifications, per-day
//! statistics over the public top-100 boards, and the structural diffing
//! used to announce what changed between two polls of the upstream source.

use vstd::prelude::*;

pub mod commands;
pub mod decay;
pub mod error;
pub mod highlights;
pub mod laws;
pub mod leaderboard;
pub mod order;
pub mod scores;
pub mod standings;
pub mod stats;
pub mod text;
pub mod time;

verus! {

} // verus!
