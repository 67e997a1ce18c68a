//! Error type shared by the engine and the callers around it.

use vstd::prelude::*;

verus! {

/// Unified error for the engine and the shims around it.
///
/// The engine itself only ever produces `Compute` (a statistic was requested
/// for a day that has no data yet) and `Parse` (a malformed value reached a
/// constructor); the remaining variants carry errors of the callers that
/// drive it.
#[derive(Debug, PartialEq, Eq)]
pub enum BotError {
    Config(String),
    Http(String),
    IO(String),
    Scheduler(String),
    AOC(String),
    ChannelSend(String),
    Slack(String),
    Compute(String),
    Parse,
}

pub type BotResult<T> = Result<T, BotError>;

} // verus!
