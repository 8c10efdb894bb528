//! Core of a multi-league sports competition: round-robin fixture
//! scheduling, week-by-week season advancement, match simulation, and
//! standings aggregation over an append-only matchup ledger.

pub mod conf;
pub mod handlers;
pub mod model;
pub mod models;
pub mod paths;
pub mod shared;
pub mod store;
pub mod util;

use vstd::prelude::*;

verus! {

/// Why an operation on the competition core was refused.
#[derive(Clone, Copy, Debug, PartialEq, Eq, Structural)]
pub enum Error {
    /// Malformed input, such as an odd number of teams handed to the
    /// round-robin scheduler.
    InvalidInput,
    /// A tier's roster has an odd number of teams, so no round-robin
    /// schedule exists for it.
    InvalidRosterSize,
    /// An identifier did not resolve to a stored entity.
    NotFound,
    /// The operation's precondition does not hold of the stored data,
    /// such as scheduling a tier with no teams at all.
    PreconditionViolated,
}

} // verus!
