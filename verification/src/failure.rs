//! The ways in which building or querying a wavelet tree can fail.

use vstd::prelude::*;

verus! {

/// Why a construction or a query has no result.
#[derive(Debug, Clone, Copy, PartialEq, Eq, Structural)]
pub enum Failure {
    /// A position lies outside the structure that is asked about.
    OutOfRange,
    /// The count handed to a select query is 0, or larger than the number of
    /// occurrences.
    InvalidCount,
    /// The symbol has no code in the codex.
    UnknownSymbol,
    /// The alphabet has more symbols than codes of the fixed width can tell
    /// apart, so that two of them would share a code.
    CodexCollision,
}

} // verus!
