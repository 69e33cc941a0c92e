//! Fatal conditions that abort a snapshot run.

use vstd::prelude::*;

verus! {

/// A broken data contract or arithmetic fault. Every variant is fatal: the
/// run that meets one aborts and writes no output.
#[derive(Clone, Copy, Debug, PartialEq, Eq, Structural)]
pub enum SnapshotError {
    /// A delegation record arrived without its balance field.
    MissingBalance,
    /// A balance amount was not a decimal-encoded non-negative integer in range.
    InvalidAmount,
    /// Accumulating a stake amount would exceed the representable range.
    Overflow,
}

} // verus!
