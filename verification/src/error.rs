//! The ways in which an operation on the list can end without effect.

use vstd::prelude::*;

verus! {

/// Why an operation left the list as it was. Neither is a fault: a target
/// may be absent, and a value may be there already.
#[derive(Clone, Copy, Debug, PartialEq, Eq, Structural)]
pub enum SkipListError {
    /// No stored value compares equal to the target.
    NotFound,
    /// A stored value already compares equal to the one to insert.
    DuplicateKey,
}

} // verus!
