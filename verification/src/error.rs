//! The ways in which a request to this library can be refused.

use vstd::prelude::*;

verus! {

/// Why a request was refused.
#[derive(Clone, Copy, Debug, PartialEq, Eq, Structural)]
pub enum DiffError {
    /// A quorum that is not a fraction above zero and at most one.
    InvalidArgument,
    /// A tree nested more deeply than the caller allows.
    ResourceExhausted,
}

} // verus!
