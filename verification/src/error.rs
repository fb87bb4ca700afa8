//! The ways in which an operation on the tree can fail.

use vstd::prelude::*;

verus! {

/// Why an operation did not apply. The tree is unchanged whenever one of
/// these is returned.
#[derive(Clone, Copy, Debug, PartialEq, Eq, Structural)]
pub enum MerkleError {
    /// A leaf index or an insert position at or beyond the tree's capacity.
    OutOfBounds,
    /// Text that is not an even number of hexadecimal digits.
    MalformedHex,
    /// A 32-byte chunk of a payload that spells a number not below the
    /// field's order.
    InvalidEncoding,
    /// A proof was asked of a tree whose node hashes were never computed.
    NotBuilt,
}

} // verus!
