use vstd::prelude::*;

verus! {

/// Why a Loom operation failed.
#[derive(Debug, Clone, Copy, PartialEq, Eq, Structural)]
pub enum LoomError {
    /// The input ended before the value being read was complete.
    UnexpectedEof,
    /// The input holds bytes that are not a valid encoding.
    InvalidData,
    /// An argument is out of the range the format can hold.
    InvalidInput,
}

} // verus!
