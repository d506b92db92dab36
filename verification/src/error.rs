use vstd::prelude::*;

verus! {

/// The two ways in which reading a value can fail.
#[derive(Debug, PartialEq, Eq, Clone, Structural)]
pub enum BitcoinError {
    /// The buffer ends before the field being read is complete.
    InsufficientBytes,
    /// The content of a field is malformed, whatever its length.
    InvalidFormat,
}

} // verus!
