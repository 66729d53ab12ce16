//! The two failure kinds of the codec.

use vstd::prelude::*;

verus! {

/// Why an operation on transaction data failed.
///
/// `InsufficientBytes` means the input buffer ended before a fixed-width
/// field, a length prefix, or a declared-length payload could be read in
/// full. `InvalidFormat` is reserved for structurally malformed input that
/// is not a length shortfall, such as a textual transaction identifier
/// whose decoded byte length is wrong.
#[derive(Debug, PartialEq, Eq, Clone)]
pub enum BitcoinError {
    InsufficientBytes,
    InvalidFormat,
}

} // verus!
