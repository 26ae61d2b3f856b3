//! The error taxonomy shared by every operation of this crate.

use vstd::prelude::*;

verus! {

/// Why an operation of this crate failed.
///
/// Every error is reported to the immediate caller; nothing is swallowed or
/// retried internally except the verified writer's bounded retry loop.
#[derive(Debug, PartialEq, Eq, Structural)]
pub enum SerdeFlowError {
    /// The record's schema tag is neither the current variant nor a
    /// registered prior variant.
    VariantNotFound,
    /// The storage destination of a load does not exist.
    FileNotFound,
    /// The codec could not turn the value into bytes.
    EncodingFailed,
    /// The bytes could not be interpreted as a record.
    ParsingFailed,
    /// The data is too short to even carry a schema tag.
    FormatInvalid,
    /// A verified write exhausted its retry budget.
    FailedToWrite,
    /// An error that fits no other kind.
    Undefined,
    /// The storage layer itself failed.
    IOError,
}

} // verus!
