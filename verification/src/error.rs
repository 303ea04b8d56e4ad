//! The ways in which building a schema, encoding or decoding can fail.

use vstd::prelude::*;

verus! {

/// Why an operation of the codec failed.
#[derive(Debug, Clone, Copy, PartialEq, Eq, Structural)]
pub enum Error {
    /// A parameter's type is not a resolved ABI type.
    UnresolvedType,
    /// More topics are needed than the destination, or the transport, has
    /// slots for.
    TopicOverrun,
    /// An offset or a length in the data points outside the buffer, or
    /// behind the end of the member before it.
    DecodeBoundsError,
    /// The input does not have the layout that the schema asks for.
    TypeMismatch,
}

} // verus!
