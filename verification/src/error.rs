//! Error kinds surfaced by the storage substrate and the containers.

use vstd::prelude::*;

verus! {

/// Error raised by the host.
#[derive(Debug, Clone, Copy, PartialEq, Eq, Structural)]
pub struct HostError {
    /// The error code
    pub code: i32,
}

/// Every fallible operation of the library returns one of these kinds.
#[derive(Debug, Clone, Copy, PartialEq, Eq, Structural)]
pub enum Error {
    /// The allocator cannot satisfy a request within the region.
    OutOfSpace,
    /// A read or write crosses the region's end.
    OutOfBounds,
    /// A root-offset stack index is out of range.
    StackOverflow,
    /// A reloaded header disagrees with the caller's declared types.
    CodecMismatch,
    /// A codec rejected the bytes it was asked to decode.
    InvalidEncoding,
    /// An opaque error code raised by the host.
    Host(HostError),
}

} // verus!
