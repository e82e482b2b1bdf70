//! The runtime's error kinds.
use vstd::prelude::*;

verus! {

/// Why an operation could not be carried out.
#[derive(Debug, Clone, Copy, PartialEq, Eq, Structural)]
pub enum HostError {
    /// The handle names no live buffer.
    UnknownBuffer,
    /// No route or stored entry answers the request.
    NotFound,
    /// A payload from the guest could not be read (bad encoding or framing).
    DecodeError,
    /// The guest failed or returned something that is not a status.
    InternalError,
}

} // verus!
