use vstd::prelude::*;

verus! {

/// Why a packet was not taken in, or none was sent out.
#[derive(Debug, PartialEq, Eq, Clone, Copy, Structural)]
pub enum Error {
    /// An incoming packet was too short for the fields that it claims to hold.
    Truncated,
    /// An incoming packet was self-contradictory, or made no sense in the current state.
    Malformed,
    /// An incoming packet had a wrong checksum.
    Checksum,
    /// An incoming packet was addressed elsewhere.
    Rejected,
    /// There is nothing to send.
    Exhausted,
}

} // verus!
