//! The errors of the library.
use vstd::prelude::*;

verus! {

/// What went wrong.
#[derive(Clone, Copy, Debug, PartialEq, Eq, Structural)]
pub enum TransferError {
    /// Interface, address or channel could not be set up.
    Config,
    /// A frame is too short, or its length disagrees with its header.
    Parse,
    /// An offset or a length lies beyond what a file can have.
    Offset,
    /// A bitset was asked for its length before one was declared.
    LengthUnset,
    /// A reader waits on a connection that no longer exists.
    StreamTerminated,
    /// A frame could not be handed to the link.
    Transmit,
}

} // verus!
