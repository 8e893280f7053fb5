//! Protocol constants shared by the codecs and the connections.
use vstd::prelude::*;

verus! {

/// Length in bytes of the fixed packet header.
pub const EFT_HEADER_LENGTH: usize = 8;

/// Length in bytes of the header of the single-file variant.
pub const UFT_HEADER_LENGTH: usize = 8;

/// Number of fragments one file can have at most.
pub const MAX_OFFSET_LENGTH: usize = 320;

/// EtherType carried by every frame of the protocol.
pub const EFT_ETHER_TYPE: u16 = 0x0EF7;

/// EtherType of the single-file variant.
pub const UFT_ETHER_TYPE: u16 = 0x00FF;

/// Retransmit timeout, in milliseconds, given to a new connection.
pub const DEFAULT_RTO: u64 = 20;

} // verus!
