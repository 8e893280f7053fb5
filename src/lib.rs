//! Reliable file transfer over raw Ethernet frames: the wire codec, the
//! per-file sender and receiver state machines, and the scheduler that
//! interleaves many transfers on one link.
pub mod general;
pub mod error;
pub mod utils;
pub mod codec;
pub mod eft;
pub mod uft;
pub mod frame;
