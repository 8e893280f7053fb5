//! The multi-file protocol: packets, connections and the dispatcher state.
use vstd::prelude::*;

pub mod packet;
pub mod connection;
pub mod scheduler;
pub mod dispatcher;

verus! {

/// An Ethernet interface that transfers run on. Binding it to a link, in
/// sending or receiving mode, is the caller's part.
pub struct Interface {}

} // verus!
