//! The introspection event stream: a chronologically ordered log of the
//! runtime's observable state changes.

use vstd::prelude::*;

use crate::types::ChannelHalfDirection;

verus! {

/// One introspection event. Events are appended to a single log, which gives
/// them a total order.
#[derive(PartialEq, Eq, Structural, Clone, Copy, Debug)]
pub enum Event {
    ChannelCreated { channel_id: u64 },
    HandleCreated { node_id: u64, handle: u64, channel_id: u64, direction: ChannelHalfDirection },
    HandleDestroyed { node_id: u64, handle: u64, channel_id: u64, direction: ChannelHalfDirection },
    MessageEnqueued { node_id: u64, channel_id: u64 },
    MessageDequeued { node_id: u64, channel_id: u64 },
    NodeCreated { node_id: u64 },
    NodeDestroyed { node_id: u64 },
}

} // verus!
