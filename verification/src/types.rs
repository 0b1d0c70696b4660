//! Core value types crossing the runtime boundary: identifiers, channel
//! halves, messages and the status codes surfaced to nodes.

use vstd::prelude::*;

verus! {

/// A unique internal identifier for a node or pseudo-node instance.
#[derive(PartialEq, Eq, Structural, Clone, Copy, Debug)]
pub struct NodeId(pub u64);

/// The direction of one endpoint of a channel.
#[derive(PartialEq, Eq, Structural, Clone, Copy, Debug)]
pub enum ChannelHalfDirection {
    Read,
    Write,
}

/// One endpoint of a channel: which channel, and in which direction. The
/// direction of a half is immutable.
#[derive(PartialEq, Eq, Structural, Clone, Copy, Debug)]
pub struct ChannelHalf {
    pub channel_id: u64,
    pub direction: ChannelHalfDirection,
}

/// Status codes surfaced across the runtime boundary.
#[derive(PartialEq, Eq, Structural, Clone, Copy, Debug)]
pub enum OakStatus {
    ErrBadHandle,
    ErrInvalidArgs,
    ErrChannelClosed,
    ErrPermissionDenied,
    ErrTerminated,
    ErrInternal,
}

/// Per-channel verdict of a status probe or a multi-channel wait.
#[derive(PartialEq, Eq, Structural, Clone, Copy, Debug)]
pub enum ChannelReadStatus {
    NotReady,
    ReadReady,
    Orphaned,
    PermissionDenied,
    InvalidChannel,
}

/// Whether an operation is executed using the node's label-downgrading
/// privilege or without it. Privilege application is never implicit.
#[derive(PartialEq, Eq, Structural, Clone, Copy, Debug)]
pub enum Downgrading {
    No,
    Yes,
}

/// Whether a node instance is isolated from the outside world by a sandbox.
#[derive(PartialEq, Eq, Structural, Clone, Copy, Debug)]
pub enum NodeIsolation {
    Sandboxed,
    Uncontrolled,
}

/// A queued message: payload bytes plus the channel halves it carries from
/// sender to receiver.
#[derive(Debug, PartialEq)]
pub struct Message {
    pub data: Vec<u8>,
    pub channels: Vec<ChannelHalf>,
}

/// The node-facing form of a message: payload bytes plus handles relative to
/// one node's handle table.
#[derive(Debug, PartialEq)]
pub struct NodeMessage {
    pub bytes: Vec<u8>,
    pub handles: Vec<u64>,
}

/// Whether a runtime-internal read succeeded or needs larger capacities.
#[derive(Debug)]
pub enum ReadStatus {
    Success(Message),
    NeedsCapacity(usize, usize),
}

/// Whether a node-facing read succeeded or needs larger capacities.
#[derive(Debug)]
pub enum NodeReadStatus {
    Success(NodeMessage),
    NeedsCapacity(usize, usize),
}

/// Whether retrieving a serialized label succeeded or needs a larger buffer.
#[derive(Debug)]
pub enum LabelReadStatus {
    Success(Vec<u8>),
    NeedsCapacity(usize),
}

/// What a caller of the multi-channel wait must do next: give up because the
/// runtime is terminating, act on the statuses, or park the thread and call
/// again after being woken.
#[derive(Debug)]
pub enum WaitDecision {
    Terminated,
    Ready(Vec<ChannelReadStatus>),
    Park,
}

} // verus!
