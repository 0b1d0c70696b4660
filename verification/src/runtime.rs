//! The runtime core: per-node handle tables, labeled channels, information
//! flow checks, the multi-channel wait protocol, node lifecycle and the
//! introspection event stream, modeled as one state value. Concurrency is
//! layered above: callers serialize access and perform the parking, thread
//! management and unparking that the [`WaitDecision`] and the pending wakeup
//! queue ask of them.

use vstd::prelude::*;

use crate::channel::Channel;
use crate::channel::count_dec;
use crate::channel::count_inc;
use crate::channel::dec_count;
use crate::channel::inc_count;
use crate::events::Event;
use crate::label::Label;
use crate::label::LabelV;
use crate::label::flows_to_spec;
use crate::privilege::NodePrivilege;
use crate::privilege::downgrade_spec;
use crate::types::ChannelHalf;
use crate::types::ChannelHalfDirection;
use crate::types::ChannelReadStatus;
use crate::types::Downgrading;
use crate::types::Message;
use crate::types::NodeId;
use crate::types::OakStatus;
use crate::vecmap::VecMap;

verus! {

/// Runtime-specific state for one node instance. The label and privilege are
/// set at registration time and do not change after that.
pub struct NodeInfo {
    /// The display name of the node; it need not be unique and may be empty.
    pub name: String,
    /// The kind of the node, for bookkeeping output.
    pub node_type: String,
    /// The label assigned to the node at registration.
    pub label: Label,
    /// The downgrading privilege of the node.
    pub privilege: NodePrivilege,
    /// Map of handles to channel halves.
    pub abi_handles: VecMap<ChannelHalf>,
}

/// The runtime: all channels, all node tables, the termination flag, and the
/// introspection log. Tokens placed in `pending_wakeups` name threads that
/// the embedding must unpark; it drains them after each operation.
pub struct Runtime {
    pub terminating: bool,
    pub next_channel_id: u64,
    pub next_node_id: u64,
    pub channels: VecMap<Channel>,
    pub node_infos: VecMap<NodeInfo>,
    pub introspection_events: Vec<Event>,
    pub pending_wakeups: Vec<u64>,
}

impl Runtime {
    // ------------------------------------------------------------------
    // The mathematical model.
    // ------------------------------------------------------------------

    pub open spec fn node_exists(self, n: u64) -> bool {
        self.node_infos@.dom().contains(n)
    }

    pub open spec fn node(self, n: u64) -> NodeInfo {
        self.node_infos@[n]
    }

    pub open spec fn chan_exists(self, c: u64) -> bool {
        self.channels@.dom().contains(c)
    }

    pub open spec fn chan(self, c: u64) -> Channel {
        self.channels@[c]
    }

    /// The node holds `h` in its handle table.
    pub open spec fn has_half(self, n: u64, h: u64) -> bool {
        self.node_exists(n) && self.node(n).abi_handles@.dom().contains(h)
    }

    /// The half that handle `h` of node `n` names.
    pub open spec fn half(self, n: u64, h: u64) -> ChannelHalf {
        self.node(n).abi_handles@[h]
    }

    /// The half points at a channel that is present.
    pub open spec fn half_lives(self, h: ChannelHalf) -> bool {
        self.channels@.dom().contains(h.channel_id)
    }

    /// Every half embedded in the message points at a present channel.
    pub open spec fn msg_wf(self, m: crate::types::Message) -> bool {
        forall|j: int| 0 <= j < m.channels@.len() ==> self.half_lives(#[trigger] m.channels@[j])
    }

    pub open spec fn chan_wf(self, c: u64) -> bool {
        &&& self.chan(c).id == c
        &&& c < self.next_channel_id
        &&& forall|i: int| 0 <= i < self.chan(c).messages@.len()
            ==> self.msg_wf(#[trigger] self.chan(c).messages@[i])
    }

    pub open spec fn node_wf(self, n: u64) -> bool {
        &&& n < self.next_node_id
        &&& self.node(n).abi_handles.wf()
        &&& forall|h: u64| self.node(n).abi_handles@.dom().contains(h)
            ==> self.half_lives(#[trigger] self.node(n).abi_handles@[h])
    }

    /// Well-formedness of the whole runtime state: distinct keys in every
    /// table, identifiers below their allocators, and every half reachable
    /// from a table or a queued message pointing at a present channel.
    pub open spec fn wf(self) -> bool {
        &&& self.channels.wf()
        &&& self.node_infos.wf()
        &&& forall|c: u64| self.chan_exists(c) ==> #[trigger] self.chan_wf(c)
        &&& forall|n: u64| self.node_exists(n) ==> #[trigger] self.node_wf(n)
    }

    /// The label `initial` as the node may see it: downgraded through the
    /// node's privilege if and only if downgrading was requested.
    pub open spec fn effective_label(self, n: u64, initial: LabelV, downgrade: Downgrading) -> LabelV {
        match downgrade {
            Downgrading::Yes => downgrade_spec(self.node(n).privilege@, initial),
            Downgrading::No => initial,
        }
    }

    /// Node `n` may read from a source labeled `source`: the effective source
    /// label flows to the node's label.
    pub open spec fn can_read(self, n: u64, source: LabelV, downgrade: Downgrading) -> bool {
        flows_to_spec(self.effective_label(n, source, downgrade), self.node(n).label@)
    }

    /// Node `n` may write to a target labeled `target`: the node's effective
    /// label flows to the target label.
    pub open spec fn can_write(self, n: u64, target: LabelV, downgrade: Downgrading) -> bool {
        flows_to_spec(self.effective_label(n, self.node(n).label@, downgrade), target)
    }

    /// The readable status of channel `c` as seen by node `n`.
    pub open spec fn read_status(self, n: u64, c: u64, downgrade: Downgrading) -> ChannelReadStatus {
        if !self.can_read(n, self.chan(c).label@, downgrade) {
            ChannelReadStatus::PermissionDenied
        } else if self.chan(c).messages@.len() > 0 {
            ChannelReadStatus::ReadReady
        } else if self.chan(c).writer_count == 0 {
            ChannelReadStatus::Orphaned
        } else {
            ChannelReadStatus::NotReady
        }
    }

    // ------------------------------------------------------------------
    // Construction and simple state.
    // ------------------------------------------------------------------

    /// A fresh runtime with no nodes, no channels and an empty event log.
    pub fn new() -> (r: Runtime)
        ensures
            r.wf(),
            !r.terminating,
            r.next_channel_id == 0,
            r.next_node_id == 0,
            r.channels@ == Map::<u64, Channel>::empty(),
            r.node_infos@ == Map::<u64, NodeInfo>::empty(),
            r.introspection_events@ == Seq::<Event>::empty(),
            r.pending_wakeups@ == Seq::<u64>::empty(),
    {
        let r = Runtime {
            terminating: false,
            next_channel_id: 0,
            next_node_id: 0,
            channels: VecMap::new(),
            node_infos: VecMap::new(),
            introspection_events: Vec::new(),
            pending_wakeups: Vec::new(),
        };
        proof {
            assert(r.introspection_events@ =~= Seq::<Event>::empty());
            assert(r.pending_wakeups@ =~= Seq::<u64>::empty());
        }
        r
    }

    /// Whether the runtime is terminating.
    pub fn is_terminating(&self) -> (r: bool)
        ensures
            r == self.terminating,
    {
        self.terminating
    }

    /// Tokens the embedding must unpark, drained.
    pub fn take_pending_wakeups(&mut self) -> (r: Vec<u64>)
        ensures
            r@ == old(self).pending_wakeups@,
            (*final(self) == Runtime { pending_wakeups: final(self).pending_wakeups, ..*old(self) }),
            final(self).pending_wakeups@ == Seq::<u64>::empty(),
    {
        let mut out: Vec<u64> = Vec::new();
        core::mem::swap(&mut out, &mut self.pending_wakeups);
        proof {
            assert(self.pending_wakeups@ =~= Seq::<u64>::empty());
        }
        out
    }

    // ------------------------------------------------------------------
    // Handle resolution.
    // ------------------------------------------------------------------

    /// Convert a handle to the channel half it names in the node's table.
    pub fn abi_to_half(&self, node_id: NodeId, handle: u64) -> (r: Result<ChannelHalf, OakStatus>)
        requires
            self.wf(),
            self.node_exists(node_id.0),
        ensures
            r == (if self.has_half(node_id.0, handle) {
                Result::<ChannelHalf, OakStatus>::Ok(self.half(node_id.0, handle))
            } else {
                Result::<ChannelHalf, OakStatus>::Err(OakStatus::ErrBadHandle)
            }),
    {
        let info = match self.node_infos.get(node_id.0) {
            Some(info) => info,
            None => {
                proof {
                    assert(false);
                }
                return Err(OakStatus::ErrBadHandle);
            },
        };
        proof {
            assert(self.node_wf(node_id.0));
        }
        match info.abi_handles.get(handle) {
            Some(half) => Ok(*half),
            None => Err(OakStatus::ErrBadHandle),
        }
    }

    /// As [`Runtime::abi_to_half`], but the handle must name a read half.
    pub fn abi_to_read_half(&self, node_id: NodeId, handle: u64) -> (r: Result<
        ChannelHalf,
        OakStatus,
    >)
        requires
            self.wf(),
            self.node_exists(node_id.0),
        ensures
            r == (if self.has_half(node_id.0, handle)
                && self.half(node_id.0, handle).direction == ChannelHalfDirection::Read {
                Result::<ChannelHalf, OakStatus>::Ok(self.half(node_id.0, handle))
            } else {
                Result::<ChannelHalf, OakStatus>::Err(OakStatus::ErrBadHandle)
            }),
    {
        let half = self.abi_to_half(node_id, handle)?;
        match half.direction {
            ChannelHalfDirection::Read => Ok(half),
            ChannelHalfDirection::Write => Err(OakStatus::ErrBadHandle),
        }
    }

    /// As [`Runtime::abi_to_half`], but the handle must name a write half.
    pub fn abi_to_write_half(&self, node_id: NodeId, handle: u64) -> (r: Result<
        ChannelHalf,
        OakStatus,
    >)
        requires
            self.wf(),
            self.node_exists(node_id.0),
        ensures
            r == (if self.has_half(node_id.0, handle)
                && self.half(node_id.0, handle).direction == ChannelHalfDirection::Write {
                Result::<ChannelHalf, OakStatus>::Ok(self.half(node_id.0, handle))
            } else {
                Result::<ChannelHalf, OakStatus>::Err(OakStatus::ErrBadHandle)
            }),
    {
        let half = self.abi_to_half(node_id, handle)?;
        match half.direction {
            ChannelHalfDirection::Read => Err(OakStatus::ErrBadHandle),
            ChannelHalfDirection::Write => Ok(half),
        }
    }

    /// The direction of a handle.
    pub fn abi_direction(&self, node_id: NodeId, handle: u64) -> (r: Result<
        ChannelHalfDirection,
        OakStatus,
    >)
        requires
            self.wf(),
            self.node_exists(node_id.0),
        ensures
            r == (if self.has_half(node_id.0, handle) {
                Result::<ChannelHalfDirection, OakStatus>::Ok(
                    self.half(node_id.0, handle).direction,
                )
            } else {
                Result::<ChannelHalfDirection, OakStatus>::Err(OakStatus::ErrBadHandle)
            }),
    {
        let half = self.abi_to_half(node_id, handle)?;
        Ok(half.direction)
    }

    // ------------------------------------------------------------------
    // Labels, privileges and the information-flow checks.
    // ------------------------------------------------------------------

    /// A copy of the label associated with the node.
    pub fn get_node_label(&self, node_id: NodeId) -> (r: Label)
        requires
            self.wf(),
            self.node_exists(node_id.0),
        ensures
            r@ == self.node(node_id.0).label@,
    {
        let info = match self.node_infos.get(node_id.0) {
            Some(info) => info,
            None => {
                proof {
                    assert(false);
                }
                return Label::public_untrusted();
            },
        };
        info.label.duplicate()
    }

    /// A copy of the privilege associated with the node.
    pub fn get_node_privilege(&self, node_id: NodeId) -> (r: NodePrivilege)
        requires
            self.wf(),
            self.node_exists(node_id.0),
        ensures
            r@ == self.node(node_id.0).privilege@,
    {
        let info = match self.node_infos.get(node_id.0) {
            Some(info) => info,
            None => {
                proof {
                    assert(false);
                }
                return NodePrivilege::new(Vec::new(), Vec::new());
            },
        };
        info.privilege.duplicate()
    }

    /// The least restrictive label that the node may downgrade
    /// `initial_label` to, given all the privilege it holds.
    pub fn get_node_downgraded_label(&self, node_id: NodeId, initial_label: &Label) -> (r: Label)
        requires
            self.wf(),
            self.node_exists(node_id.0),
        ensures
            r@ == downgrade_spec(self.node(node_id.0).privilege@, initial_label@),
    {
        let node_privilege = self.get_node_privilege(node_id);
        node_privilege.downgrade_label(initial_label)
    }

    /// The effective label for `initial_label` in the context of the node,
    /// downgraded if and only if that was requested.
    pub fn get_effective_label(
        &self,
        node_id: NodeId,
        initial_label: &Label,
        downgrade: Downgrading,
    ) -> (r: Label)
        requires
            self.wf(),
            self.node_exists(node_id.0),
        ensures
            r@ == self.effective_label(node_id.0, initial_label@, downgrade),
    {
        match downgrade {
            Downgrading::Yes => self.get_node_downgraded_label(node_id, initial_label),
            Downgrading::No => initial_label.duplicate(),
        }
    }

    /// Whether the node may read from an entity with the given label: `Ok`
    /// exactly when the effective source label flows to the node's label.
    pub fn validate_can_read_from_label(
        &self,
        node_id: NodeId,
        source_label: &Label,
        downgrade: Downgrading,
    ) -> (r: Result<(), OakStatus>)
        requires
            self.wf(),
            self.node_exists(node_id.0),
        ensures
            r == (if self.can_read(node_id.0, source_label@, downgrade) {
                Result::<(), OakStatus>::Ok(())
            } else {
                Result::<(), OakStatus>::Err(OakStatus::ErrPermissionDenied)
            }),
    {
        let target_label = self.get_node_label(node_id);
        let effective_label = self.get_effective_label(node_id, source_label, downgrade);
        if effective_label.flows_to(&target_label) {
            Ok(())
        } else {
            Err(OakStatus::ErrPermissionDenied)
        }
    }

    /// Whether the node may write to an entity with the given label: `Ok`
    /// exactly when the node's effective label flows to the target label.
    pub fn validate_can_write_to_label(
        &self,
        node_id: NodeId,
        target_label: &Label,
        downgrade: Downgrading,
    ) -> (r: Result<(), OakStatus>)
        requires
            self.wf(),
            self.node_exists(node_id.0),
        ensures
            r == (if self.can_write(node_id.0, target_label@, downgrade) {
                Result::<(), OakStatus>::Ok(())
            } else {
                Result::<(), OakStatus>::Err(OakStatus::ErrPermissionDenied)
            }),
    {
        let original_label = self.get_node_label(node_id);
        let effective_label = self.get_effective_label(node_id, &original_label, downgrade);
        if effective_label.flows_to(target_label) {
            Ok(())
        } else {
            Err(OakStatus::ErrPermissionDenied)
        }
    }

    /// A copy of the label of the channel a read half points at.
    pub fn get_reader_channel_label(&self, channel_half: &ChannelHalf) -> (r: Result<
        Label,
        OakStatus,
    >)
        requires
            self.wf(),
            self.half_lives(*channel_half),
        ensures
            r is Ok <==> channel_half.direction == ChannelHalfDirection::Read,
            r is Ok ==> r->Ok_0@ == self.chan(channel_half.channel_id).label@,
            r is Err ==> r->Err_0 == OakStatus::ErrBadHandle,
    {
        match channel_half.direction {
            ChannelHalfDirection::Read => {
                let ch = match self.channels.get(channel_half.channel_id) {
                    Some(ch) => ch,
                    None => {
                        proof {
                            assert(false);
                        }
                        return Err(OakStatus::ErrBadHandle);
                    },
                };
                Ok(ch.label.duplicate())
            },
            ChannelHalfDirection::Write => Err(OakStatus::ErrBadHandle),
        }
    }

    /// A copy of the label of the channel a write half points at.
    pub fn get_writer_channel_label(&self, channel_half: &ChannelHalf) -> (r: Result<
        Label,
        OakStatus,
    >)
        requires
            self.wf(),
            self.half_lives(*channel_half),
        ensures
            r is Ok <==> channel_half.direction == ChannelHalfDirection::Write,
            r is Ok ==> r->Ok_0@ == self.chan(channel_half.channel_id).label@,
            r is Err ==> r->Err_0 == OakStatus::ErrBadHandle,
    {
        match channel_half.direction {
            ChannelHalfDirection::Write => {
                let ch = match self.channels.get(channel_half.channel_id) {
                    Some(ch) => ch,
                    None => {
                        proof {
                            assert(false);
                        }
                        return Err(OakStatus::ErrBadHandle);
                    },
                };
                Ok(ch.label.duplicate())
            },
            ChannelHalfDirection::Read => Err(OakStatus::ErrBadHandle),
        }
    }

    /// A copy of the label of the channel that a handle of the node names,
    /// whatever its direction.
    pub fn get_channel_label(&self, node_id: NodeId, handle: u64) -> (r: Result<Label, OakStatus>)
        requires
            self.wf(),
            self.node_exists(node_id.0),
        ensures
            r is Ok <==> self.has_half(node_id.0, handle),
            r is Ok ==> r->Ok_0@ == self.chan(self.half(node_id.0, handle).channel_id).label@,
            r is Err ==> r->Err_0 == OakStatus::ErrBadHandle,
    {
        let half = self.abi_to_half(node_id, handle)?;
        proof {
            assert(self.node_wf(node_id.0));
        }
        match half.direction {
            ChannelHalfDirection::Read => self.get_reader_channel_label(&half),
            ChannelHalfDirection::Write => self.get_writer_channel_label(&half),
        }
    }

    /// Whether the node may read from the channel a read half points at.
    pub fn validate_can_read_from_channel(
        &self,
        node_id: NodeId,
        channel_half: &ChannelHalf,
        downgrade: Downgrading,
    ) -> (r: Result<(), OakStatus>)
        requires
            self.wf(),
            self.node_exists(node_id.0),
            self.half_lives(*channel_half),
        ensures
            r == (if channel_half.direction != ChannelHalfDirection::Read {
                Result::<(), OakStatus>::Err(OakStatus::ErrBadHandle)
            } else if self.can_read(node_id.0, self.chan(channel_half.channel_id).label@, downgrade) {
                Result::<(), OakStatus>::Ok(())
            } else {
                Result::<(), OakStatus>::Err(OakStatus::ErrPermissionDenied)
            }),
    {
        let channel_label = match self.get_reader_channel_label(channel_half) {
            Ok(label) => label,
            Err(status) => {
                return Err(status);
            },
        };
        self.validate_can_read_from_label(node_id, &channel_label, downgrade)
    }

    /// Whether the node may write to the channel a write half points at.
    pub fn validate_can_write_to_channel(
        &self,
        node_id: NodeId,
        channel_half: &ChannelHalf,
        downgrade: Downgrading,
    ) -> (r: Result<(), OakStatus>)
        requires
            self.wf(),
            self.node_exists(node_id.0),
            self.half_lives(*channel_half),
        ensures
            r == (if channel_half.direction != ChannelHalfDirection::Write {
                Result::<(), OakStatus>::Err(OakStatus::ErrBadHandle)
            } else if self.can_write(node_id.0, self.chan(channel_half.channel_id).label@, downgrade) {
                Result::<(), OakStatus>::Ok(())
            } else {
                Result::<(), OakStatus>::Err(OakStatus::ErrPermissionDenied)
            }),
    {
        let channel_label = match self.get_writer_channel_label(channel_half) {
            Ok(label) => label,
            Err(status) => {
                return Err(status);
            },
        };
        self.validate_can_write_to_label(node_id, &channel_label, downgrade)
    }

    /// The readable status of the channel a read half points at, as seen by
    /// the node. Permission denial is reported as a status, not an error, so
    /// that a wait can return a per-channel verdict without aborting.
    pub fn channel_status(
        &self,
        node_id: NodeId,
        half: &ChannelHalf,
        downgrade: Downgrading,
    ) -> (r: Result<ChannelReadStatus, OakStatus>)
        requires
            self.wf(),
            self.node_exists(node_id.0),
            self.half_lives(*half),
        ensures
            r == (if half.direction != ChannelHalfDirection::Read {
                Result::<ChannelReadStatus, OakStatus>::Err(OakStatus::ErrBadHandle)
            } else {
                Result::<ChannelReadStatus, OakStatus>::Ok(
                    self.read_status(node_id.0, half.channel_id, downgrade),
                )
            }),
    {
        match self.validate_can_read_from_channel(node_id, half, downgrade) {
            Err(OakStatus::ErrPermissionDenied) => {
                return Ok(ChannelReadStatus::PermissionDenied);
            },
            Err(status) => {
                return Err(status);
            },
            Ok(()) => {},
        }
        let ch = match self.channels.get(half.channel_id) {
            Some(ch) => ch,
            None => {
                proof {
                    assert(false);
                }
                return Err(OakStatus::ErrBadHandle);
            },
        };
        if ch.messages.len() > 0 {
            Ok(ChannelReadStatus::ReadReady)
        } else if !ch.has_writers() {
            Ok(ChannelReadStatus::Orphaned)
        } else {
            Ok(ChannelReadStatus::NotReady)
        }
    }
}

/// Relies on `rand::thread_rng` and `rand_core::RngCore::next_u64` for a
/// uniformly random 64-bit value; nothing is assumed of the outcome.
#[verifier::external_body]
fn random_u64() -> u64 {
    rand::RngCore::next_u64(&mut rand::thread_rng())
}

/// The reference count of `ch` for one direction.
pub open spec fn dir_count(ch: Channel, dir: ChannelHalfDirection) -> u64 {
    match dir {
        ChannelHalfDirection::Read => ch.reader_count,
        ChannelHalfDirection::Write => ch.writer_count,
    }
}

/// The opposite direction.
pub open spec fn other_dir(dir: ChannelHalfDirection) -> ChannelHalfDirection {
    match dir {
        ChannelHalfDirection::Read => ChannelHalfDirection::Write,
        ChannelHalfDirection::Write => ChannelHalfDirection::Read,
    }
}

/// The termination flag and the identifier allocators are untouched.
pub open spec fn scalars_same(pre: Runtime, post: Runtime) -> bool {
    &&& post.terminating == pre.terminating
    &&& post.next_channel_id == pre.next_channel_id
    &&& post.next_node_id == pre.next_node_id
}

/// What releasing references may do to one channel: decrease its counts,
/// drop its queue, and empty its waiter list; never anything else.
pub open spec fn chan_weakened(a: Channel, b: Channel) -> bool {
    &&& b.id == a.id
    &&& b.name == a.name
    &&& b.label == a.label
    &&& b.reader_count <= a.reader_count
    &&& b.writer_count <= a.writer_count
    &&& (b.messages@ == a.messages@ || b.messages@ == Seq::<Message>::empty())
    &&& (b.waiters@ == a.waiters@ || b.waiters@ == Seq::<u64>::empty())
}

/// Every channel survives and is at most weakened.
pub open spec fn chans_weakened(pre: Runtime, post: Runtime) -> bool {
    &&& post.channels@.dom() == pre.channels@.dom()
    &&& forall|c: u64| pre.chan_exists(c) ==> chan_weakened(pre.chan(c), #[trigger] post.chan(c))
}

/// The pending wakeup queue only grows at the end.
pub open spec fn pending_extended(pre: Runtime, post: Runtime) -> bool {
    &&& post.pending_wakeups@.len() >= pre.pending_wakeups@.len()
    &&& post.pending_wakeups@.subrange(0, pre.pending_wakeups@.len() as int)
        == pre.pending_wakeups@
}

/// Among the channels, only `c` changed.
pub open spec fn only_channel_changed(pre: Runtime, post: Runtime, c: u64) -> bool {
    &&& post.channels@.dom() == pre.channels@.dom()
    &&& forall|d: u64| d != c && pre.chan_exists(d) ==> post.chan(d) == #[trigger] pre.chan(d)
}

/// The exact effect of releasing one half: the count of its direction is
/// decremented; on the transition to zero the waiters are woken (moved to the
/// pending wakeup queue), and if the other count is already zero the channel
/// is dead and its queue is handed back for further release.
pub open spec fn release_one_effect(
    pre: Runtime,
    post: Runtime,
    half: ChannelHalf,
    dead: Option<Vec<Message>>,
) -> bool {
    let c = half.channel_id;
    let dcount = dir_count(pre.chan(c), half.direction);
    let ocount = dir_count(pre.chan(c), other_dir(half.direction));
    &&& scalars_same(pre, post)
    &&& post.node_infos@ == pre.node_infos@
    &&& post.introspection_events@ == pre.introspection_events@
    &&& only_channel_changed(pre, post, c)
    &&& post.chan(c).id == pre.chan(c).id
    &&& post.chan(c).name == pre.chan(c).name
    &&& post.chan(c).label == pre.chan(c).label
    &&& dir_count(post.chan(c), half.direction) == dec_count(dcount)
    &&& dir_count(post.chan(c), other_dir(half.direction)) == ocount
    &&& if dcount != 1 {
        &&& dead is None
        &&& post.chan(c).messages@ == pre.chan(c).messages@
        &&& post.chan(c).waiters@ == pre.chan(c).waiters@
        &&& post.pending_wakeups@ == pre.pending_wakeups@
    } else {
        &&& post.chan(c).waiters@ == Seq::<u64>::empty()
        &&& post.pending_wakeups@ == pre.pending_wakeups@ + pre.chan(c).waiters@
        &&& if ocount == 0 {
            &&& (dead matches Some(m) && m@ == pre.chan(c).messages@)
            &&& post.chan(c).messages@ == Seq::<Message>::empty()
        } else {
            &&& dead is None
            &&& post.chan(c).messages@ == pre.chan(c).messages@
        }
    }
}

/// What releasing a half guarantees of the whole state: the direct channel's
/// count is decremented exactly; every channel is at most weakened; where no
/// channel died, the effect is exact.
pub open spec fn release_effect(pre: Runtime, post: Runtime, half: ChannelHalf) -> bool {
    let c = half.channel_id;
    let dcount = dir_count(pre.chan(c), half.direction);
    let ocount = dir_count(pre.chan(c), other_dir(half.direction));
    &&& scalars_same(pre, post)
    &&& chans_weakened(pre, post)
    &&& pending_extended(pre, post)
    &&& dir_count(post.chan(c), half.direction) == dec_count(dcount)
    &&& (dcount != 1 ==> {
        &&& only_channel_changed(pre, post, c)
        &&& post.chan(c).messages@ == pre.chan(c).messages@
        &&& post.chan(c).waiters@ == pre.chan(c).waiters@
        &&& dir_count(post.chan(c), other_dir(half.direction)) == ocount
        &&& post.pending_wakeups@ == pre.pending_wakeups@
    })
    &&& (dcount == 1 ==> {
        &&& post.chan(c).waiters@ == Seq::<u64>::empty()
        &&& (ocount != 0 ==> {
            &&& only_channel_changed(pre, post, c)
            &&& post.chan(c).messages@ == pre.chan(c).messages@
            &&& dir_count(post.chan(c), other_dir(half.direction)) == ocount
            &&& post.pending_wakeups@ == pre.pending_wakeups@ + pre.chan(c).waiters@
        })
        &&& (ocount == 0 ==> {
            &&& post.chan(c).messages@ == Seq::<Message>::empty()
            &&& post.pending_wakeups@.len() >= pre.pending_wakeups@.len() + pre.chan(
                c,
            ).waiters@.len()
            &&& post.pending_wakeups@.subrange(
                pre.pending_wakeups@.len() as int,
                pre.pending_wakeups@.len() + pre.chan(c).waiters@.len() as int,
            ) == pre.chan(c).waiters@
        })
    })
}

/// The live references a channel holds: both endpoint counts.
pub open spec fn chan_refs(ch: Channel) -> int {
    ch.reader_count + ch.writer_count
}

/// The total of all channels' reference counts; the measure that every
/// release step shrinks.
pub open spec fn counts_sum(s: Seq<(u64, Channel)>) -> int
    decreases s.len(),
{
    if s.len() == 0 {
        0
    } else {
        counts_sum(s.drop_last()) + chan_refs(s.last().1)
    }
}

proof fn lemma_counts_sum_nonneg(s: Seq<(u64, Channel)>)
    ensures
        counts_sum(s) >= 0,
    decreases s.len(),
{
    if s.len() > 0 {
        lemma_counts_sum_nonneg(s.drop_last());
    }
}

proof fn lemma_counts_sum_remove(s: Seq<(u64, Channel)>, i: int)
    requires
        0 <= i < s.len(),
    ensures
        counts_sum(s.remove(i)) == counts_sum(s) - chan_refs(s[i].1),
    decreases s.len(),
{
    let t = s.remove(i);
    if i == s.len() - 1 {
        assert(t =~= s.drop_last());
    } else {
        assert(t.drop_last() =~= s.drop_last().remove(i));
        assert(s.drop_last()[i] == s[i]);
        lemma_counts_sum_remove(s.drop_last(), i);
        assert(t.last() == s.last());
        assert(counts_sum(t) == counts_sum(t.drop_last()) + chan_refs(t.last().1));
    }
}

proof fn lemma_counts_sum_push(s: Seq<(u64, Channel)>, e: (u64, Channel))
    ensures
        counts_sum(s.push(e)) == counts_sum(s) + chan_refs(e.1),
{
    assert(s.push(e).drop_last() =~= s);
    assert(s.push(e).last() == e);
}

/// The total number of halves embedded in a queue of messages.
pub open spec fn msgs_halves(s: Seq<Message>) -> int
    decreases s.len(),
{
    if s.len() == 0 {
        0
    } else {
        msgs_halves(s.drop_last()) + s.last().channels@.len()
    }
}

proof fn lemma_msgs_halves_nonneg(s: Seq<Message>)
    ensures
        msgs_halves(s) >= 0,
    decreases s.len(),
{
    if s.len() > 0 {
        lemma_msgs_halves_nonneg(s.drop_last());
    }
}

proof fn lemma_msgs_halves_concat(a: Seq<Message>, b: Seq<Message>)
    ensures
        msgs_halves(a + b) == msgs_halves(a) + msgs_halves(b),
    decreases b.len(),
{
    if b.len() == 0 {
        assert(a + b =~= a);
    } else {
        assert((a + b).drop_last() =~= a + b.drop_last());
        assert((a + b).last() == b.last());
        lemma_msgs_halves_concat(a, b.drop_last());
    }
}

/// The halves a handle table holds, in table order.
pub open spec fn table_halves(s: Seq<(u64, ChannelHalf)>) -> Seq<ChannelHalf> {
    s.map_values(|e: (u64, ChannelHalf)| e.1)
}

/// The channel-side effect of releasing a sequence of halves, one after the
/// other: each step is one exact [`release_effect`] — the count of the half's
/// direction decremented once, waiters woken on the transition to zero, and
/// the queue of a channel dead in both directions emptied with its embedded
/// halves released in turn.
pub open spec fn halves_released(pre: Runtime, post: Runtime, halves: Seq<ChannelHalf>) -> bool
    decreases halves.len(),
{
    if halves.len() == 0 {
        &&& post.channels@ == pre.channels@
        &&& post.pending_wakeups@ == pre.pending_wakeups@
        &&& scalars_same(pre, post)
    } else {
        exists|mid: Runtime|
            #[trigger] release_effect(pre, mid, halves.first()) && halves_released(
                mid,
                post,
                halves.drop_first(),
            )
    }
}

/// A release effect only reads the channels, the wakeup queue and the
/// scalars of its pre-state: states equal there support the same effects.
proof fn lemma_release_effect_congruence(
    pre1: Runtime,
    pre2: Runtime,
    post: Runtime,
    h: ChannelHalf,
)
    requires
        release_effect(pre1, post, h),
        pre2.channels@ == pre1.channels@,
        pre2.pending_wakeups@ == pre1.pending_wakeups@,
        scalars_same(pre1, pre2),
    ensures
        release_effect(pre2, post, h),
{
    let c = h.channel_id;
    assert(pre2.chan(c) == pre1.chan(c));
    assert forall|d: u64| pre2.chan_exists(d) implies chan_weakened(
        pre2.chan(d),
        #[trigger] post.chan(d),
    ) by {
        assert(pre1.chan_exists(d));
        assert(pre2.chan(d) == pre1.chan(d));
        assert(chan_weakened(pre1.chan(d), post.chan(d)));
    }
    assert forall|d: u64| d != c && pre1.chan_exists(d) && only_channel_changed(pre1, post, c)
        implies post.chan(d) == #[trigger] pre2.chan(d) by {
        assert(pre2.chan(d) == pre1.chan(d));
    }
}

/// Appending one release to a chain of releases is a chain of releases.
proof fn lemma_halves_released_snoc(
    pre: Runtime,
    cur: Runtime,
    next: Runtime,
    hs: Seq<ChannelHalf>,
    h: ChannelHalf,
)
    requires
        halves_released(pre, cur, hs),
        release_effect(cur, next, h),
    ensures
        halves_released(pre, next, hs.push(h)),
    decreases hs.len(),
{
    if hs.len() == 0 {
        lemma_release_effect_congruence(cur, pre, next, h);
        assert(hs.push(h).first() == h);
        assert(hs.push(h).drop_first() =~= Seq::<ChannelHalf>::empty());
        assert(halves_released(next, next, hs.push(h).drop_first()));
        assert(release_effect(pre, next, hs.push(h).first()));
    } else {
        let mid = choose|mid: Runtime|
            #[trigger] release_effect(pre, mid, hs.first()) && halves_released(
                mid,
                cur,
                hs.drop_first(),
            );
        lemma_halves_released_snoc(mid, cur, next, hs.drop_first(), h);
        assert(hs.push(h).first() == hs.first());
        assert(hs.push(h).drop_first() =~= hs.drop_first().push(h));
        assert(release_effect(pre, mid, hs.push(h).first()));
        assert(halves_released(mid, next, hs.push(h).drop_first()));
    }
}

/// A chain of releases is unaffected by later changes outside the channels,
/// the wakeup queue and the scalars.
proof fn lemma_halves_released_post_congruence(
    pre: Runtime,
    post1: Runtime,
    post2: Runtime,
    hs: Seq<ChannelHalf>,
)
    requires
        halves_released(pre, post1, hs),
        post2.channels@ == post1.channels@,
        post2.pending_wakeups@ == post1.pending_wakeups@,
        scalars_same(post1, post2),
    ensures
        halves_released(pre, post2, hs),
    decreases hs.len(),
{
    if hs.len() == 0 {
    } else {
        let mid = choose|mid: Runtime|
            #[trigger] release_effect(pre, mid, hs.first()) && halves_released(
                mid,
                post1,
                hs.drop_first(),
            );
        lemma_halves_released_post_congruence(mid, post1, post2, hs.drop_first());
    }
}

impl Runtime {
    /// Decrement the reference count of one half's channel; on the transition
    /// to zero, wake the channel's waiters, and if the channel is now dead in
    /// both directions, take its queue out and hand it back.
    fn release_one(&mut self, half: ChannelHalf) -> (dead: Option<Vec<Message>>)
        requires
            old(self).wf(),
            old(self).half_lives(half),
        ensures
            final(self).wf(),
            release_one_effect(*old(self), *final(self), half, dead),
            counts_sum(final(self).channels.entries@) == counts_sum(old(self).channels.entries@)
                - (if dir_count(old(self).chan(half.channel_id), half.direction) == 0 {
                    0int
                } else {
                    1int
                }),
            (dead matches Some(m) ==> forall|i: int, j: int|
                0 <= i < m@.len() && 0 <= j < m@[i].channels@.len()
                    ==> final(self).half_lives(#[trigger] m@[i].channels@[j])),
    {
        let c = half.channel_id;
        let ghost pre = *self;
        let mut ch = match self.channels.remove(c) {
            Some(ch) => ch,
            None => {
                proof {
                    assert(false);
                }
                return None;
            },
        };
        let transition: bool;
        match half.direction {
            ChannelHalfDirection::Read => {
                transition = ch.reader_count == 1;
                ch.reader_count = count_dec(ch.reader_count);
            },
            ChannelHalfDirection::Write => {
                transition = ch.writer_count == 1;
                ch.writer_count = count_dec(ch.writer_count);
            },
        }
        let mut dead: Option<Vec<Message>> = None;
        if transition {
            self.pending_wakeups.append(&mut ch.waiters);
            if ch.reader_count == 0 && ch.writer_count == 0 {
                let mut msgs: Vec<Message> = Vec::new();
                core::mem::swap(&mut msgs, &mut ch.messages);
                dead = Some(msgs);
            }
        }
        self.channels.insert_new(c, ch);
        proof {
            assert(self.channels@.dom() =~= pre.channels@.dom());
            assert(self.channels@ =~= pre.channels@.insert(c, self.chan(c)));
            if !transition {
                assert(self.pending_wakeups@ =~= pre.pending_wakeups@);
            }
            assert(pre.chan_wf(c));
            assert forall|d: u64| self.chan_exists(d) implies #[trigger] self.chan_wf(d) by {
                assert(pre.chan_wf(d));
                if d == c {
                    assert forall|i: int| 0 <= i < self.chan(d).messages@.len()
                        implies self.msg_wf(#[trigger] self.chan(d).messages@[i]) by {
                        assert(self.chan(d).messages@[i] == pre.chan(d).messages@[i]);
                        assert(pre.msg_wf(pre.chan(d).messages@[i]));
                    }
                } else {
                    assert(self.chan(d) == pre.chan(d));
                    assert forall|i: int| 0 <= i < self.chan(d).messages@.len()
                        implies self.msg_wf(#[trigger] self.chan(d).messages@[i]) by {
                        assert(pre.msg_wf(pre.chan(d).messages@[i]));
                    }
                }
            }
            assert forall|n: u64| self.node_exists(n) implies #[trigger] self.node_wf(n) by {
                assert(pre.node_wf(n));
            }
            if dead is Some {
                let m = dead->Some_0;
                assert forall|i: int, j: int|
                    0 <= i < m@.len() && 0 <= j < m@[i].channels@.len()
                        implies self.half_lives(#[trigger] m@[i].channels@[j]) by {
                    assert(m@[i] == pre.chan(c).messages@[i]);
                    assert(pre.msg_wf(pre.chan(c).messages@[i]));
                }
            }
            let s0 = pre.channels.entries@;
            let ki = crate::vecmap::key_index(s0, c);
            crate::vecmap::lemma_entries_map_dom(s0);
            assert(0 <= ki < s0.len() && s0[ki].0 == c);
            crate::vecmap::lemma_entries_map_index(s0, ki);
            assert(s0[ki].1 == pre.chan(c));
            lemma_counts_sum_remove(s0, ki);
            lemma_counts_sum_push(s0.remove(ki), (c, self.chan(c)));
        }
        dead
    }

    /// Release one half reference: decrement its channel's count and, where
    /// counts reach zero, wake waiters and release the halves of any queue
    /// that thereby became unreachable, transitively.
    fn release_half(&mut self, half: ChannelHalf)
        requires
            old(self).wf(),
            old(self).half_lives(half),
        ensures
            final(self).wf(),
            release_effect(*old(self), *final(self), half),
            final(self).node_infos@ == old(self).node_infos@,
            final(self).introspection_events@ == old(self).introspection_events@,
    {
        let ghost pre = *self;
        let first = self.release_one(half);
        let ghost first_dead = first;
        let mut work: Vec<ChannelHalf> = Vec::new();
        let mut msgs = match first {
            None => {
                proof {
                    lemma_release_one_is_release(pre, *self, half, first_dead);
                }
                return ;
            },
            Some(msgs) => msgs,
        };
        let ghost snap = *self;
        proof {
            assert(snap.pending_wakeups@.subrange(0, snap.pending_wakeups@.len() as int)
                =~= snap.pending_wakeups@);
            lemma_counts_sum_nonneg(self.channels.entries@);
            lemma_msgs_halves_nonneg(msgs@);
        }
        // Gather the halves of the dead queue, then release each, gathering
        // further dead queues as channels die in turn.
        loop
            invariant
                self.wf(),
                scalars_same(snap, *self),
                self.node_infos@ == snap.node_infos@,
                self.introspection_events@ == snap.introspection_events@,
                chans_weakened(snap, *self),
                pending_extended(snap, *self),
                forall|i: int| 0 <= i < work@.len() ==> self.half_lives(#[trigger] work@[i]),
                forall|i: int, j: int| 0 <= i < msgs@.len() && 0 <= j < msgs@[i].channels@.len()
                    ==> self.half_lives(#[trigger] msgs@[i].channels@[j]),
                counts_sum(self.channels.entries@) >= 0,
                msgs_halves(msgs@) >= 0,
            decreases
                    counts_sum(self.channels.entries@),
                    msgs_halves(msgs@) + msgs@.len(),
                    work@.len(),
        {
            let ghost pm = msgs@;
            match msgs.pop() {
                Some(m) => {
                    proof {
                        assert(msgs@ =~= pm.drop_last());
                        assert(msgs_halves(pm) == msgs_halves(msgs@) + m.channels@.len());
                        lemma_msgs_halves_nonneg(msgs@);
                    }
                    let mut k: usize = 0;
                    let mc = m.channels;
                    while k < mc.len()
                        invariant
                            k <= mc@.len(),
                            forall|i: int| 0 <= i < work@.len()
                                ==> self.half_lives(#[trigger] work@[i]),
                            forall|i: int| 0 <= i < mc@.len()
                                ==> self.half_lives(#[trigger] mc@[i]),
                        decreases mc@.len() - k,
                    {
                        work.push(mc[k]);
                        k = k + 1;
                    }
                },
                None => {
                    match work.pop() {
                        Some(h) => {
                            let ghost cur = *self;
                            let more = self.release_one(h);
                            proof {
                                lemma_weaken_trans(snap, cur, *self, h, more);
                                lemma_counts_sum_nonneg(self.channels.entries@);
                            }
                            if let Some(mut more_msgs) = more {
                                let ghost pm2 = msgs@;
                                let ghost extra = more_msgs@;
                                msgs.append(&mut more_msgs);
                                proof {
                                    lemma_msgs_halves_concat(pm2, extra);
                                    lemma_msgs_halves_nonneg(msgs@);
                                }
                            }
                        },
                        None => {
                            break ;
                        },
                    }
                },
            }
        }
        proof {
            lemma_release_compose(pre, snap, *self, half, first_dead);
        }
    }
}

/// The keys of an entry sequence, as a set of integers.
pub open spec fn dom_int<V>(s: Seq<(u64, V)>) -> Set<int> {
    Set::new(|x: int| exists|i: int| 0 <= i < s.len() && (#[trigger] s[i]).0 == x)
}

proof fn lemma_dom_int_card<V>(s: Seq<(u64, V)>)
    ensures
        dom_int(s).finite(),
        dom_int(s).len() <= s.len(),
    decreases s.len(),
{
    if s.len() == 0 {
        assert(dom_int(s) =~= Set::<int>::empty());
    } else {
        lemma_dom_int_card(s.drop_last());
        let d = dom_int(s.drop_last()).insert(s.last().0 as int);
        assert forall|x: int| dom_int(s).contains(x) implies d.contains(x) by {
            let i = choose|i: int| 0 <= i < s.len() && (#[trigger] s[i]).0 == x;
            if i < s.len() - 1 {
                assert(s.drop_last()[i] == s[i]);
                assert((s.drop_last()[i]).0 == x);
                assert(dom_int(s.drop_last()).contains(x));
            }
        }
        vstd::set_lib::lemma_len_subset(dom_int(s), d);
    }
}

/// A table whose entries fit in memory cannot hold every 64-bit value: if all
/// values below the maximum are keys, the maximum itself is not.
proof fn lemma_some_key_free<V>(s: Seq<(u64, V)>)
    requires
        s.len() <= u64::MAX,
        forall|j: u64| j < u64::MAX ==> crate::vecmap::entries_map(s).dom().contains(j),
    ensures
        !crate::vecmap::entries_map(s).dom().contains(u64::MAX),
{
    if crate::vecmap::entries_map(s).dom().contains(u64::MAX) {
        lemma_dom_int_card(s);
        vstd::set_lib::lemma_int_range(0, u64::MAX as int);
        crate::vecmap::lemma_entries_map_dom(s);
        let a = vstd::set_lib::set_int_range(0, u64::MAX as int);
        let b = a.insert(u64::MAX as int);
        assert forall|x: int| b.contains(x) implies dom_int(s).contains(x) by {
            let xu = x as u64;
            assert(0 <= x <= u64::MAX);
            assert(xu == x);
            assert(crate::vecmap::entries_map(s).dom().contains(xu));
            let i = choose|i: int| 0 <= i < s.len() && (#[trigger] s[i]).0 == xu;
            assert((s[i]).0 == x);
        }
        assert(!a.contains(u64::MAX as int));
        assert(b.len() == a.len() + 1);
        vstd::set_lib::lemma_len_subset(b, dom_int(s));
        assert(false);
    }
}

/// A handle value not present in the table: a random value, retried a bounded
/// number of times on collision, with a deterministic scan as the last
/// resort. Random allocation keeps handle values unguessable; a free value
/// always exists, since the table cannot hold every 64-bit value.
fn fresh_handle(table: &VecMap<ChannelHalf>) -> (h: u64)
    requires
        table.wf(),
    ensures
        !table@.dom().contains(h),
{
    let mut attempts: usize = 0;
    while attempts < 32
        invariant
            attempts <= 32,
        decreases 32 - attempts,
    {
        let candidate = random_u64();
        if !table.contains_key(candidate) {
            return candidate;
        }
        attempts = attempts + 1;
    }
    let table_len = table.len();
    proof {
        assert(table.entries@.len() == table_len);
        assert(table.entries@.len() <= u64::MAX);
    }
    let mut h: u64 = 0;
    while h < u64::MAX
        invariant
            table.wf(),
            table.entries@.len() <= u64::MAX,
            forall|j: u64| j < h ==> table@.dom().contains(j),
        decreases u64::MAX - h,
    {
        if !table.contains_key(h) {
            return h;
        }
        h = h + 1;
    }
    proof {
        assert(h == u64::MAX);
        assert forall|j: u64| j < u64::MAX implies crate::vecmap::entries_map(
            table.entries@,
        ).dom().contains(j) by {
            assert(table@.dom().contains(j));
        }
        lemma_some_key_free(table.entries@);
    }
    u64::MAX
}

/// A handle was added to node `n`'s table, the matching event was logged,
/// and nothing else changed.
pub open spec fn handle_added(pre: Runtime, post: Runtime, n: u64, h: u64, half: ChannelHalf) -> bool {
    &&& scalars_same(pre, post)
    &&& post.channels@ == pre.channels@
    &&& post.pending_wakeups@ == pre.pending_wakeups@
    &&& post.node_infos@.dom() == pre.node_infos@.dom()
    &&& (forall|m: u64| m != n && pre.node_exists(m) ==> post.node(m) == #[trigger] pre.node(m))
    &&& post.node(n).name == pre.node(n).name
    &&& post.node(n).node_type == pre.node(n).node_type
    &&& post.node(n).label == pre.node(n).label
    &&& post.node(n).privilege == pre.node(n).privilege
    &&& post.node(n).abi_handles@ == pre.node(n).abi_handles@.insert(h, half)
    &&& post.introspection_events@ == pre.introspection_events@.push(
        Event::HandleCreated {
            node_id: n,
            handle: h,
            channel_id: half.channel_id,
            direction: half.direction,
        },
    )
}

impl Runtime {
    /// Register a channel half with a node, returning the new handle for it.
    /// The handle value is fresh in that node's table.
    pub fn new_abi_handle(&mut self, node_id: NodeId, half: ChannelHalf) -> (h: u64)
        requires
            old(self).wf(),
            old(self).node_exists(node_id.0),
            old(self).half_lives(half),
        ensures
            final(self).wf(),
            !old(self).has_half(node_id.0, h),
            handle_added(*old(self), *final(self), node_id.0, h, half),
            final(self).node(node_id.0).abi_handles.entries@.len() == old(self).node(
                node_id.0,
            ).abi_handles.entries@.len() + 1,
    {
        let ghost pre = *self;
        let n = node_id.0;
        proof {
            assert(pre.node_wf(n));
        }
        let mut info = match self.node_infos.remove(n) {
            Some(info) => info,
            None => {
                proof {
                    assert(false);
                }
                return 0;
            },
        };
        let h = fresh_handle(&info.abi_handles);
        info.abi_handles.insert_new(h, half);
        self.node_infos.insert_new(n, info);
        self.introspection_events.push(
            Event::HandleCreated {
                node_id: n,
                handle: h,
                channel_id: half.channel_id,
                direction: half.direction,
            },
        );
        proof {
            assert(self.node_infos@.dom() =~= pre.node_infos@.dom());
            lemma_wf_after_node_update(pre, *self, n);
        }
        h
    }

    /// Close a handle of the node: remove it from the table, log the removal,
    /// and release the half it named, potentially orphaning its channel.
    pub fn channel_close(&mut self, node_id: NodeId, handle: u64) -> (r: Result<(), OakStatus>)
        requires
            old(self).wf(),
            old(self).node_exists(node_id.0),
        ensures
            final(self).wf(),
            !old(self).has_half(node_id.0, handle) ==> r
                == Result::<(), OakStatus>::Err(OakStatus::ErrBadHandle) && *final(self) == *old(
                self,
            ),
            old(self).has_half(node_id.0, handle) ==> {
                let half = old(self).half(node_id.0, handle);
                &&& r == Result::<(), OakStatus>::Ok(())
                &&& release_effect(*old(self), *final(self), half)
                &&& final(self).node_infos@.dom() == old(self).node_infos@.dom()
                &&& (forall|m: u64| m != node_id.0 && old(self).node_exists(m)
                    ==> final(self).node(m) == #[trigger] old(self).node(m))
                &&& final(self).node(node_id.0).name == old(self).node(node_id.0).name
                &&& final(self).node(node_id.0).node_type == old(self).node(node_id.0).node_type
                &&& final(self).node(node_id.0).label == old(self).node(node_id.0).label
                &&& final(self).node(node_id.0).privilege == old(self).node(node_id.0).privilege
                &&& final(self).node(node_id.0).abi_handles@ == old(self).node(
                    node_id.0,
                ).abi_handles@.remove(handle)
                &&& final(self).introspection_events@ == old(self).introspection_events@.push(
                    Event::HandleDestroyed {
                        node_id: node_id.0,
                        handle,
                        channel_id: half.channel_id,
                        direction: half.direction,
                    },
                )
            },
    {
        let ghost pre = *self;
        let n = node_id.0;
        proof {
            assert(pre.node_wf(n));
        }
        let half = match self.abi_to_half(node_id, handle) {
            Ok(half) => half,
            Err(status) => {
                return Err(status);
            },
        };
        let mut info = match self.node_infos.remove(n) {
            Some(info) => info,
            None => {
                proof {
                    assert(false);
                }
                return Err(OakStatus::ErrBadHandle);
            },
        };
        let removed = info.abi_handles.remove(handle);
        proof {
            assert(removed == Some(half));
        }
        self.node_infos.insert_new(n, info);
        self.introspection_events.push(
            Event::HandleDestroyed {
                node_id: n,
                handle,
                channel_id: half.channel_id,
                direction: half.direction,
            },
        );
        let ghost mid = *self;
        proof {
            assert(mid.node_infos@.dom() =~= pre.node_infos@.dom());
            lemma_wf_after_node_update(pre, mid, n);
            assert(pre.node_wf(n));
            assert(pre.half_lives(pre.node(n).abi_handles@[handle]));
        }
        self.release_half(half);
        Ok(())
    }

    /// Creates a new distinct handle to the same channel half as `handle`,
    /// incrementing the endpoint count of that channel.
    pub fn handle_clone(&mut self, node_id: NodeId, handle: u64) -> (r: Result<u64, OakStatus>)
        requires
            old(self).wf(),
            old(self).node_exists(node_id.0),
        ensures
            final(self).wf(),
            old(self).terminating ==> r == Result::<u64, OakStatus>::Err(OakStatus::ErrTerminated)
                && *final(self) == *old(self),
            !old(self).terminating && !old(self).has_half(node_id.0, handle) ==> r
                == Result::<u64, OakStatus>::Err(OakStatus::ErrBadHandle) && *final(self) == *old(
                self,
            ),
            !old(self).terminating && old(self).has_half(node_id.0, handle) ==> {
                let half = old(self).half(node_id.0, handle);
                let c = half.channel_id;
                let n = node_id.0;
                &&& (r matches Ok(h) ==> {
                    &&& !old(self).has_half(n, h)
                    &&& scalars_same(*old(self), *final(self))
                    &&& final(self).pending_wakeups@ == old(self).pending_wakeups@
                    &&& final(self).channels@.dom() == old(self).channels@.dom()
                    &&& (forall|d: u64| d != c && old(self).chan_exists(d)
                        ==> final(self).chan(d) == #[trigger] old(self).chan(d))
                    &&& dir_count(final(self).chan(c), half.direction) == inc_count(
                        dir_count(old(self).chan(c), half.direction),
                    )
                    &&& dir_count(final(self).chan(c), other_dir(half.direction)) == dir_count(
                        old(self).chan(c),
                        other_dir(half.direction),
                    )
                    &&& final(self).chan(c).id == old(self).chan(c).id
                    &&& final(self).chan(c).name == old(self).chan(c).name
                    &&& final(self).chan(c).label == old(self).chan(c).label
                    &&& final(self).chan(c).messages@ == old(self).chan(c).messages@
                    &&& final(self).chan(c).waiters@ == old(self).chan(c).waiters@
                    &&& final(self).node_infos@.dom() == old(self).node_infos@.dom()
                    &&& (forall|m: u64| m != n && old(self).node_exists(m)
                        ==> final(self).node(m) == #[trigger] old(self).node(m))
                    &&& final(self).node(n).name == old(self).node(n).name
                    &&& final(self).node(n).node_type == old(self).node(n).node_type
                    &&& final(self).node(n).label == old(self).node(n).label
                    &&& final(self).node(n).privilege == old(self).node(n).privilege
                    &&& final(self).node(n).abi_handles@ == old(self).node(n).abi_handles@.insert(
                        h,
                        half,
                    )
                    &&& final(self).introspection_events@ == old(
                        self,
                    ).introspection_events@.push(
                        Event::HandleCreated {
                            node_id: n,
                            handle: h,
                            channel_id: half.channel_id,
                            direction: half.direction,
                        },
                    )
                })
                &&& r is Ok
            },
    {
        let ghost pre = *self;
        if self.is_terminating() {
            return Err(OakStatus::ErrTerminated);
        }
        let n = node_id.0;
        let half = match self.abi_to_half(node_id, handle) {
            Ok(half) => half,
            Err(status) => {
                return Err(status);
            },
        };
        let c = half.channel_id;
        proof {
            assert(pre.node_wf(n));
            assert(pre.half_lives(half));
        }
        let mut ch = match self.channels.remove(c) {
            Some(ch) => ch,
            None => {
                proof {
                    assert(false);
                }
                return Err(OakStatus::ErrBadHandle);
            },
        };
        match half.direction {
            ChannelHalfDirection::Read => {
                ch.reader_count = count_inc(ch.reader_count);
            },
            ChannelHalfDirection::Write => {
                ch.writer_count = count_inc(ch.writer_count);
            },
        }
        self.channels.insert_new(c, ch);
        proof {
            assert(self.channels@.dom() =~= pre.channels@.dom());
            assert(self.channels@ =~= pre.channels@.insert(c, self.chan(c)));
            lemma_wf_after_channel_update(pre, *self, c);
        }
        let ghost mid = *self;
        let h = self.new_abi_handle(node_id, half);
        proof {
            assert(scalars_same(pre, *self));
            assert(self.pending_wakeups@ == pre.pending_wakeups@);
            assert(self.channels@.dom() == pre.channels@.dom());
            assert(self.chan(c) == mid.chan(c));
            assert(dir_count(self.chan(c), half.direction) == inc_count(
                dir_count(pre.chan(c), half.direction),
            ));
            assert(self.node_infos@.dom() == pre.node_infos@.dom());
            assert(self.node(n).abi_handles@ == pre.node(n).abi_handles@.insert(h, half));
            assert(!pre.has_half(n, h));
            assert(forall|d: u64| d != c && pre.chan_exists(d) ==> self.chan(d) == #[trigger] pre.chan(
                d,
            ));
            assert(self.introspection_events@ == pre.introspection_events@.push(
                Event::HandleCreated {
                    node_id: n,
                    handle: h,
                    channel_id: half.channel_id,
                    direction: half.direction,
                },
            ));
            assert(dir_count(self.chan(c), other_dir(half.direction)) == dir_count(
                pre.chan(c),
                other_dir(half.direction),
            ));
            assert(self.chan(c).id == pre.chan(c).id);
            assert(self.chan(c).name == pre.chan(c).name);
            assert(self.chan(c).label == pre.chan(c).label);
            assert(self.chan(c).messages@ == pre.chan(c).messages@);
            assert(self.chan(c).waiters@ == pre.chan(c).waiters@);
            assert forall|m: u64| m != n && pre.node_exists(m) implies self.node(m)
                == #[trigger] pre.node(m) by {
                assert(mid.node(m) == pre.node(m));
                assert(self.node(m) == mid.node(m));
            }
            assert(self.node(n).name == pre.node(n).name);
            assert(self.node(n).node_type == pre.node(n).node_type);
            assert(self.node(n).label == pre.node(n).label);
            assert(self.node(n).privilege == pre.node(n).privilege);
        }
        Ok(h)
    }
}

impl Runtime {
    /// Create a new channel with the given name and label and return a
    /// `(write_handle, read_handle)` pair installed in the caller's table.
    /// The presence of a channel is public, so the caller must be able to
    /// write both to "public untrusted" and to the channel's own label.
    pub fn channel_create(
        &mut self,
        node_id: NodeId,
        name: &str,
        label: &Label,
        downgrade: Downgrading,
    ) -> (r: Result<(u64, u64), OakStatus>)
        requires
            old(self).wf(),
            old(self).node_exists(node_id.0),
            old(self).next_channel_id < u64::MAX,
        ensures
            final(self).wf(),
            old(self).terminating ==> r == Result::<(u64, u64), OakStatus>::Err(
                OakStatus::ErrTerminated,
            ) && *final(self) == *old(self),
            !old(self).terminating && !(old(self).can_write(
                node_id.0,
                crate::label::public_untrusted_spec(),
                downgrade,
            ) && old(self).can_write(node_id.0, label@, downgrade)) ==> r == Result::<
                (u64, u64),
                OakStatus,
            >::Err(OakStatus::ErrPermissionDenied) && *final(self) == *old(self),
            !old(self).terminating && old(self).can_write(
                node_id.0,
                crate::label::public_untrusted_spec(),
                downgrade,
            ) && old(self).can_write(node_id.0, label@, downgrade) ==> {
                let c = old(self).next_channel_id;
                let n = node_id.0;
                &&& (r matches Ok(p) ==> {
                    let w = p.0;
                    let rh = p.1;
                    &&& w != rh
                    &&& !old(self).has_half(n, w)
                    &&& !old(self).has_half(n, rh)
                    &&& !old(self).chan_exists(c)
                    &&& final(self).terminating == old(self).terminating
                    &&& final(self).next_node_id == old(self).next_node_id
                    &&& final(self).next_channel_id == old(self).next_channel_id + 1
                    &&& final(self).pending_wakeups@ == old(self).pending_wakeups@
                    &&& final(self).channels@.dom() == old(self).channels@.dom().insert(c)
                    &&& (forall|d: u64| d != c && old(self).chan_exists(d)
                        ==> final(self).chan(d) == #[trigger] old(self).chan(d))
                    &&& final(self).chan(c).id == c
                    &&& final(self).chan(c).name@ == name@
                    &&& final(self).chan(c).label@ == label@
                    &&& final(self).chan(c).messages@ == Seq::<Message>::empty()
                    &&& final(self).chan(c).reader_count == 1
                    &&& final(self).chan(c).writer_count == 1
                    &&& final(self).chan(c).waiters@ == Seq::<u64>::empty()
                    &&& final(self).node_infos@.dom() == old(self).node_infos@.dom()
                    &&& (forall|m: u64| m != n && old(self).node_exists(m)
                        ==> final(self).node(m) == #[trigger] old(self).node(m))
                    &&& final(self).node(n).name == old(self).node(n).name
                    &&& final(self).node(n).node_type == old(self).node(n).node_type
                    &&& final(self).node(n).label == old(self).node(n).label
                    &&& final(self).node(n).privilege == old(self).node(n).privilege
                    &&& final(self).node(n).abi_handles@ == old(self).node(
                        n,
                    ).abi_handles@.insert(
                        w,
                        ChannelHalf { channel_id: c, direction: ChannelHalfDirection::Write },
                    ).insert(
                        rh,
                        ChannelHalf { channel_id: c, direction: ChannelHalfDirection::Read },
                    )
                    &&& final(self).introspection_events@ == old(
                        self,
                    ).introspection_events@.push(Event::ChannelCreated { channel_id: c }).push(
                        Event::HandleCreated {
                            node_id: n,
                            handle: w,
                            channel_id: c,
                            direction: ChannelHalfDirection::Write,
                        },
                    ).push(
                        Event::HandleCreated {
                            node_id: n,
                            handle: rh,
                            channel_id: c,
                            direction: ChannelHalfDirection::Read,
                        },
                    )
                })
                &&& r is Ok
            },
    {
        let ghost pre = *self;
        if self.is_terminating() {
            return Err(OakStatus::ErrTerminated);
        }
        let n = node_id.0;
        let public = Label::public_untrusted();
        match self.validate_can_write_to_label(node_id, &public, downgrade) {
            Ok(()) => {},
            Err(status) => {
                return Err(status);
            },
        }
        match self.validate_can_write_to_label(node_id, label, downgrade) {
            Ok(()) => {},
            Err(status) => {
                return Err(status);
            },
        }
        let channel_id = self.next_channel_id;
        self.next_channel_id = self.next_channel_id + 1;
        let channel = Channel {
            id: channel_id,
            name: String::from_str(name),
            label: label.duplicate(),
            messages: Vec::new(),
            reader_count: 1,
            writer_count: 1,
            waiters: Vec::new(),
        };
        proof {
            if pre.chan_exists(channel_id) {
                assert(pre.chan_wf(channel_id));
                assert(false);
            }
        }
        self.channels.insert_new(channel_id, channel);
        self.introspection_events.push(Event::ChannelCreated { channel_id });
        let ghost mid = *self;
        proof {
            assert(mid.channels@.dom() =~= pre.channels@.dom().insert(channel_id));
            assert(mid.chan(channel_id).messages@ =~= Seq::<Message>::empty());
            assert(mid.chan(channel_id).waiters@ =~= Seq::<u64>::empty());
            assert forall|d: u64| mid.chan_exists(d) implies #[trigger] mid.chan_wf(d) by {
                if d != channel_id {
                    assert(pre.chan_wf(d));
                    assert(mid.chan(d) == pre.chan(d));
                    assert forall|i: int| 0 <= i < mid.chan(d).messages@.len()
                        implies mid.msg_wf(#[trigger] mid.chan(d).messages@[i]) by {
                        assert(pre.msg_wf(pre.chan(d).messages@[i]));
                    }
                }
            }
            assert forall|m: u64| mid.node_exists(m) implies #[trigger] mid.node_wf(m) by {
                assert(pre.node_wf(m));
                assert forall|h: u64| mid.node(m).abi_handles@.dom().contains(h)
                    implies mid.half_lives(#[trigger] mid.node(m).abi_handles@[h]) by {
                    assert(pre.half_lives(pre.node(m).abi_handles@[h]));
                }
            }
        }
        let write_half = ChannelHalf {
            channel_id,
            direction: ChannelHalfDirection::Write,
        };
        let read_half = ChannelHalf { channel_id, direction: ChannelHalfDirection::Read };
        let write_handle = self.new_abi_handle(node_id, write_half);
        let ghost mid2 = *self;
        let read_handle = self.new_abi_handle(node_id, read_half);
        proof {
            assert(self.node(n).abi_handles@ == pre.node(n).abi_handles@.insert(
                write_handle,
                write_half,
            ).insert(read_handle, read_half));
            assert forall|m: u64| m != n && pre.node_exists(m) implies self.node(m)
                == #[trigger] pre.node(m) by {
                assert(mid.node(m) == pre.node(m));
                assert(mid2.node(m) == mid.node(m));
                assert(self.node(m) == mid2.node(m));
            }
            assert forall|d: u64| d != channel_id && pre.chan_exists(d) implies self.chan(d)
                == #[trigger] pre.chan(d) by {
                assert(mid.chan(d) == pre.chan(d));
            }
        }
        Ok((write_handle, read_handle))
    }

    /// Allocate a fresh node identifier; identifiers are never reused.
    pub fn new_node_id(&mut self) -> (r: NodeId)
        requires
            old(self).wf(),
            old(self).next_node_id < u64::MAX,
        ensures
            final(self).wf(),
            r.0 == old(self).next_node_id,
            final(self).next_node_id == old(self).next_node_id + 1,
            (*final(self) == Runtime { next_node_id: final(self).next_node_id, ..*old(self) }),
    {
        let ghost pre = *self;
        let id = self.next_node_id;
        self.next_node_id = self.next_node_id + 1;
        proof {
            assert forall|c: u64| self.chan_exists(c) implies #[trigger] self.chan_wf(c) by {
                assert(pre.chan_wf(c));
                assert forall|i: int| 0 <= i < self.chan(c).messages@.len()
                    implies self.msg_wf(#[trigger] self.chan(c).messages@[i]) by {
                    assert(pre.msg_wf(pre.chan(c).messages@[i]));
                }
            }
            assert forall|m: u64| self.node_exists(m) implies #[trigger] self.node_wf(m) by {
                assert(pre.node_wf(m));
                assert forall|h: u64| self.node(m).abi_handles@.dom().contains(h)
                    implies self.half_lives(#[trigger] self.node(m).abi_handles@[h]) by {
                    assert(pre.half_lives(pre.node(m).abi_handles@[h]));
                }
            }
        }
        NodeId(id)
    }

    /// Install the bookkeeping for a new node instance: its name, kind, label,
    /// privilege and an empty handle table, recording its creation.
    pub fn node_configure_instance(
        &mut self,
        node_id: NodeId,
        node_type: &str,
        node_name: &str,
        label: &Label,
        privilege: &NodePrivilege,
    )
        requires
            old(self).wf(),
            !old(self).node_exists(node_id.0),
            node_id.0 < old(self).next_node_id,
        ensures
            final(self).wf(),
            scalars_same(*old(self), *final(self)),
            final(self).channels@ == old(self).channels@,
            final(self).pending_wakeups@ == old(self).pending_wakeups@,
            final(self).node_infos@.dom() == old(self).node_infos@.dom().insert(node_id.0),
            (forall|m: u64| m != node_id.0 && old(self).node_exists(m) ==> final(self).node(m)
                == #[trigger] old(self).node(m)),
            final(self).node(node_id.0).name@ == node_name@,
            final(self).node(node_id.0).node_type@ == node_type@,
            final(self).node(node_id.0).label@ == label@,
            final(self).node(node_id.0).privilege@ == privilege@,
            final(self).node(node_id.0).abi_handles@ == Map::<u64, ChannelHalf>::empty(),
            final(self).node(node_id.0).abi_handles.entries@ == Seq::<(u64, ChannelHalf)>::empty(),
            final(self).introspection_events@ == old(self).introspection_events@.push(
                Event::NodeCreated { node_id: node_id.0 },
            ),
    {
        let ghost pre = *self;
        self.introspection_events.push(Event::NodeCreated { node_id: node_id.0 });
        let info = NodeInfo {
            name: String::from_str(node_name),
            node_type: String::from_str(node_type),
            label: label.duplicate(),
            privilege: privilege.duplicate(),
            abi_handles: VecMap::new(),
        };
        self.node_infos.insert_new(node_id.0, info);
        proof {
            assert(self.node_infos@.dom() =~= pre.node_infos@.dom().insert(node_id.0));
            assert forall|c: u64| self.chan_exists(c) implies #[trigger] self.chan_wf(c) by {
                assert(pre.chan_wf(c));
                assert forall|i: int| 0 <= i < self.chan(c).messages@.len()
                    implies self.msg_wf(#[trigger] self.chan(c).messages@[i]) by {
                    assert(pre.msg_wf(pre.chan(c).messages@[i]));
                }
            }
            assert forall|m: u64| self.node_exists(m) implies #[trigger] self.node_wf(m) by {
                if m != node_id.0 {
                    assert(pre.node_wf(m));
                    assert(self.node(m) == pre.node(m));
                    assert forall|h: u64| self.node(m).abi_handles@.dom().contains(h)
                        implies self.half_lives(#[trigger] self.node(m).abi_handles@[h]) by {
                        assert(pre.half_lives(pre.node(m).abi_handles@[h]));
                    }
                }
            }
        }
    }
}

/// How many halves of `s` point at channel `c` with direction `dir`.
pub open spec fn occ_halves(s: Seq<ChannelHalf>, c: u64, dir: ChannelHalfDirection) -> int
    decreases s.len(),
{
    if s.len() == 0 {
        0
    } else {
        occ_halves(s.drop_last(), c, dir) + if s.last().channel_id == c && s.last().direction
            == dir {
            1int
        } else {
            0int
        }
    }
}

/// `k` saturating increments in a row.
pub open spec fn inc_by(count: u64, k: int) -> u64
    decreases k,
{
    if k <= 0 {
        count
    } else {
        inc_count(inc_by(count, k - 1))
    }
}

proof fn lemma_occ_nonneg(s: Seq<ChannelHalf>, c: u64, dir: ChannelHalfDirection)
    ensures
        occ_halves(s, c, dir) >= 0,
    decreases s.len(),
{
    if s.len() > 0 {
        lemma_occ_nonneg(s.drop_last(), c, dir);
    }
}

proof fn lemma_occ_pos(s: Seq<ChannelHalf>, c: u64, dir: ChannelHalfDirection)
    ensures
        occ_halves(s, c, dir) > 0 <==> exists|i: int|
            0 <= i < s.len() && (#[trigger] s[i]).channel_id == c && s[i].direction == dir,
    decreases s.len(),
{
    lemma_occ_nonneg(s, c, dir);
    if s.len() > 0 {
        lemma_occ_pos(s.drop_last(), c, dir);
        lemma_occ_nonneg(s.drop_last(), c, dir);
        if s.last().channel_id == c && s.last().direction == dir {
            assert((s[s.len() - 1]).channel_id == c);
        } else {
            if occ_halves(s, c, dir) > 0 {
                let i = choose|i: int|
                    0 <= i < s.drop_last().len() && (#[trigger] s.drop_last()[i]).channel_id == c
                        && s.drop_last()[i].direction == dir;
                assert(s.drop_last()[i] == s[i]);
                assert((s[i]).channel_id == c && s[i].direction == dir);
            }
            if exists|i: int|
                0 <= i < s.len() && (#[trigger] s[i]).channel_id == c && s[i].direction == dir {
                let i = choose|i: int|
                    0 <= i < s.len() && (#[trigger] s[i]).channel_id == c && s[i].direction == dir;
                if i < s.len() - 1 {
                    assert(s.drop_last()[i] == s[i]);
                    assert((s.drop_last()[i]).channel_id == c && s.drop_last()[i].direction == dir);
                }
            }
        }
    }
}

/// When the count never reached the saturation bound, repeated increments are
/// positive as soon as anything was counted.
proof fn lemma_inc_by_pos(count: u64, k: int)
    requires
        k >= 0,
    ensures
        inc_by(count, k) == 0 <==> (count == 0 && k == 0),
        inc_by(count, k) >= count,
    decreases k,
{
    if k > 0 {
        lemma_inc_by_pos(count, k - 1);
    }
}

impl Runtime {
    /// Whether every handle of the sequence is present in node `n`'s table.
    pub open spec fn handles_resolvable(self, n: u64, handles: Seq<u64>) -> bool {
        forall|i: int| 0 <= i < handles.len() ==> self.node(n).abi_handles@.dom().contains(
            #[trigger] handles[i],
        )
    }

    /// The halves that a sequence of the node's handles names, in order.
    pub open spec fn translate_handles(self, n: u64, handles: Seq<u64>) -> Seq<ChannelHalf> {
        handles.map_values(|h: u64| self.node(n).abi_handles@[h])
    }

    /// The exact result of a write: to which error each input leads, if and
    /// only if.
    pub open spec fn write_result(
        self,
        n: u64,
        write_handle: u64,
        handles: Seq<u64>,
        downgrade: Downgrading,
    ) -> Result<(), OakStatus> {
        if !(self.has_half(n, write_handle) && self.half(n, write_handle).direction
            == ChannelHalfDirection::Write) {
            Result::Err(OakStatus::ErrBadHandle)
        } else if !self.can_write(
            n,
            self.chan(self.half(n, write_handle).channel_id).label@,
            downgrade,
        ) {
            Result::Err(OakStatus::ErrPermissionDenied)
        } else if !self.handles_resolvable(n, handles) {
            Result::Err(OakStatus::ErrBadHandle)
        } else if self.chan(self.half(n, write_handle).channel_id).reader_count == 0 && occ_halves(
            self.translate_handles(n, handles),
            self.half(n, write_handle).channel_id,
            ChannelHalfDirection::Read,
        ) == 0 {
            Result::Err(OakStatus::ErrChannelClosed)
        } else {
            Result::Ok(())
        }
    }

    /// The exact effect of a successful write of `(bytes, halves)` to channel
    /// `c`: the message is appended, the endpoint counts absorb the cloned
    /// halves, the channel's waiters are woken, and nothing else changes.
    pub open spec fn write_ok_effect(
        pre: Runtime,
        post: Runtime,
        n: u64,
        c: u64,
        bytes: Seq<u8>,
        halves: Seq<ChannelHalf>,
    ) -> bool {
        &&& scalars_same(pre, post)
        &&& post.node_infos@ == pre.node_infos@
        &&& post.channels@.dom() == pre.channels@.dom()
        &&& (forall|d: u64| #[trigger] pre.chan_exists(d) ==> {
            &&& post.chan(d).id == pre.chan(d).id
            &&& post.chan(d).name == pre.chan(d).name
            &&& post.chan(d).label == pre.chan(d).label
            &&& post.chan(d).reader_count == inc_by(
                pre.chan(d).reader_count,
                occ_halves(halves, d, ChannelHalfDirection::Read),
            )
            &&& post.chan(d).writer_count == inc_by(
                pre.chan(d).writer_count,
                occ_halves(halves, d, ChannelHalfDirection::Write),
            )
        })
        &&& (forall|d: u64| d != c && pre.chan_exists(d) ==> #[trigger] post.chan(d).messages@
            == pre.chan(d).messages@ && post.chan(d).waiters@ == pre.chan(d).waiters@)
        &&& post.chan(c).messages@.len() == pre.chan(c).messages@.len() + 1
        &&& post.chan(c).messages@.subrange(0, pre.chan(c).messages@.len() as int) == pre.chan(
            c,
        ).messages@
        &&& post.chan(c).messages@.last().data@ == bytes
        &&& post.chan(c).messages@.last().channels@ == halves
        &&& post.chan(c).waiters@ == Seq::<u64>::empty()
        &&& post.pending_wakeups@ == pre.pending_wakeups@ + pre.chan(c).waiters@
        &&& post.introspection_events@ == pre.introspection_events@.push(
            Event::MessageEnqueued { node_id: n, channel_id: c },
        )
    }

    /// Resolve a sequence of the node's handles to halves, in order.
    fn resolve_handles(&self, node_id: NodeId, handles: &Vec<u64>) -> (r: Result<
        Vec<ChannelHalf>,
        OakStatus,
    >)
        requires
            self.wf(),
            self.node_exists(node_id.0),
        ensures
            r is Ok <==> self.handles_resolvable(node_id.0, handles@),
            r is Ok ==> r->Ok_0@ == self.translate_handles(node_id.0, handles@),
            r is Err ==> r->Err_0 == OakStatus::ErrBadHandle,
            r is Ok ==> forall|i: int| 0 <= i < r->Ok_0@.len() ==> self.half_lives(
                #[trigger] r->Ok_0@[i],
            ),
    {
        let n = node_id.0;
        let ghost target = self.translate_handles(n, handles@);
        let mut halves: Vec<ChannelHalf> = Vec::new();
        let mut i: usize = 0;
        proof {
            assert(self.node_wf(n));
        }
        while i < handles.len()
            invariant
                self.wf(),
                n == node_id.0,
                self.node_exists(n),
                target == self.translate_handles(n, handles@),
                i <= handles@.len(),
                halves@.len() == i,
                forall|j: int| 0 <= j < i ==> self.node(n).abi_handles@.dom().contains(
                    #[trigger] handles@[j],
                ),
                forall|j: int| 0 <= j < i ==> halves@[j] == target[j],
                forall|j: int| 0 <= j < i ==> self.half_lives(#[trigger] halves@[j]),
            decreases handles@.len() - i,
        {
            let half = match self.abi_to_half(node_id, handles[i]) {
                Ok(half) => half,
                Err(status) => {
                    proof {
                        assert(!self.node(n).abi_handles@.dom().contains(handles@[i as int]));
                        assert(!self.handles_resolvable(n, handles@));
                    }
                    return Err(status);
                },
            };
            proof {
                assert(self.node_wf(n));
                assert(self.node(n).abi_handles@.dom().contains(handles@[i as int]));
                assert(self.half_lives(self.node(n).abi_handles@[handles@[i as int]]));
            }
            halves.push(half);
            i = i + 1;
        }
        proof {
            assert(halves@ =~= target);
        }
        Ok(halves)
    }

    /// Write a message to a channel the node holds a write handle for. The
    /// queue is unbounded; the only failure after the permission check is a
    /// channel with no remaining readers.
    pub fn channel_write(
        &mut self,
        node_id: NodeId,
        write_handle: u64,
        node_msg: crate::types::NodeMessage,
        downgrade: Downgrading,
    ) -> (r: Result<(), OakStatus>)
        requires
            old(self).wf(),
            old(self).node_exists(node_id.0),
        ensures
            final(self).wf(),
            r == old(self).write_result(node_id.0, write_handle, node_msg.handles@, downgrade),
            (r == Result::<(), OakStatus>::Err(OakStatus::ErrBadHandle) || r == Result::<
                (),
                OakStatus,
            >::Err(OakStatus::ErrPermissionDenied)) ==> *final(self) == *old(self),
            r == Result::<(), OakStatus>::Err(OakStatus::ErrChannelClosed) ==> (*final(self)
                == Runtime {
                introspection_events: final(self).introspection_events,
                ..*old(self)
            }) && final(self).introspection_events@ == old(self).introspection_events@.push(
                Event::MessageEnqueued {
                    node_id: node_id.0,
                    channel_id: old(self).half(node_id.0, write_handle).channel_id,
                },
            ),
            r is Ok ==> Runtime::write_ok_effect(
                *old(self),
                *final(self),
                node_id.0,
                old(self).half(node_id.0, write_handle).channel_id,
                node_msg.bytes@,
                old(self).translate_handles(node_id.0, node_msg.handles@),
            ),
    {
        let ghost pre = *self;
        let n = node_id.0;
        let half = match self.abi_to_write_half(node_id, write_handle) {
            Ok(half) => half,
            Err(status) => {
                return Err(status);
            },
        };
        proof {
            assert(pre.node_wf(n));
            assert(pre.half_lives(half));
        }
        match self.validate_can_write_to_channel(node_id, &half, downgrade) {
            Ok(()) => {},
            Err(status) => {
                return Err(status);
            },
        }
        let halves = match self.resolve_handles(node_id, &node_msg.handles) {
            Ok(halves) => halves,
            Err(status) => {
                return Err(status);
            },
        };
        let c = half.channel_id;
        let ghost hs = pre.translate_handles(n, node_msg.handles@);
        // Whether the channel will have a reader once the sent halves are
        // absorbed: a message may carry a read half of its own channel.
        let has_reader = {
            let ch = match self.channels.get(c) {
                Some(ch) => ch,
                None => {
                    proof {
                        assert(false);
                    }
                    return Err(OakStatus::ErrInternal);
                },
            };
            ch.reader_count > 0 || contains_half(&halves, c, ChannelHalfDirection::Read)
        };
        proof {
            lemma_occ_pos(hs, c, ChannelHalfDirection::Read);
            lemma_occ_nonneg(hs, c, ChannelHalfDirection::Read);
        }
        if !has_reader {
            self.introspection_events.push(
                Event::MessageEnqueued { node_id: n, channel_id: c },
            );
            proof {
                assert forall|d: u64| self.chan_exists(d) implies #[trigger] self.chan_wf(d) by {
                    assert(pre.chan_wf(d));
                    assert forall|k: int| 0 <= k < self.chan(d).messages@.len()
                        implies self.msg_wf(#[trigger] self.chan(d).messages@[k]) by {
                        assert(pre.msg_wf(pre.chan(d).messages@[k]));
                    }
                }
                assert forall|m: u64| self.node_exists(m) implies #[trigger] self.node_wf(m) by {
                    assert(pre.node_wf(m));
                    assert forall|h: u64| self.node(m).abi_handles@.dom().contains(h)
                        implies self.half_lives(#[trigger] self.node(m).abi_handles@[h]) by {
                        assert(pre.half_lives(pre.node(m).abi_handles@[h]));
                    }
                }
            }
            return Err(OakStatus::ErrChannelClosed);
        }
        // Absorb the cloned halves into the endpoint counts.
        let mut i: usize = 0;
        while i < halves.len()
            invariant
                pre.wf(),
                self.channels.wf(),
                self.node_infos == pre.node_infos,
                self.introspection_events == pre.introspection_events,
                self.pending_wakeups == pre.pending_wakeups,
                scalars_same(pre, *self),
                i <= halves@.len(),
                forall|j: int| 0 <= j < halves@.len() ==> (#[trigger] halves@[j]).channel_id
                    == hs[j].channel_id && halves@[j].direction == hs[j].direction,
                halves@ == hs,
                self.channels@.dom() == pre.channels@.dom(),
                forall|d: u64| #[trigger] pre.chan_exists(d) ==> {
                    &&& self.chan(d).id == pre.chan(d).id
                    &&& self.chan(d).name == pre.chan(d).name
                    &&& self.chan(d).label == pre.chan(d).label
                    &&& self.chan(d).messages@ == pre.chan(d).messages@
                    &&& self.chan(d).waiters@ == pre.chan(d).waiters@
                    &&& self.chan(d).reader_count == inc_by(
                        pre.chan(d).reader_count,
                        occ_halves(hs.subrange(0, i as int), d, ChannelHalfDirection::Read),
                    )
                    &&& self.chan(d).writer_count == inc_by(
                        pre.chan(d).writer_count,
                        occ_halves(hs.subrange(0, i as int), d, ChannelHalfDirection::Write),
                    )
                },
                forall|j: int| 0 <= j < halves@.len() ==> pre.half_lives(#[trigger] halves@[j]),
            decreases halves@.len() - i,
        {
            let ghost snap = *self;
            let hf = halves[i];
            let d0 = hf.channel_id;
            let mut ch = match self.channels.remove(d0) {
                Some(ch) => ch,
                None => {
                    proof {
                        assert(pre.half_lives(halves@[i as int]));
                        assert(false);
                    }
                    return Err(OakStatus::ErrInternal);
                },
            };
            match hf.direction {
                ChannelHalfDirection::Read => {
                    ch.reader_count = count_inc(ch.reader_count);
                },
                ChannelHalfDirection::Write => {
                    ch.writer_count = count_inc(ch.writer_count);
                },
            }
            self.channels.insert_new(d0, ch);
            proof {
                assert(self.channels@.dom() =~= snap.channels@.dom());
                assert(self.channels@ =~= snap.channels@.insert(d0, self.chan(d0)));
                assert forall|d: u64| #[trigger] pre.chan_exists(d) implies {
                    &&& self.chan(d).reader_count == inc_by(
                        pre.chan(d).reader_count,
                        occ_halves(hs.subrange(0, i + 1), d, ChannelHalfDirection::Read),
                    )
                    &&& self.chan(d).writer_count == inc_by(
                        pre.chan(d).writer_count,
                        occ_halves(hs.subrange(0, i + 1), d, ChannelHalfDirection::Write),
                    )
                } by {
                    let s1 = hs.subrange(0, i + 1);
                    assert(s1.drop_last() =~= hs.subrange(0, i as int));
                    assert(s1.last() == hs[i as int]);
                    lemma_occ_nonneg(hs.subrange(0, i as int), d, ChannelHalfDirection::Read);
                    lemma_occ_nonneg(hs.subrange(0, i as int), d, ChannelHalfDirection::Write);
                }
            }
            i = i + 1;
        }
        proof {
            assert(hs.subrange(0, hs.len() as int) =~= hs);
        }
        // Append the message and wake the channel's waiters.
        let ghost mid = *self;
        let mut ch = match self.channels.remove(c) {
            Some(ch) => ch,
            None => {
                proof {
                    assert(false);
                }
                return Err(OakStatus::ErrInternal);
            },
        };
        let msg = Message { data: node_msg.bytes, channels: halves };
        ch.messages.push(msg);
        self.pending_wakeups.append(&mut ch.waiters);
        self.channels.insert_new(c, ch);
        self.introspection_events.push(Event::MessageEnqueued { node_id: n, channel_id: c });
        proof {
            assert(self.channels@.dom() =~= mid.channels@.dom());
            assert(self.channels@ =~= mid.channels@.insert(c, self.chan(c)));
            assert(pre.chan_exists(c));
            assert(mid.chan(c).messages@ == pre.chan(c).messages@);
            assert(self.chan(c).messages@ == pre.chan(c).messages@.push(
                Message { data: node_msg.bytes, channels: halves },
            ));
            assert(self.chan(c).messages@.subrange(0, pre.chan(c).messages@.len() as int)
                =~= pre.chan(c).messages@);
            assert(self.chan(c).waiters@ =~= Seq::<u64>::empty());
            lemma_occ_nonneg(hs, c, ChannelHalfDirection::Read);
            lemma_inc_by_pos(
                pre.chan(c).reader_count,
                occ_halves(hs, c, ChannelHalfDirection::Read),
            );
            assert forall|d: u64| self.chan_exists(d) implies #[trigger] self.chan_wf(d) by {
                assert(pre.chan_wf(d));
                assert(pre.chan_exists(d));
                assert forall|k: int| 0 <= k < self.chan(d).messages@.len()
                    implies self.msg_wf(#[trigger] self.chan(d).messages@[k]) by {
                    if d == c && k == self.chan(d).messages@.len() - 1 {
                        assert(self.chan(d).messages@[k].channels@ == hs);
                        assert forall|j: int| 0 <= j < hs.len()
                            implies self.half_lives(#[trigger] hs[j]) by {
                            assert(pre.half_lives(hs[j]));
                        }
                    } else {
                        if d == c {
                            assert(self.chan(d).messages@[k] == pre.chan(d).messages@[k]);
                        } else {
                            assert(mid.chan(d) == self.chan(d));
                            assert(mid.chan(d).messages@ == pre.chan(d).messages@);
                        }
                        assert(pre.msg_wf(pre.chan(d).messages@[k]));
                    }
                }
            }
            assert forall|m: u64| self.node_exists(m) implies #[trigger] self.node_wf(m) by {
                assert(pre.node_wf(m));
                assert forall|h: u64| self.node(m).abi_handles@.dom().contains(h)
                    implies self.half_lives(#[trigger] self.node(m).abi_handles@[h]) by {
                    assert(pre.half_lives(pre.node(m).abi_handles@[h]));
                }
            }
        }
        Ok(())
    }
}

impl Runtime {
    /// The exact effect of successfully reading the front message of channel
    /// `c` into node `n`'s table, `nm` being the message as the node sees it:
    /// the front is popped, each embedded half is installed under a fresh
    /// handle, in order, and everything else is unchanged.
    pub open spec fn read_ok_effect(pre: Runtime, post: Runtime, n: u64, c: u64, nm: crate::types::NodeMessage) -> bool {
        let front = pre.chan(c).messages@[0];
        &&& scalars_same(pre, post)
        &&& post.pending_wakeups@ == pre.pending_wakeups@
        &&& nm.bytes@ == front.data@
        &&& nm.handles@.len() == front.channels@.len()
        &&& (forall|i: int| 0 <= i < nm.handles@.len() ==> !pre.has_half(
            n,
            #[trigger] nm.handles@[i],
        ))
        &&& (forall|i: int, j: int| 0 <= i < j < nm.handles@.len() ==> nm.handles@[i]
            != nm.handles@[j])
        &&& (forall|i: int| 0 <= i < nm.handles@.len() ==> post.has_half(
            n,
            #[trigger] nm.handles@[i],
        ) && post.half(n, nm.handles@[i]) == front.channels@[i])
        &&& (forall|h: u64| pre.node(n).abi_handles@.dom().contains(h)
            ==> post.node(n).abi_handles@.dom().contains(h) && #[trigger] post.node(
            n,
        ).abi_handles@[h] == pre.node(n).abi_handles@[h])
        &&& post.node_infos@.dom() == pre.node_infos@.dom()
        &&& (forall|m: u64| m != n && pre.node_exists(m) ==> post.node(m) == #[trigger] pre.node(
            m,
        ))
        &&& post.node(n).name == pre.node(n).name
        &&& post.node(n).node_type == pre.node(n).node_type
        &&& post.node(n).label == pre.node(n).label
        &&& post.node(n).privilege == pre.node(n).privilege
        &&& post.node(n).abi_handles.entries@.len() == pre.node(n).abi_handles.entries@.len()
            + nm.handles@.len()
        &&& post.channels@.dom() == pre.channels@.dom()
        &&& (forall|d: u64| d != c && pre.chan_exists(d) ==> post.chan(d) == #[trigger] pre.chan(
            d,
        ))
        &&& post.chan(c).messages@ == pre.chan(c).messages@.remove(0)
        &&& post.chan(c).reader_count == pre.chan(c).reader_count
        &&& post.chan(c).writer_count == pre.chan(c).writer_count
        &&& post.chan(c).waiters@ == pre.chan(c).waiters@
        &&& post.chan(c).id == pre.chan(c).id
        &&& post.chan(c).name == pre.chan(c).name
        &&& post.chan(c).label == pre.chan(c).label
        &&& post.introspection_events@.len() == pre.introspection_events@.len()
            + nm.handles@.len() + 1
        &&& post.introspection_events@.subrange(0, pre.introspection_events@.len() as int)
            == pre.introspection_events@
        &&& (forall|i: int| 0 <= i < nm.handles@.len()
            ==> post.introspection_events@[pre.introspection_events@.len() + i]
            == Event::HandleCreated {
            node_id: n,
            handle: #[trigger] nm.handles@[i],
            channel_id: front.channels@[i].channel_id,
            direction: front.channels@[i].direction,
        })
        &&& post.introspection_events@.last() == Event::MessageDequeued {
            node_id: n,
            channel_id: c,
        }
    }

    /// Install each half under a fresh handle in node `n`'s table, in order.
    fn install_halves(&mut self, node_id: NodeId, halves: Vec<ChannelHalf>) -> (out: Vec<u64>)
        requires
            old(self).wf(),
            old(self).node_exists(node_id.0),
            forall|i: int| 0 <= i < halves@.len() ==> old(self).half_lives(#[trigger] halves@[i]),
        ensures
            final(self).wf(),
            out@.len() == halves@.len(),
            scalars_same(*old(self), *final(self)),
            final(self).channels@ == old(self).channels@,
            final(self).pending_wakeups@ == old(self).pending_wakeups@,
            final(self).node_infos@.dom() == old(self).node_infos@.dom(),
            (forall|m: u64| m != node_id.0 && old(self).node_exists(m) ==> final(self).node(m)
                == #[trigger] old(self).node(m)),
            final(self).node(node_id.0).name == old(self).node(node_id.0).name,
            final(self).node(node_id.0).node_type == old(self).node(node_id.0).node_type,
            final(self).node(node_id.0).label == old(self).node(node_id.0).label,
            final(self).node(node_id.0).privilege == old(self).node(node_id.0).privilege,
            (forall|i: int| 0 <= i < out@.len() ==> !old(self).has_half(
                node_id.0,
                #[trigger] out@[i],
            )),
            (forall|i: int, j: int| 0 <= i < j < out@.len() ==> out@[i] != out@[j]),
            (forall|i: int| 0 <= i < out@.len() ==> final(self).has_half(
                node_id.0,
                #[trigger] out@[i],
            ) && final(self).half(node_id.0, out@[i]) == halves@[i]),
            (forall|h: u64| #[trigger] old(self).node(node_id.0).abi_handles@.dom().contains(h)
                ==> final(self).node(node_id.0).abi_handles@.dom().contains(h)),
            (forall|h: u64| old(self).node(node_id.0).abi_handles@.dom().contains(h)
                ==> #[trigger] final(self).node(node_id.0).abi_handles@[h]
                    == old(self).node(node_id.0).abi_handles@[h]),
            final(self).node(node_id.0).abi_handles.entries@.len() == old(self).node(
                node_id.0,
            ).abi_handles.entries@.len() + halves@.len(),
            final(self).introspection_events@.len() == old(self).introspection_events@.len()
                + halves@.len(),
            final(self).introspection_events@.subrange(
                0,
                old(self).introspection_events@.len() as int,
            ) == old(self).introspection_events@,
            (forall|i: int| 0 <= i < out@.len()
                ==> final(self).introspection_events@[old(self).introspection_events@.len() + i]
                == Event::HandleCreated {
                node_id: node_id.0,
                handle: #[trigger] out@[i],
                channel_id: halves@[i].channel_id,
                direction: halves@[i].direction,
            }),
    {
        let ghost pre = *self;
        let n = node_id.0;
        let mut out: Vec<u64> = Vec::new();
        let mut i: usize = 0;
        proof {
            assert(pre.introspection_events@.subrange(0, pre.introspection_events@.len() as int)
                =~= pre.introspection_events@);
        }
        while i < halves.len()
            invariant
                self.wf(),
                n == node_id.0,
                self.node_exists(n),
                i <= halves@.len(),
                out@.len() == i,
                pre.wf(),
                pre.node_exists(n),
                forall|j: int| 0 <= j < halves@.len() ==> pre.half_lives(#[trigger] halves@[j]),
                scalars_same(pre, *self),
                self.channels@ == pre.channels@,
                self.pending_wakeups@ == pre.pending_wakeups@,
                self.node_infos@.dom() == pre.node_infos@.dom(),
                forall|m: u64| m != n && pre.node_exists(m) ==> self.node(m) == #[trigger] pre.node(
                    m,
                ),
                self.node(n).name == pre.node(n).name,
                self.node(n).node_type == pre.node(n).node_type,
                self.node(n).label == pre.node(n).label,
                self.node(n).privilege == pre.node(n).privilege,
                forall|j: int| 0 <= j < i ==> !pre.has_half(n, #[trigger] out@[j]),
                forall|j: int, k: int| 0 <= j < k < i ==> out@[j] != out@[k],
                forall|j: int| 0 <= j < i ==> self.has_half(n, #[trigger] out@[j]) && self.half(
                    n,
                    out@[j],
                ) == halves@[j],
                forall|h: u64| #[trigger] pre.node(n).abi_handles@.dom().contains(h)
                    ==> self.node(n).abi_handles@.dom().contains(h),
                forall|h: u64| pre.node(n).abi_handles@.dom().contains(h)
                    ==> #[trigger] self.node(n).abi_handles@[h] == pre.node(n).abi_handles@[h],
                forall|h: u64| self.node(n).abi_handles@.dom().contains(h) ==> pre.node(
                    n,
                ).abi_handles@.dom().contains(h) || exists|j: int|
                    0 <= j < i && out@[j] == h,
                self.node(n).abi_handles.entries@.len() == pre.node(n).abi_handles.entries@.len()
                    + i,
                self.introspection_events@.len() == pre.introspection_events@.len() + i,
                self.introspection_events@.subrange(0, pre.introspection_events@.len() as int)
                    == pre.introspection_events@,
                forall|j: int| 0 <= j < i
                    ==> self.introspection_events@[pre.introspection_events@.len() + j]
                    == (Event::HandleCreated {
                    node_id: n,
                    handle: #[trigger] out@[j],
                    channel_id: halves@[j].channel_id,
                    direction: halves@[j].direction,
                }),
            decreases halves@.len() - i,
        {
            let ghost cur = *self;
            let ghost out0 = out@;
            let hf = halves[i];
            proof {
                assert(pre.half_lives(halves@[i as int]));
            }
            let h = self.new_abi_handle(node_id, hf);
            out.push(h);
            proof {
                assert(self.introspection_events@.subrange(
                    0,
                    pre.introspection_events@.len() as int,
                ) =~= cur.introspection_events@.subrange(
                    0,
                    pre.introspection_events@.len() as int,
                ));
                if pre.node(n).abi_handles@.dom().contains(h) {
                    assert(cur.node(n).abi_handles@.dom().contains(h));
                    assert(cur.has_half(n, h));
                    assert(false);
                }
                assert forall|j: int| 0 <= j < i implies out@[j] != h by {
                    assert(out@[j] == out0[j]);
                    assert(cur.has_half(n, out0[j]));
                }
                assert(self.node(n).abi_handles@ == cur.node(n).abi_handles@.insert(h, hf));
                assert forall|j: int| 0 <= j < i implies self.has_half(n, #[trigger] out@[j])
                    && self.half(n, out@[j]) == halves@[j] by {
                    assert(out@[j] == out0[j]);
                    assert(cur.has_half(n, out0[j]) && cur.half(n, out0[j]) == halves@[j]);
                    assert(out0[j] != h);
                }
                assert forall|h2: u64| pre.node(n).abi_handles@.dom().contains(h2)
                    implies self.node(n).abi_handles@[h2] == pre.node(n).abi_handles@[h2] by {
                    assert(cur.node(n).abi_handles@.dom().contains(h2));
                    assert(h2 != h);
                    assert(cur.node(n).abi_handles@[h2] == pre.node(n).abi_handles@[h2]);
                }
                assert forall|h2: u64| self.node(n).abi_handles@.dom().contains(h2)
                    implies pre.node(n).abi_handles@.dom().contains(h2) || (exists|j: int|
                    0 <= j < i + 1 && out@[j] == h2) by {
                    if h2 == h {
                        assert(out@[i as int] == h2);
                    } else {
                        assert(cur.node(n).abi_handles@.dom().contains(h2));
                        if !pre.node(n).abi_handles@.dom().contains(h2) {
                            let j = choose|j: int| 0 <= j < i && out0[j] == h2;
                            assert(out@[j] == h2);
                        }
                    }
                }
            }
            i = i + 1;
        }
        out
    }
}

impl Runtime {
    /// Pop the front message of the channel a valid read half points at, and
    /// install its halves in the reader's table. The queue must be non-empty.
    fn take_front_message(&mut self, node_id: NodeId, c: u64) -> (r: crate::types::NodeMessage)
        requires
            old(self).wf(),
            old(self).node_exists(node_id.0),
            old(self).chan_exists(c),
            old(self).chan(c).messages@.len() > 0,
        ensures
            final(self).wf(),
            Runtime::read_ok_effect(*old(self), *final(self), node_id.0, c, r),
    {
        let ghost pre = *self;
        let n = node_id.0;
        let mut ch = match self.channels.remove(c) {
            Some(ch) => ch,
            None => {
                proof {
                    assert(false);
                }
                return crate::types::NodeMessage { bytes: Vec::new(), handles: Vec::new() };
            },
        };
        let msg = ch.messages.remove(0);
        self.channels.insert_new(c, ch);
        let ghost mid = *self;
        proof {
            assert(mid.channels@.dom() =~= pre.channels@.dom());
            assert(mid.channels@ =~= pre.channels@.insert(c, mid.chan(c)));
            assert(pre.chan_wf(c));
            assert(pre.msg_wf(pre.chan(c).messages@[0]));
            assert forall|d: u64| mid.chan_exists(d) implies #[trigger] mid.chan_wf(d) by {
                assert(pre.chan_wf(d));
                assert forall|k: int| 0 <= k < mid.chan(d).messages@.len()
                    implies mid.msg_wf(#[trigger] mid.chan(d).messages@[k]) by {
                    if d == c {
                        assert(mid.chan(d).messages@[k] == pre.chan(d).messages@[k + 1]);
                        assert(pre.msg_wf(pre.chan(d).messages@[k + 1]));
                    } else {
                        assert(mid.chan(d) == pre.chan(d));
                        assert(pre.msg_wf(pre.chan(d).messages@[k]));
                    }
                }
            }
            assert forall|m: u64| mid.node_exists(m) implies #[trigger] mid.node_wf(m) by {
                assert(pre.node_wf(m));
                assert forall|h: u64| mid.node(m).abi_handles@.dom().contains(h)
                    implies mid.half_lives(#[trigger] mid.node(m).abi_handles@[h]) by {
                    assert(pre.half_lives(pre.node(m).abi_handles@[h]));
                }
            }
            assert forall|j: int| 0 <= j < msg.channels@.len()
                implies mid.half_lives(#[trigger] msg.channels@[j]) by {
                assert(pre.half_lives(pre.chan(c).messages@[0].channels@[j]));
            }
        }
        let handles = self.install_halves(node_id, msg.channels);
        let ghost post_install = *self;
        self.introspection_events.push(Event::MessageDequeued { node_id: n, channel_id: c });
        proof {
            lemma_wf_same_tables(post_install, *self);
            assert(self.introspection_events@.subrange(0, pre.introspection_events@.len() as int)
                =~= pre.introspection_events@);
            assert(self.chan(c).messages@ == pre.chan(c).messages@.remove(0));
            assert forall|d: u64| d != c && pre.chan_exists(d) implies self.chan(d)
                == #[trigger] pre.chan(d) by {
                assert(mid.chan(d) == pre.chan(d));
            }
            assert forall|i: int| 0 <= i < handles@.len()
                implies self.introspection_events@[pre.introspection_events@.len() + i]
                == (Event::HandleCreated {
                node_id: n,
                handle: #[trigger] handles@[i],
                channel_id: pre.chan(c).messages@[0].channels@[i].channel_id,
                direction: pre.chan(c).messages@[0].channels@[i].direction,
            }) by {
                assert(self.introspection_events@[mid.introspection_events@.len() + i]
                    == (Event::HandleCreated {
                    node_id: n,
                    handle: handles@[i],
                    channel_id: pre.chan(c).messages@[0].channels@[i].channel_id,
                    direction: pre.chan(c).messages@[0].channels@[i].direction,
                }));
            }
        }
        let nm = crate::types::NodeMessage { bytes: msg.data, handles };
        proof {
            let post = *self;
            let front = pre.chan(c).messages@[0];
            assert(scalars_same(pre, post));
            assert(post.pending_wakeups@ == pre.pending_wakeups@);
            assert(nm.bytes@ == front.data@);
            assert(nm.handles@.len() == front.channels@.len());
            assert(forall|i: int| 0 <= i < nm.handles@.len() ==> !pre.has_half(
                n,
                #[trigger] nm.handles@[i],
            ));
            assert(forall|i: int, j: int| 0 <= i < j < nm.handles@.len() ==> nm.handles@[i]
                != nm.handles@[j]);
            assert(forall|i: int| 0 <= i < nm.handles@.len() ==> post.has_half(
                n,
                #[trigger] nm.handles@[i],
            ) && post.half(n, nm.handles@[i]) == front.channels@[i]);
            assert(forall|h: u64| pre.node(n).abi_handles@.dom().contains(h)
                ==> post.node(n).abi_handles@.dom().contains(h) && #[trigger] post.node(
                n,
            ).abi_handles@[h] == pre.node(n).abi_handles@[h]);
            assert(post.node_infos@.dom() == pre.node_infos@.dom());
            assert(post.node(n).name == pre.node(n).name);
            assert(post.channels@.dom() == pre.channels@.dom());
            assert(post.chan(c).reader_count == pre.chan(c).reader_count);
            assert(post.chan(c).writer_count == pre.chan(c).writer_count);
            assert(post.chan(c).waiters@ == pre.chan(c).waiters@);
            assert(post.introspection_events@.len() == pre.introspection_events@.len()
                + nm.handles@.len() + 1);
            assert(forall|i: int| 0 <= i < nm.handles@.len()
                ==> post.introspection_events@[pre.introspection_events@.len() + i]
                == (Event::HandleCreated {
                node_id: n,
                handle: #[trigger] nm.handles@[i],
                channel_id: front.channels@[i].channel_id,
                direction: front.channels@[i].direction,
            }));
            assert(post.introspection_events@.last() == (Event::MessageDequeued {
                node_id: n,
                channel_id: c,
            }));
            assert forall|m: u64| m != n && pre.node_exists(m) implies post.node(m)
                == #[trigger] pre.node(m) by {
                assert(mid.node(m) == pre.node(m));
                assert(post_install.node(m) == mid.node(m));
                assert(post.node(m) == post_install.node(m));
            }
            assert(post.node(n).node_type == pre.node(n).node_type);
            assert(post.node(n).label == pre.node(n).label);
            assert(post.node(n).privilege == pre.node(n).privilege);
            assert(post.chan(c).id == pre.chan(c).id);
            assert(post.chan(c).name == pre.chan(c).name);
            assert(post.chan(c).label == pre.chan(c).label);
            assert(post.introspection_events@.subrange(
                0,
                pre.introspection_events@.len() as int,
            ) == pre.introspection_events@);
            assert(post.chan(c).messages@ == pre.chan(c).messages@.remove(0));
        }
        nm
    }

    /// Read a message from a channel the node holds a read handle for. `None`
    /// means the queue is empty but has writers; a queue that is empty and
    /// writer-less has reached its end of stream.
    pub fn channel_read(&mut self, node_id: NodeId, read_handle: u64, downgrade: Downgrading) -> (r:
        Result<Option<crate::types::NodeMessage>, OakStatus>)
        requires
            old(self).wf(),
            old(self).node_exists(node_id.0),
        ensures
            final(self).wf(),
            !(old(self).has_half(node_id.0, read_handle) && old(self).half(
                node_id.0,
                read_handle,
            ).direction == ChannelHalfDirection::Read) ==> r == Result::<
                Option<crate::types::NodeMessage>,
                OakStatus,
            >::Err(OakStatus::ErrBadHandle) && *final(self) == *old(self),
            old(self).has_half(node_id.0, read_handle) && old(self).half(
                node_id.0,
                read_handle,
            ).direction == ChannelHalfDirection::Read ==> {
                let c = old(self).half(node_id.0, read_handle).channel_id;
                &&& (!old(self).can_read(node_id.0, old(self).chan(c).label@, downgrade) ==> r
                    == Result::<Option<crate::types::NodeMessage>, OakStatus>::Err(
                    OakStatus::ErrPermissionDenied,
                ) && *final(self) == *old(self))
                &&& (old(self).can_read(node_id.0, old(self).chan(c).label@, downgrade) && old(
                    self,
                ).chan(c).messages@.len() == 0 ==> {
                    &&& (old(self).chan(c).writer_count == 0 ==> r == Result::<
                        Option<crate::types::NodeMessage>,
                        OakStatus,
                    >::Err(OakStatus::ErrChannelClosed) && *final(self) == *old(self))
                    &&& (old(self).chan(c).writer_count > 0 ==> r == Result::<
                        Option<crate::types::NodeMessage>,
                        OakStatus,
                    >::Ok(None) && *final(self) == *old(self))
                })
                &&& (old(self).can_read(node_id.0, old(self).chan(c).label@, downgrade) && old(
                    self,
                ).chan(c).messages@.len() > 0 ==> (r matches Ok(Some(nm))
                    && Runtime::read_ok_effect(*old(self), *final(self), node_id.0, c, nm)))
            },
    {
        let ghost pre = *self;
        let n = node_id.0;
        let half = match self.abi_to_read_half(node_id, read_handle) {
            Ok(half) => half,
            Err(status) => {
                return Err(status);
            },
        };
        proof {
            assert(pre.node_wf(n));
            assert(pre.half_lives(half));
        }
        match self.validate_can_read_from_channel(node_id, &half, downgrade) {
            Ok(()) => {},
            Err(status) => {
                return Err(status);
            },
        }
        let c = half.channel_id;
        {
            let ch = match self.channels.get(c) {
                Some(ch) => ch,
                None => {
                    proof {
                        assert(false);
                    }
                    return Err(OakStatus::ErrInternal);
                },
            };
            if ch.messages.len() == 0 {
                if !ch.has_writers() {
                    return Err(OakStatus::ErrChannelClosed);
                } else {
                    return Ok(None);
                }
            }
        };
        let nm = self.take_front_message(node_id, c);
        Ok(Some(nm))
    }

    /// Read a message only if the provided capacities can hold it; otherwise
    /// report the required capacities and leave the message queued. Another
    /// reader may take the message between two calls.
    pub fn channel_try_read_message(
        &mut self,
        node_id: NodeId,
        handle: u64,
        bytes_capacity: usize,
        handles_capacity: usize,
        downgrade: Downgrading,
    ) -> (r: Result<Option<crate::types::NodeReadStatus>, OakStatus>)
        requires
            old(self).wf(),
            old(self).node_exists(node_id.0),
        ensures
            final(self).wf(),
            !(old(self).has_half(node_id.0, handle) && old(self).half(
                node_id.0,
                handle,
            ).direction == ChannelHalfDirection::Read) ==> r == Result::<
                Option<crate::types::NodeReadStatus>,
                OakStatus,
            >::Err(OakStatus::ErrBadHandle) && *final(self) == *old(self),
            old(self).has_half(node_id.0, handle) && old(self).half(
                node_id.0,
                handle,
            ).direction == ChannelHalfDirection::Read ==> {
                let c = old(self).half(node_id.0, handle).channel_id;
                &&& (!old(self).can_read(node_id.0, old(self).chan(c).label@, downgrade) ==> r
                    == Result::<Option<crate::types::NodeReadStatus>, OakStatus>::Err(
                    OakStatus::ErrPermissionDenied,
                ) && *final(self) == *old(self))
                &&& (old(self).can_read(node_id.0, old(self).chan(c).label@, downgrade) && old(
                    self,
                ).chan(c).messages@.len() == 0 ==> {
                    &&& (old(self).chan(c).writer_count == 0 ==> r == Result::<
                        Option<crate::types::NodeReadStatus>,
                        OakStatus,
                    >::Err(OakStatus::ErrChannelClosed) && *final(self) == *old(self))
                    &&& (old(self).chan(c).writer_count > 0 ==> r == Result::<
                        Option<crate::types::NodeReadStatus>,
                        OakStatus,
                    >::Ok(None) && *final(self) == *old(self))
                })
                &&& (old(self).can_read(node_id.0, old(self).chan(c).label@, downgrade) && old(
                    self,
                ).chan(c).messages@.len() > 0 ==> {
                    let front = old(self).chan(c).messages@[0];
                    &&& (front.data@.len() > bytes_capacity || front.channels@.len()
                        > handles_capacity ==> (r matches Ok(Some(
                        crate::types::NodeReadStatus::NeedsCapacity(b, h),
                    )) && b == front.data@.len() && h == front.channels@.len()) && *final(self)
                        == *old(self))
                    &&& (front.data@.len() <= bytes_capacity && front.channels@.len()
                        <= handles_capacity ==> (r matches Ok(Some(
                        crate::types::NodeReadStatus::Success(nm),
                    )) && Runtime::read_ok_effect(*old(self), *final(self), node_id.0, c, nm)))
                })
            },
    {
        let ghost pre = *self;
        let n = node_id.0;
        let half = match self.abi_to_read_half(node_id, handle) {
            Ok(half) => half,
            Err(status) => {
                return Err(status);
            },
        };
        proof {
            assert(pre.node_wf(n));
            assert(pre.half_lives(half));
        }
        match self.validate_can_read_from_channel(node_id, &half, downgrade) {
            Ok(()) => {},
            Err(status) => {
                return Err(status);
            },
        }
        let c = half.channel_id;
        {
            let ch = match self.channels.get(c) {
                Some(ch) => ch,
                None => {
                    proof {
                        assert(false);
                    }
                    return Err(OakStatus::ErrInternal);
                },
            };
            if ch.messages.len() == 0 {
                if !ch.has_writers() {
                    return Err(OakStatus::ErrChannelClosed);
                } else {
                    return Ok(None);
                }
            }
            let front = &ch.messages[0];
            let req_bytes_capacity = front.data.len();
            let req_handles_capacity = front.channels.len();
            if req_bytes_capacity > bytes_capacity || req_handles_capacity > handles_capacity {
                return Ok(
                    Some(
                        crate::types::NodeReadStatus::NeedsCapacity(
                            req_bytes_capacity,
                            req_handles_capacity,
                        ),
                    ),
                );
            }
        }
        let nm = self.take_front_message(node_id, c);
        Ok(Some(crate::types::NodeReadStatus::Success(nm)))
    }
}

impl Runtime {
    /// The per-slot verdict a wait reports for one handle.
    pub open spec fn wait_slot(self, n: u64, h: u64, downgrade: Downgrading) -> ChannelReadStatus {
        if self.wait_slot_valid(n, h) {
            self.read_status(n, self.half(n, h).channel_id, downgrade)
        } else {
            ChannelReadStatus::InvalidChannel
        }
    }

    /// Whether the handle names a read half.
    pub open spec fn wait_slot_valid(self, n: u64, h: u64) -> bool {
        self.has_half(n, h) && self.half(n, h).direction == ChannelHalfDirection::Read
    }

    /// A wait returns without parking when it has nothing to wait for (no
    /// handles, or an invalid one) or some channel already has a verdict.
    pub open spec fn wait_should_return(self, n: u64, handles: Seq<u64>, downgrade: Downgrading) -> bool {
        ||| handles.len() == 0
        ||| exists|i: int| 0 <= i < handles.len() && !self.wait_slot_valid(n, #[trigger] handles[i])
        ||| exists|i: int|
            0 <= i < handles.len() && self.wait_slot_valid(n, #[trigger] handles[i])
                && self.wait_slot(n, handles[i], downgrade) != ChannelReadStatus::NotReady
    }

    /// The readable statuses of a slice of halves; a half that is not a read
    /// half reports an invalid channel.
    pub fn readers_statuses(
        &self,
        node_id: NodeId,
        readers: &Vec<ChannelHalf>,
        downgrade: Downgrading,
    ) -> (r: Vec<ChannelReadStatus>)
        requires
            self.wf(),
            self.node_exists(node_id.0),
            forall|i: int| 0 <= i < readers@.len() ==> self.half_lives(#[trigger] readers@[i]),
        ensures
            r@.len() == readers@.len(),
            forall|i: int| 0 <= i < readers@.len() ==> r@[i] == (if (#[trigger] readers@[i]).direction
                == ChannelHalfDirection::Read {
                self.read_status(node_id.0, readers@[i].channel_id, downgrade)
            } else {
                ChannelReadStatus::InvalidChannel
            }),
    {
        let mut out: Vec<ChannelReadStatus> = Vec::new();
        let mut i: usize = 0;
        while i < readers.len()
            invariant
                self.wf(),
                self.node_exists(node_id.0),
                forall|j: int| 0 <= j < readers@.len() ==> self.half_lives(#[trigger] readers@[j]),
                i <= readers@.len(),
                out@.len() == i,
                forall|j: int| 0 <= j < i ==> out@[j] == (if (#[trigger] readers@[j]).direction
                    == ChannelHalfDirection::Read {
                    self.read_status(node_id.0, readers@[j].channel_id, downgrade)
                } else {
                    ChannelReadStatus::InvalidChannel
                }),
            decreases readers@.len() - i,
        {
            let st = match self.channel_status(node_id, &readers[i], downgrade) {
                Ok(st) => st,
                Err(_) => ChannelReadStatus::InvalidChannel,
            };
            out.push(st);
            i = i + 1;
        }
        out
    }

    /// One round of the multi-channel wait protocol. The caller supplies a
    /// token naming its thread; where the decision is [`WaitDecision::Park`],
    /// the token has been registered on every named channel, and the caller
    /// parks and calls again once woken. Registration happens before the
    /// statuses are computed, so an enqueue between the two is never lost: it
    /// is either visible in the verdict or wakes the token.
    pub fn wait_on_channels(
        &mut self,
        node_id: NodeId,
        read_handles: &Vec<u64>,
        waiter_token: u64,
        downgrade: Downgrading,
    ) -> (r: crate::types::WaitDecision)
        requires
            old(self).wf(),
            old(self).node_exists(node_id.0),
        ensures
            final(self).wf(),
            r is Terminated <==> old(self).terminating,
            old(self).terminating ==> r == crate::types::WaitDecision::Terminated && *final(self)
                == *old(self),
            !old(self).terminating ==> {
                let n = node_id.0;
                &&& scalars_same(*old(self), *final(self))
                &&& final(self).node_infos@ == old(self).node_infos@
                &&& final(self).introspection_events@ == old(self).introspection_events@
                &&& final(self).pending_wakeups@ == old(self).pending_wakeups@
                &&& final(self).channels@.dom() == old(self).channels@.dom()
                &&& (forall|d: u64| #[trigger] old(self).chan_exists(d) ==> {
                    &&& final(self).chan(d).id == old(self).chan(d).id
                    &&& final(self).chan(d).name == old(self).chan(d).name
                    &&& final(self).chan(d).label == old(self).chan(d).label
                    &&& final(self).chan(d).messages@ == old(self).chan(d).messages@
                    &&& final(self).chan(d).reader_count == old(self).chan(d).reader_count
                    &&& final(self).chan(d).writer_count == old(self).chan(d).writer_count
                    &&& final(self).chan(d).waiters@.len() >= old(self).chan(d).waiters@.len()
                    &&& final(self).chan(d).waiters@.subrange(
                        0,
                        old(self).chan(d).waiters@.len() as int,
                    ) == old(self).chan(d).waiters@
                    &&& (forall|j: int| old(self).chan(d).waiters@.len() <= j < final(self).chan(
                        d,
                    ).waiters@.len() ==> final(self).chan(d).waiters@[j] == waiter_token)
                })
                &&& (old(self).wait_should_return(n, read_handles@, downgrade) ==> (r matches
                    crate::types::WaitDecision::Ready(v) && v@.len() == read_handles@.len()
                    && (forall|i: int| 0 <= i < v@.len() ==> v@[i] == old(self).wait_slot(
                    n,
                    #[trigger] read_handles@[i],
                    downgrade,
                ))))
                &&& (!old(self).wait_should_return(n, read_handles@, downgrade) ==> r
                    == crate::types::WaitDecision::Park)
                &&& (r == crate::types::WaitDecision::Park ==> forall|i: int|
                    0 <= i < read_handles@.len() ==> final(self).chan(
                        old(self).half(n, #[trigger] read_handles@[i]).channel_id,
                    ).waiters@.contains(waiter_token))
            },
    {
        let ghost pre = *self;
        if self.is_terminating() {
            return crate::types::WaitDecision::Terminated;
        }
        let n = node_id.0;
        let mut statuses: Vec<ChannelReadStatus> = Vec::new();
        let mut any_invalid = false;
        let mut any_ready = false;
        let mut i: usize = 0;
        proof {
            assert(pre.node_wf(n));
        }
        while i < read_handles.len()
            invariant
                self.wf(),
                n == node_id.0,
                pre.wf(),
                pre.node_exists(n),
                self.node_exists(n),
                i <= read_handles@.len(),
                statuses@.len() == i,
                scalars_same(pre, *self),
                self.node_infos@ == pre.node_infos@,
                self.node_infos == pre.node_infos,
                self.introspection_events@ == pre.introspection_events@,
                self.pending_wakeups@ == pre.pending_wakeups@,
                self.channels@.dom() == pre.channels@.dom(),
                forall|d: u64| #[trigger] pre.chan_exists(d) ==> {
                    &&& self.chan(d).id == pre.chan(d).id
                    &&& self.chan(d).name == pre.chan(d).name
                    &&& self.chan(d).label == pre.chan(d).label
                    &&& self.chan(d).messages@ == pre.chan(d).messages@
                    &&& self.chan(d).reader_count == pre.chan(d).reader_count
                    &&& self.chan(d).writer_count == pre.chan(d).writer_count
                    &&& self.chan(d).waiters@.len() >= pre.chan(d).waiters@.len()
                    &&& self.chan(d).waiters@.subrange(0, pre.chan(d).waiters@.len() as int)
                        == pre.chan(d).waiters@
                    &&& (forall|j: int| pre.chan(d).waiters@.len() <= j < self.chan(
                        d,
                    ).waiters@.len() ==> self.chan(d).waiters@[j] == waiter_token)
                },
                forall|j: int| 0 <= j < i ==> statuses@[j] == pre.wait_slot(
                    n,
                    #[trigger] read_handles@[j],
                    downgrade,
                ),
                any_invalid <==> exists|j: int|
                    0 <= j < i && !pre.wait_slot_valid(n, #[trigger] read_handles@[j]),
                any_ready <==> exists|j: int|
                    0 <= j < i && pre.wait_slot_valid(n, #[trigger] read_handles@[j])
                        && pre.wait_slot(n, read_handles@[j], downgrade)
                        != ChannelReadStatus::NotReady,
                forall|j: int| 0 <= j < i && pre.wait_slot_valid(n, #[trigger] read_handles@[j])
                    ==> self.chan(pre.half(n, read_handles@[j]).channel_id).waiters@.contains(
                    waiter_token,
                ),
            decreases read_handles@.len() - i,
        {
            let ghost cur = *self;
            let h = read_handles[i];
            match self.abi_to_read_half(node_id, h) {
                Err(_) => {
                    statuses.push(ChannelReadStatus::InvalidChannel);
                    any_invalid = true;
                    proof {
                        assert(!pre.wait_slot_valid(n, read_handles@[i as int]));
                        assert(pre.wait_slot(n, read_handles@[i as int], downgrade)
                            == ChannelReadStatus::InvalidChannel);
                    }
                },
                Ok(half) => {
                    let c = half.channel_id;
                    proof {
                        assert(pre.wait_slot_valid(n, read_handles@[i as int]));
                        assert(pre.node_wf(n));
                        assert(self.half_lives(half));
                        assert(pre.chan_exists(c));
                    }
                    let mut ch = match self.channels.remove(c) {
                        Some(ch) => ch,
                        None => {
                            proof {
                                assert(false);
                            }
                            return crate::types::WaitDecision::Terminated;
                        },
                    };
                    ch.add_waiter(waiter_token);
                    self.channels.insert_new(c, ch);
                    proof {
                        assert(self.channels@.dom() =~= cur.channels@.dom());
                        assert(self.channels@ =~= cur.channels@.insert(c, self.chan(c)));
                        lemma_wf_after_channel_update(cur, *self, c);
                        assert(self.chan(c).waiters@.subrange(0, pre.chan(c).waiters@.len() as int)
                            =~= pre.chan(c).waiters@);
                        assert forall|d: u64| #[trigger] pre.chan_exists(d) && d != c
                            implies self.chan(d) == cur.chan(d) by {}
                        assert forall|j: int| 0 <= j < i && pre.wait_slot_valid(
                            n,
                            #[trigger] read_handles@[j],
                        ) implies self.chan(
                            pre.half(n, read_handles@[j]).channel_id,
                        ).waiters@.contains(waiter_token) by {
                            let d = pre.half(n, read_handles@[j]).channel_id;
                            let w = cur.chan(d).waiters@;
                            let k = choose|k: int| 0 <= k < w.len() && w[k] == waiter_token;
                            assert(self.chan(d).waiters@[k] == waiter_token);
                        }
                        assert(self.chan(c).waiters@.last() == waiter_token);
                        assert(self.chan(c).waiters@.contains(waiter_token));
                    }
                    let st = match self.channel_status(node_id, &half, downgrade) {
                        Ok(st) => st,
                        Err(_) => {
                            proof {
                                assert(false);
                            }
                            ChannelReadStatus::InvalidChannel
                        },
                    };
                    proof {
                        assert(self.read_status(n, c, downgrade) == pre.read_status(
                            n,
                            c,
                            downgrade,
                        ));
                        assert(pre.wait_slot(n, read_handles@[i as int], downgrade) == pre.read_status(
                            n,
                            c,
                            downgrade,
                        ));
                    }
                    if !matches!(st, ChannelReadStatus::NotReady) {
                        any_ready = true;
                    }
                    statuses.push(st);
                },
            }
            i = i + 1;
        }
        if read_handles.len() == 0 || any_invalid || any_ready {
            return crate::types::WaitDecision::Ready(statuses);
        }
        crate::types::WaitDecision::Park
    }
}

/// All waiter tokens of all channels of an entry sequence, in table order.
pub open spec fn waiters_concat(s: Seq<(u64, Channel)>) -> Seq<u64>
    decreases s.len(),
{
    if s.len() == 0 {
        Seq::empty()
    } else {
        waiters_concat(s.drop_last()) + s.last().1.waiters@
    }
}

impl Runtime {
    /// Register a new node: check that its presence and label are admissible
    /// for the calling node, install its bookkeeping, and hand it the read
    /// half named by `initial_handle` as its first handle. A node without a
    /// sandbox must hold enough privilege to downgrade its own label to
    /// "public untrusted", since it can communicate without restriction.
    pub fn node_register(
        &mut self,
        node_id: NodeId,
        isolation: crate::types::NodeIsolation,
        privilege: &NodePrivilege,
        node_type: &str,
        node_name: &str,
        label: &Label,
        initial_handle: u64,
        downgrade: Downgrading,
    ) -> (r: Result<(NodeId, u64), OakStatus>)
        requires
            old(self).wf(),
            old(self).node_exists(node_id.0),
            old(self).next_node_id < u64::MAX,
        ensures
            final(self).wf(),
            old(self).terminating ==> r == Result::<(NodeId, u64), OakStatus>::Err(
                OakStatus::ErrTerminated,
            ) && *final(self) == *old(self),
            !old(self).terminating && !(old(self).can_write(
                node_id.0,
                crate::label::public_untrusted_spec(),
                downgrade,
            ) && old(self).can_write(node_id.0, label@, downgrade)) ==> r == Result::<
                (NodeId, u64),
                OakStatus,
            >::Err(OakStatus::ErrPermissionDenied) && *final(self) == *old(self),
            !old(self).terminating && old(self).can_write(
                node_id.0,
                crate::label::public_untrusted_spec(),
                downgrade,
            ) && old(self).can_write(node_id.0, label@, downgrade) ==> {
                let n = node_id.0;
                &&& (isolation == crate::types::NodeIsolation::Uncontrolled && !crate::label::flows_to_spec(
                    crate::privilege::downgrade_spec(privilege@, label@),
                    crate::label::public_untrusted_spec(),
                ) ==> r == Result::<(NodeId, u64), OakStatus>::Err(OakStatus::ErrPermissionDenied)
                    && *final(self) == *old(self))
                &&& ((isolation == crate::types::NodeIsolation::Sandboxed
                    || crate::label::flows_to_spec(
                    crate::privilege::downgrade_spec(privilege@, label@),
                    crate::label::public_untrusted_spec(),
                )) ==> {
                    &&& (!(old(self).has_half(n, initial_handle) && old(self).half(
                        n,
                        initial_handle,
                    ).direction == ChannelHalfDirection::Read) ==> r == Result::<
                        (NodeId, u64),
                        OakStatus,
                    >::Err(OakStatus::ErrBadHandle) && *final(self) == *old(self))
                    &&& (old(self).has_half(n, initial_handle) && old(self).half(
                        n,
                        initial_handle,
                    ).direction == ChannelHalfDirection::Read ==> {
                        let half = old(self).half(n, initial_handle);
                        let c = half.channel_id;
                        &&& (r matches Ok(p) ==> {
                            let new_id = p.0.0;
                            let new_h = p.1;
                            &&& new_id == old(self).next_node_id
                            &&& final(self).next_node_id == old(self).next_node_id + 1
                            &&& final(self).next_channel_id == old(self).next_channel_id
                            &&& final(self).terminating == old(self).terminating
                            &&& final(self).pending_wakeups@ == old(self).pending_wakeups@
                            &&& final(self).channels@.dom() == old(self).channels@.dom()
                            &&& (forall|d: u64| d != c && old(self).chan_exists(d)
                                ==> final(self).chan(d) == #[trigger] old(self).chan(d))
                            &&& final(self).chan(c).reader_count == inc_count(
                                old(self).chan(c).reader_count,
                            )
                            &&& final(self).chan(c).writer_count == old(self).chan(c).writer_count
                            &&& final(self).chan(c).messages@ == old(self).chan(c).messages@
                            &&& final(self).chan(c).waiters@ == old(self).chan(c).waiters@
                            &&& final(self).chan(c).id == old(self).chan(c).id
                            &&& final(self).chan(c).name == old(self).chan(c).name
                            &&& final(self).chan(c).label == old(self).chan(c).label
                            &&& !old(self).node_exists(new_id)
                            &&& final(self).node_infos@.dom() == old(self).node_infos@.dom().insert(
                                new_id,
                            )
                            &&& (forall|m: u64| m != new_id && old(self).node_exists(m)
                                ==> final(self).node(m) == #[trigger] old(self).node(m))
                            &&& final(self).node(new_id).name@ == node_name@
                            &&& final(self).node(new_id).node_type@ == node_type@
                            &&& final(self).node(new_id).label@ == label@
                            &&& final(self).node(new_id).privilege@ == privilege@
                            &&& final(self).node(new_id).abi_handles@ == Map::<
                                u64,
                                ChannelHalf,
                            >::empty().insert(new_h, half)
                            &&& final(self).introspection_events@ == old(
                                self,
                            ).introspection_events@.push(Event::NodeCreated { node_id: new_id }).push(
                                Event::HandleCreated {
                                    node_id: new_id,
                                    handle: new_h,
                                    channel_id: c,
                                    direction: ChannelHalfDirection::Read,
                                },
                            )
                        })
                        &&& r is Ok
                    })
                })
            },
    {
        let ghost pre = *self;
        if self.is_terminating() {
            return Err(OakStatus::ErrTerminated);
        }
        let n = node_id.0;
        let public = Label::public_untrusted();
        match self.validate_can_write_to_label(node_id, &public, downgrade) {
            Ok(()) => {},
            Err(status) => {
                return Err(status);
            },
        }
        match self.validate_can_write_to_label(node_id, label, downgrade) {
            Ok(()) => {},
            Err(status) => {
                return Err(status);
            },
        }
        match isolation {
            crate::types::NodeIsolation::Uncontrolled => {
                let downgraded_label = privilege.downgrade_label(label);
                if !downgraded_label.flows_to(&public) {
                    return Err(OakStatus::ErrPermissionDenied);
                }
            },
            crate::types::NodeIsolation::Sandboxed => {},
        }
        let half = match self.abi_to_read_half(node_id, initial_handle) {
            Ok(half) => half,
            Err(status) => {
                return Err(status);
            },
        };
        let c = half.channel_id;
        proof {
            assert(pre.node_wf(n));
            assert(pre.half_lives(half));
        }
        let mut ch = match self.channels.remove(c) {
            Some(ch) => ch,
            None => {
                proof {
                    assert(false);
                }
                return Err(OakStatus::ErrInternal);
            },
        };
        ch.reader_count = count_inc(ch.reader_count);
        self.channels.insert_new(c, ch);
        proof {
            assert(self.channels@.dom() =~= pre.channels@.dom());
            assert(self.channels@ =~= pre.channels@.insert(c, self.chan(c)));
            lemma_wf_after_channel_update(pre, *self, c);
        }
        let ghost mid1 = *self;
        let new_node_id = self.new_node_id();
        let ghost mid2 = *self;
        proof {
            if pre.node_exists(new_node_id.0) {
                assert(pre.node_wf(new_node_id.0));
                assert(false);
            }
        }
        self.node_configure_instance(new_node_id, node_type, node_name, label, privilege);
        let ghost mid3 = *self;
        let new_handle = self.new_abi_handle(new_node_id, half);
        proof {
            assert(self.node(new_node_id.0).abi_handles@ =~= Map::<u64, ChannelHalf>::empty().insert(
                new_handle,
                half,
            ));
            assert forall|m: u64| m != new_node_id.0 && pre.node_exists(m) implies self.node(m)
                == #[trigger] pre.node(m) by {
                assert(mid2.node(m) == pre.node(m));
                assert(mid3.node(m) == mid2.node(m));
                assert(self.node(m) == mid3.node(m));
            }
            assert(self.node_infos@.dom() =~= pre.node_infos@.dom().insert(new_node_id.0));
            assert forall|d: u64| d != c && pre.chan_exists(d) implies self.chan(d)
                == #[trigger] pre.chan(d) by {
                assert(mid1.chan(d) == pre.chan(d));
            }
        }
        Ok((new_node_id, new_handle))
    }

    /// Remove a node: close every handle it still holds — releasing each
    /// half exactly as [`release_effect`] states, one after the other, so
    /// counts drop, orphaned channels wake their waiters and dead queues are
    /// released in turn — then remove its bookkeeping.
    pub fn remove_node_id(&mut self, node_id: NodeId)
        requires
            old(self).wf(),
            old(self).node_exists(node_id.0),
        ensures
            final(self).wf(),
            scalars_same(*old(self), *final(self)),
            chans_weakened(*old(self), *final(self)),
            pending_extended(*old(self), *final(self)),
            halves_released(
                *old(self),
                *final(self),
                table_halves(old(self).node(node_id.0).abi_handles.entries@),
            ),
            final(self).node_infos@ == old(self).node_infos@.remove(node_id.0),
            final(self).introspection_events@.len() == old(self).introspection_events@.len()
                + old(self).node(node_id.0).abi_handles.entries@.len() + 1,
            final(self).introspection_events@.subrange(
                0,
                old(self).introspection_events@.len() as int,
            ) == old(self).introspection_events@,
            (forall|j: int| 0 <= j < old(self).node(node_id.0).abi_handles.entries@.len()
                ==> final(self).introspection_events@[old(self).introspection_events@.len() + j]
                == (Event::HandleDestroyed {
                node_id: node_id.0,
                handle: (#[trigger] old(self).node(node_id.0).abi_handles.entries@[j]).0,
                channel_id: old(self).node(node_id.0).abi_handles.entries@[j].1.channel_id,
                direction: old(self).node(node_id.0).abi_handles.entries@[j].1.direction,
            })),
            (final(self).introspection_events@.last() == Event::NodeDestroyed {
                node_id: node_id.0,
            }),
    {
        let ghost pre = *self;
        let n = node_id.0;
        proof {
            assert(pre.node_wf(n));
        }
        let keys = match self.node_infos.get(n) {
            Some(info) => info.abi_handles.keys(),
            None => {
                proof {
                    assert(false);
                }
                Vec::new()
            },
        };
        let ghost table0 = pre.node(n).abi_handles@;
        let ghost entries0 = pre.node(n).abi_handles.entries@;
        let ghost th = table_halves(entries0);
        proof {
            assert forall|j: int, k: int| 0 <= j < k < keys@.len() implies keys@[j] != keys@[k] by {
                assert(pre.node(n).abi_handles.wf());
            }
            assert forall|j: int| 0 <= j < keys@.len() implies table0.dom().contains(
                #[trigger] keys@[j],
            ) by {
                crate::vecmap::lemma_entries_map_dom(entries0);
            }
            assert forall|j: int| 0 <= j < keys@.len() implies #[trigger] keys@[j]
                == entries0[j].0 && table0[keys@[j]] == entries0[j].1 by {
                crate::vecmap::lemma_entries_map_index(entries0, j);
            }
            assert(pre.pending_wakeups@.subrange(0, pre.pending_wakeups@.len() as int)
                =~= pre.pending_wakeups@);
            assert(th.subrange(0, 0) =~= Seq::<ChannelHalf>::empty());
            assert(halves_released(pre, pre, th.subrange(0, 0)));
        }
        let mut i: usize = 0;
        while i < keys.len()
            invariant
                self.wf(),
                n == node_id.0,
                pre.wf(),
                pre.node_exists(n),
                self.node_exists(n),
                i <= keys@.len(),
                table0 == pre.node(n).abi_handles@,
                entries0 == pre.node(n).abi_handles.entries@,
                th == table_halves(entries0),
                forall|j: int, k: int| 0 <= j < k < keys@.len() ==> keys@[j] != keys@[k],
                forall|j: int| 0 <= j < keys@.len() ==> table0.dom().contains(#[trigger] keys@[j]),
                forall|j: int| 0 <= j < keys@.len() ==> #[trigger] keys@[j] == entries0[j].0
                    && table0[keys@[j]] == entries0[j].1,
                keys@.len() == entries0.len(),
                scalars_same(pre, *self),
                chans_weakened(pre, *self),
                pending_extended(pre, *self),
                halves_released(pre, *self, th.subrange(0, i as int)),
                self.node_infos@.dom() == pre.node_infos@.dom(),
                forall|m: u64| m != n && pre.node_exists(m) ==> self.node(m) == #[trigger] pre.node(
                    m,
                ),
                forall|h: u64| self.node(n).abi_handles@.dom().contains(h)
                    ==> #[trigger] table0.dom().contains(h) && self.node(n).abi_handles@[h]
                    == table0[h],
                forall|j: int| 0 <= j < keys@.len() ==> (self.node(n).abi_handles@.dom().contains(
                    #[trigger] keys@[j],
                ) <==> i <= j),
                self.introspection_events@.len() == pre.introspection_events@.len() + i,
                self.introspection_events@.subrange(0, pre.introspection_events@.len() as int)
                    == pre.introspection_events@,
                forall|j: int| 0 <= j < i
                    ==> self.introspection_events@[pre.introspection_events@.len() + j]
                    == (Event::HandleDestroyed {
                    node_id: n,
                    handle: (#[trigger] entries0[j]).0,
                    channel_id: entries0[j].1.channel_id,
                    direction: entries0[j].1.direction,
                }),
            decreases keys@.len() - i,
        {
            let ghost cur = *self;
            let h = keys[i];
            proof {
                assert(self.node(n).abi_handles@.dom().contains(keys@[i as int]));
                assert(self.has_half(n, h));
            }
            let result = self.channel_close(node_id, h);
            proof {
                assert(cur.has_half(n, h));
                let half = cur.half(n, h);
                assert(half == table0[keys@[i as int]]);
                assert(half == entries0[i as int].1);
                assert(th[i as int] == entries0[i as int].1);
                lemma_weaken_compose(pre, cur, *self);
                lemma_halves_released_snoc(pre, cur, *self, th.subrange(0, i as int), half);
                assert(th.subrange(0, i + 1) =~= th.subrange(0, i as int).push(th[i as int]));
                assert(halves_released(pre, *self, th.subrange(0, i + 1)));
                assert forall|j: int| 0 <= j < keys@.len() implies (self.node(
                    n,
                ).abi_handles@.dom().contains(#[trigger] keys@[j]) <==> i + 1 <= j) by {
                    if j != i as int {
                        assert(cur.node(n).abi_handles@.dom().contains(keys@[j]) <==> i <= j);
                    }
                }
                assert(self.introspection_events@.subrange(
                    0,
                    pre.introspection_events@.len() as int,
                ) =~= cur.introspection_events@.subrange(
                    0,
                    pre.introspection_events@.len() as int,
                ));
                assert(self.introspection_events@[pre.introspection_events@.len() + i]
                    == (Event::HandleDestroyed {
                    node_id: n,
                    handle: entries0[i as int].0,
                    channel_id: entries0[i as int].1.channel_id,
                    direction: entries0[i as int].1.direction,
                }));
            }
            i = i + 1;
        }
        let ghost endloop = *self;
        let removed = self.node_infos.remove(n);
        self.introspection_events.push(Event::NodeDestroyed { node_id: n });
        proof {
            assert forall|c: u64| self.chan_exists(c) implies #[trigger] self.chan_wf(c) by {
                assert(endloop.chan_wf(c));
                assert(self.chan(c) == endloop.chan(c));
                assert forall|k: int| 0 <= k < self.chan(c).messages@.len()
                    implies self.msg_wf(#[trigger] self.chan(c).messages@[k]) by {
                    assert(endloop.msg_wf(endloop.chan(c).messages@[k]));
                }
            }
            assert forall|m: u64| self.node_exists(m) implies #[trigger] self.node_wf(m) by {
                assert(endloop.node_wf(m));
                assert(m != n);
                assert(self.node(m) == endloop.node(m));
                assert forall|h: u64| self.node(m).abi_handles@.dom().contains(h)
                    implies self.half_lives(#[trigger] self.node(m).abi_handles@[h]) by {
                    assert(endloop.half_lives(endloop.node(m).abi_handles@[h]));
                }
            }
            assert(self.introspection_events@.subrange(0, pre.introspection_events@.len() as int)
                =~= pre.introspection_events@);
            assert forall|d: u64| pre.chan_exists(d) implies chan_weakened(
                pre.chan(d),
                #[trigger] self.chan(d),
            ) by {
                assert(chan_weakened(pre.chan(d), endloop.chan(d)));
                assert(self.chan(d) == endloop.chan(d));
            }
            assert(self.channels@.dom() == endloop.channels@.dom());
            assert(self.pending_wakeups@ == endloop.pending_wakeups@);
            assert(self.node_infos@.dom() =~= pre.node_infos@.remove(n).dom());
            assert forall|m: u64| self.node_infos@.dom().contains(m)
                implies self.node_infos@[m] == pre.node_infos@.remove(n)[m] by {
                assert(m != n);
                assert(self.node(m) == endloop.node(m));
                assert(endloop.node(m) == pre.node(m));
            }
            assert(self.node_infos@ =~= pre.node_infos@.remove(n));
            assert(th.subrange(0, th.len() as int) =~= th);
            lemma_halves_released_post_congruence(pre, endloop, *self, th);
            assert forall|j: int| 0 <= j < entries0.len()
                implies self.introspection_events@[pre.introspection_events@.len() + j]
                == (Event::HandleDestroyed {
                node_id: n,
                handle: (#[trigger] entries0[j]).0,
                channel_id: entries0[j].1.channel_id,
                direction: entries0[j].1.direction,
            }) by {
                assert(self.introspection_events@[pre.introspection_events@.len() + j]
                    == endloop.introspection_events@[pre.introspection_events@.len() + j]);
            }
        }
    }

    /// Move every channel's waiter tokens to the pending wakeup queue, in
    /// table order. Every thread parked in a wait is thereby told to look
    /// again; a spurious wakeup is harmless, since the waiter recomputes.
    pub fn notify_all_waiters(&mut self)
        requires
            old(self).wf(),
        ensures
            final(self).wf(),
            (*final(self) == Runtime {
                channels: final(self).channels,
                pending_wakeups: final(self).pending_wakeups,
                ..*old(self)
            }),
            final(self).channels@.dom() == old(self).channels@.dom(),
            (forall|d: u64| #[trigger] old(self).chan_exists(d) ==> {
                &&& final(self).chan(d).id == old(self).chan(d).id
                &&& final(self).chan(d).name == old(self).chan(d).name
                &&& final(self).chan(d).label == old(self).chan(d).label
                &&& final(self).chan(d).messages@ == old(self).chan(d).messages@
                &&& final(self).chan(d).reader_count == old(self).chan(d).reader_count
                &&& final(self).chan(d).writer_count == old(self).chan(d).writer_count
                &&& final(self).chan(d).waiters@ == Seq::<u64>::empty()
            }),
            final(self).pending_wakeups@ == old(self).pending_wakeups@ + waiters_concat(
                old(self).channels.entries@,
            ),
    {
        let ghost pre = *self;
        let keys = self.channels.keys();
        let ghost entries0 = pre.channels.entries@;
        proof {
            assert forall|j: int, k: int| 0 <= j < k < keys@.len() implies keys@[j] != keys@[k] by {
                assert(pre.channels.wf());
            }
            crate::vecmap::lemma_entries_map_dom(entries0);
            assert forall|j: int| 0 <= j < keys@.len() implies pre.chan_exists(
                #[trigger] keys@[j],
            ) by {
                assert(entries0[j].0 == keys@[j]);
            }
            assert(pre.pending_wakeups@ + waiters_concat(entries0.subrange(0, 0))
                =~= pre.pending_wakeups@);
        }
        let mut i: usize = 0;
        while i < keys.len()
            invariant
                self.wf(),
                pre.wf(),
                i <= keys@.len(),
                keys@ == pre.channels.kseq(),
                entries0 == pre.channels.entries@,
                keys@.len() == entries0.len(),
                forall|j: int, k: int| 0 <= j < k < keys@.len() ==> keys@[j] != keys@[k],
                forall|j: int| 0 <= j < keys@.len() ==> pre.chan_exists(#[trigger] keys@[j]),
                scalars_same(pre, *self),
                self.node_infos == pre.node_infos,
                self.introspection_events == pre.introspection_events,
                self.channels@.dom() == pre.channels@.dom(),
                forall|d: u64| #[trigger] pre.chan_exists(d) ==> {
                    &&& self.chan(d).id == pre.chan(d).id
                    &&& self.chan(d).name == pre.chan(d).name
                    &&& self.chan(d).label == pre.chan(d).label
                    &&& self.chan(d).messages@ == pre.chan(d).messages@
                    &&& self.chan(d).reader_count == pre.chan(d).reader_count
                    &&& self.chan(d).writer_count == pre.chan(d).writer_count
                },
                forall|j: int| 0 <= j < keys@.len() ==> self.chan(#[trigger] keys@[j]).waiters@
                    == (if j < i {
                    Seq::<u64>::empty()
                } else {
                    pre.chan(keys@[j]).waiters@
                }),
                self.pending_wakeups@ == pre.pending_wakeups@ + waiters_concat(
                    entries0.subrange(0, i as int),
                ),
            decreases keys@.len() - i,
        {
            let ghost cur = *self;
            let d = keys[i];
            let mut ch = match self.channels.remove(d) {
                Some(ch) => ch,
                None => {
                    proof {
                        assert(false);
                    }
                    return ;
                },
            };
            self.pending_wakeups.append(&mut ch.waiters);
            self.channels.insert_new(d, ch);
            proof {
                assert(self.channels@.dom() =~= cur.channels@.dom());
                assert(self.channels@ =~= cur.channels@.insert(d, self.chan(d)));
                lemma_wf_after_channel_update(cur, *self, d);
                let s1 = entries0.subrange(0, i + 1);
                assert(s1.drop_last() =~= entries0.subrange(0, i as int));
                assert(s1.last() == entries0[i as int]);
                crate::vecmap::lemma_entries_map_index(entries0, i as int);
                assert(entries0[i as int].1 == pre.chan(d));
                assert(self.pending_wakeups@ =~= pre.pending_wakeups@ + waiters_concat(s1));
                assert(self.chan(d).waiters@ =~= Seq::<u64>::empty());
                assert forall|j: int| 0 <= j < keys@.len() implies self.chan(
                    #[trigger] keys@[j],
                ).waiters@ == (if j < i + 1 {
                    Seq::<u64>::empty()
                } else {
                    pre.chan(keys@[j]).waiters@
                }) by {
                    if keys@[j] != d {
                        assert(self.chan(keys@[j]) == cur.chan(keys@[j]));
                    } else {
                        assert(j == i as int);
                    }
                }
            }
            i = i + 1;
        }
        proof {
            assert(entries0.subrange(0, entries0.len() as int) =~= entries0);
            assert forall|d: u64| #[trigger] pre.chan_exists(d) implies self.chan(d).waiters@
                == Seq::<u64>::empty() by {
                crate::vecmap::lemma_entries_map_dom(entries0);
                let j = choose|j: int| 0 <= j < entries0.len() && (#[trigger] entries0[j]).0 == d;
                assert(keys@[j] == d);
            }
        }
    }

    /// Signal termination: flip the terminating flag and wake every waiter,
    /// so that every parked wait observes the flag on its next round. The
    /// embedding then joins the node threads, which exit cooperatively.
    pub fn stop(&mut self)
        requires
            old(self).wf(),
        ensures
            final(self).wf(),
            final(self).terminating,
            final(self).next_channel_id == old(self).next_channel_id,
            final(self).next_node_id == old(self).next_node_id,
            final(self).node_infos@ == old(self).node_infos@,
            final(self).introspection_events@ == old(self).introspection_events@,
            final(self).channels@.dom() == old(self).channels@.dom(),
            (forall|d: u64| #[trigger] old(self).chan_exists(d) ==> {
                &&& final(self).chan(d).id == old(self).chan(d).id
                &&& final(self).chan(d).name == old(self).chan(d).name
                &&& final(self).chan(d).label == old(self).chan(d).label
                &&& final(self).chan(d).messages@ == old(self).chan(d).messages@
                &&& final(self).chan(d).reader_count == old(self).chan(d).reader_count
                &&& final(self).chan(d).writer_count == old(self).chan(d).writer_count
                &&& final(self).chan(d).waiters@ == Seq::<u64>::empty()
            }),
            final(self).pending_wakeups@ == old(self).pending_wakeups@ + waiters_concat(
                old(self).channels.entries@,
            ),
    {
        let ghost pre = *self;
        self.terminating = true;
        proof {
            lemma_wf_same_tables(pre, *self);
        }
        let ghost mid = *self;
        self.notify_all_waiters();
        proof {
            assert forall|d: u64| #[trigger] pre.chan_exists(d) implies {
                &&& self.chan(d).id == pre.chan(d).id
                &&& self.chan(d).name == pre.chan(d).name
                &&& self.chan(d).label == pre.chan(d).label
                &&& self.chan(d).messages@ == pre.chan(d).messages@
                &&& self.chan(d).reader_count == pre.chan(d).reader_count
                &&& self.chan(d).writer_count == pre.chan(d).writer_count
                &&& self.chan(d).waiters@ == Seq::<u64>::empty()
            } by {
                assert(mid.chan_exists(d));
                assert(mid.chan(d) == pre.chan(d));
            }
        }
    }
}

impl NodeInfo {
    /// A unique debug identifier for the node, from its name and identifier.
    pub fn get_debug_id(&self, node_id: NodeId) -> (r: String)
        ensures
            r@ == self.name@ + "("@ + crate::debug_id::dec_str(node_id.0 as nat) + ")"@,
    {
        crate::debug_id::construct_debug_id(self.name.as_str(), node_id)
    }
}

impl Runtime {
    /// A unique debug identifier for the node, from its name and identifier.
    pub fn get_node_debug_id(&self, node_id: NodeId) -> (r: String)
        requires
            self.wf(),
            self.node_exists(node_id.0),
        ensures
            r@ == self.node(node_id.0).name@ + "("@ + crate::debug_id::dec_str(node_id.0 as nat)
                + ")"@,
    {
        let info = match self.node_infos.get(node_id.0) {
            Some(info) => info,
            None => {
                proof {
                    assert(false);
                }
                return String::from_str("");
            },
        };
        info.get_debug_id(node_id)
    }

    /// The label of the channel a handle of the node names, in its canonical
    /// byte form, or the capacity the caller's buffer lacks.
    pub fn get_serialized_channel_label(&self, node_id: NodeId, handle: u64, capacity: usize) -> (r:
        Result<crate::types::LabelReadStatus, OakStatus>)
        requires
            self.wf(),
            self.node_exists(node_id.0),
        ensures
            !self.has_half(node_id.0, handle) ==> r == Result::<
                crate::types::LabelReadStatus,
                OakStatus,
            >::Err(OakStatus::ErrBadHandle),
            self.has_half(node_id.0, handle) ==> {
                let wire = crate::wire::label_wire(
                    self.chan(self.half(node_id.0, handle).channel_id).label@,
                );
                &&& r is Ok
                &&& (wire.len() > capacity ==> (r->Ok_0 matches
                    crate::types::LabelReadStatus::NeedsCapacity(s) && s == wire.len()))
                &&& (wire.len() <= capacity ==> (r->Ok_0 matches
                    crate::types::LabelReadStatus::Success(b) && b@ == wire))
            },
    {
        let label = match self.get_channel_label(node_id, handle) {
            Ok(label) => label,
            Err(status) => {
                return Err(status);
            },
        };
        crate::wire::serialize_label(&label, capacity)
    }

    /// The node's own label in its canonical byte form, or the capacity the
    /// caller's buffer lacks.
    pub fn get_serialized_node_label(&self, node_id: NodeId, capacity: usize) -> (r: Result<
        crate::types::LabelReadStatus,
        OakStatus,
    >)
        requires
            self.wf(),
            self.node_exists(node_id.0),
        ensures
            r is Ok,
            ({
                let wire = crate::wire::label_wire(self.node(node_id.0).label@);
                &&& (wire.len() > capacity ==> (r->Ok_0 matches
                    crate::types::LabelReadStatus::NeedsCapacity(s) && s == wire.len()))
                &&& (wire.len() <= capacity ==> (r->Ok_0 matches
                    crate::types::LabelReadStatus::Success(b) && b@ == wire))
            }),
    {
        let label = self.get_node_label(node_id);
        crate::wire::serialize_label(&label, capacity)
    }

    /// The node's privilege, represented as a label and serialized in the
    /// canonical byte form, or the capacity the caller's buffer lacks.
    pub fn get_serialized_node_privilege(&self, node_id: NodeId, capacity: usize) -> (r: Result<
        crate::types::LabelReadStatus,
        OakStatus,
    >)
        requires
            self.wf(),
            self.node_exists(node_id.0),
        ensures
            r is Ok,
            ({
                let wire = crate::wire::label_wire(
                    crate::label::LabelV {
                        conf: self.node(node_id.0).privilege@.declassify,
                        integ: self.node(node_id.0).privilege@.endorse,
                    },
                );
                &&& (wire.len() > capacity ==> (r->Ok_0 matches
                    crate::types::LabelReadStatus::NeedsCapacity(s) && s == wire.len()))
                &&& (wire.len() <= capacity ==> (r->Ok_0 matches
                    crate::types::LabelReadStatus::Success(b) && b@ == wire))
            }),
    {
        let privilege = self.get_node_privilege(node_id);
        let label = Label::from(privilege);
        proof {
            assert(label@ =~= (crate::label::LabelV {
                conf: self.node(node_id.0).privilege@.declassify,
                integ: self.node(node_id.0).privilege@.endorse,
            }));
        }
        crate::wire::serialize_label(&label, capacity)
    }
}

/// Two weakenings in a row weaken.
proof fn lemma_weaken_compose(a: Runtime, b: Runtime, c: Runtime)
    requires
        chans_weakened(a, b),
        chans_weakened(b, c),
        pending_extended(a, b),
        pending_extended(b, c),
    ensures
        chans_weakened(a, c),
        pending_extended(a, c),
{
    assert forall|d: u64| a.chan_exists(d) implies chan_weakened(a.chan(d), #[trigger] c.chan(d)) by {
        assert(chan_weakened(a.chan(d), b.chan(d)));
        assert(chan_weakened(b.chan(d), c.chan(d)));
    }
    assert forall|j: int| 0 <= j < a.pending_wakeups@.len() implies c.pending_wakeups@[j]
        == a.pending_wakeups@[j] by {
        assert(c.pending_wakeups@.subrange(0, b.pending_wakeups@.len() as int)[j]
            == b.pending_wakeups@[j]);
        assert(b.pending_wakeups@.subrange(0, a.pending_wakeups@.len() as int)[j]
            == a.pending_wakeups@[j]);
    }
    assert(c.pending_wakeups@.subrange(0, a.pending_wakeups@.len() as int)
        =~= a.pending_wakeups@);
}

/// Whether any half of the vector points at channel `c` with direction `dir`.
fn contains_half(v: &Vec<ChannelHalf>, c: u64, dir: ChannelHalfDirection) -> (r: bool)
    ensures
        r == (occ_halves(v@, c, dir) > 0),
{
    proof {
        lemma_occ_pos(v@, c, dir);
    }
    let mut i: usize = 0;
    while i < v.len()
        invariant
            i <= v@.len(),
            forall|j: int| 0 <= j < i ==> !((#[trigger] v@[j]).channel_id == c && v@[j].direction
                == dir),
        decreases v@.len() - i,
    {
        let h = v[i];
        if h.channel_id == c && h.direction == dir {
            proof {
                assert((v@[i as int]).channel_id == c && v@[i as int].direction == dir);
                lemma_occ_pos(v@, c, dir);
            }
            return true;
        }
        i = i + 1;
    }
    proof {
        lemma_occ_pos(v@, c, dir);
    }
    false
}

/// States that agree on the tables and the identifier allocators are equally
/// well-formed: the event log and the wakeup queue play no part in it.
proof fn lemma_wf_same_tables(pre: Runtime, post: Runtime)
    requires
        pre.wf(),
        post.channels == pre.channels,
        post.node_infos == pre.node_infos,
        post.next_channel_id == pre.next_channel_id,
        post.next_node_id == pre.next_node_id,
    ensures
        post.wf(),
{
    assert forall|d: u64| post.chan_exists(d) implies #[trigger] post.chan_wf(d) by {
        assert(pre.chan_wf(d));
        assert(post.chan(d) == pre.chan(d));
        assert forall|k: int| 0 <= k < post.chan(d).messages@.len()
            implies post.msg_wf(#[trigger] post.chan(d).messages@[k]) by {
            assert(pre.msg_wf(pre.chan(d).messages@[k]));
        }
    }
    assert forall|m: u64| post.node_exists(m) implies #[trigger] post.node_wf(m) by {
        assert(pre.node_wf(m));
        assert(post.node(m) == pre.node(m));
        assert forall|h: u64| post.node(m).abi_handles@.dom().contains(h)
            implies post.half_lives(#[trigger] post.node(m).abi_handles@[h]) by {
            assert(pre.half_lives(pre.node(m).abi_handles@[h]));
        }
    }
}

/// Channels untouched in view, one node's table changed to another
/// well-formed table of live halves: the state stays well-formed.
proof fn lemma_wf_after_node_update(pre: Runtime, post: Runtime, n: u64)
    requires
        pre.wf(),
        post.channels@ == pre.channels@,
        post.channels.wf(),
        post.node_infos.wf(),
        post.next_channel_id == pre.next_channel_id,
        post.next_node_id >= pre.next_node_id,
        post.node_infos@.dom() == pre.node_infos@.dom(),
        forall|m: u64| m != n && pre.node_exists(m) ==> post.node(m) == #[trigger] pre.node(m),
        pre.node_exists(n) ==> n < pre.next_node_id,
        post.node(n).abi_handles.wf(),
        forall|h: u64| post.node(n).abi_handles@.dom().contains(h)
            ==> pre.half_lives(#[trigger] post.node(n).abi_handles@[h]),
    ensures
        post.wf(),
{
    assert forall|c: u64| post.chan_exists(c) implies #[trigger] post.chan_wf(c) by {
        assert(pre.chan_wf(c));
        assert(post.chan(c) == pre.chan(c));
        assert forall|i: int| 0 <= i < post.chan(c).messages@.len()
            implies post.msg_wf(#[trigger] post.chan(c).messages@[i]) by {
            assert(pre.msg_wf(pre.chan(c).messages@[i]));
        }
    }
    assert forall|m: u64| post.node_exists(m) implies #[trigger] post.node_wf(m) by {
        assert(pre.node_wf(m));
        if m != n {
            assert(post.node(m) == pre.node(m));
            assert forall|h: u64| post.node(m).abi_handles@.dom().contains(h)
                implies post.half_lives(#[trigger] post.node(m).abi_handles@[h]) by {
                assert(pre.half_lives(pre.node(m).abi_handles@[h]));
            }
        }
    }
}

/// One channel's value replaced, keys and message queues' targets kept: the
/// state stays well-formed provided the new value keeps the identifier and
/// only holds messages whose halves point at present channels.
proof fn lemma_wf_after_channel_update(pre: Runtime, post: Runtime, c: u64)
    requires
        pre.wf(),
        pre.chan_exists(c),
        post.channels.wf(),
        post.node_infos == pre.node_infos,
        post.next_channel_id == pre.next_channel_id,
        post.next_node_id == pre.next_node_id,
        post.channels@.dom() == pre.channels@.dom(),
        forall|d: u64| d != c && pre.chan_exists(d) ==> post.chan(d) == #[trigger] pre.chan(d),
        post.chan(c).id == pre.chan(c).id,
        post.chan(c).messages@ == pre.chan(c).messages@ || post.chan(c).messages@ == Seq::<
            Message,
        >::empty(),
    ensures
        post.wf(),
{
    assert forall|d: u64| post.chan_exists(d) implies #[trigger] post.chan_wf(d) by {
        assert(pre.chan_wf(d));
        assert forall|i: int| 0 <= i < post.chan(d).messages@.len()
            implies post.msg_wf(#[trigger] post.chan(d).messages@[i]) by {
            assert(post.chan(d).messages@[i] == pre.chan(d).messages@[i]);
            assert(pre.msg_wf(pre.chan(d).messages@[i]));
        }
    }
    assert forall|m: u64| post.node_exists(m) implies #[trigger] post.node_wf(m) by {
        assert(pre.node_wf(m));
        assert(post.node(m) == pre.node(m));
        assert forall|h: u64| post.node(m).abi_handles@.dom().contains(h)
            implies post.half_lives(#[trigger] post.node(m).abi_handles@[h]) by {
            assert(pre.half_lives(pre.node(m).abi_handles@[h]));
        }
    }
}

/// One exact release step is itself a weakening of every channel.
proof fn lemma_release_one_weakens(
    pre: Runtime,
    post: Runtime,
    h: ChannelHalf,
    dead: Option<Vec<Message>>,
)
    requires
        release_one_effect(pre, post, h, dead),
    ensures
        chans_weakened(pre, post),
        pending_extended(pre, post),
{
    let c = h.channel_id;
    assert forall|d: u64| pre.chan_exists(d) implies chan_weakened(
        pre.chan(d),
        #[trigger] post.chan(d),
    ) by {
        if d != c {
            assert(post.chan(d) == pre.chan(d));
        }
    }
    assert(post.pending_wakeups@.subrange(0, pre.pending_wakeups@.len() as int)
        =~= pre.pending_wakeups@);
}

/// Where the released channel did not die, one release step is the whole
/// release effect.
proof fn lemma_release_one_is_release(
    pre: Runtime,
    post: Runtime,
    h: ChannelHalf,
    dead: Option<Vec<Message>>,
)
    requires
        release_one_effect(pre, post, h, dead),
        dead is None,
    ensures
        release_effect(pre, post, h),
{
    lemma_release_one_weakens(pre, post, h, dead);
}

/// A release step after a weakening keeps the weakening from the snapshot.
proof fn lemma_weaken_trans(
    snap: Runtime,
    cur: Runtime,
    post: Runtime,
    h: ChannelHalf,
    dead: Option<Vec<Message>>,
)
    requires
        chans_weakened(snap, cur),
        pending_extended(snap, cur),
        scalars_same(snap, cur),
        release_one_effect(cur, post, h, dead),
    ensures
        chans_weakened(snap, post),
        pending_extended(snap, post),
        scalars_same(snap, post),
{
    lemma_release_one_weakens(cur, post, h, dead);
    assert forall|d: u64| snap.chan_exists(d) implies chan_weakened(
        snap.chan(d),
        #[trigger] post.chan(d),
    ) by {
        assert(chan_weakened(snap.chan(d), cur.chan(d)));
        assert(chan_weakened(cur.chan(d), post.chan(d)));
    }
    assert(post.pending_wakeups@.subrange(0, snap.pending_wakeups@.len() as int)
        =~= snap.pending_wakeups@);
}

/// Composing the first exact release step, whose channel died, with an
/// arbitrary cascade of further weakenings yields the stated release effect.
proof fn lemma_release_compose(
    pre: Runtime,
    snap: Runtime,
    post: Runtime,
    half: ChannelHalf,
    dead: Option<Vec<Message>>,
)
    requires
        pre.chan_exists(half.channel_id),
        release_one_effect(pre, snap, half, dead),
        dead is Some,
        chans_weakened(snap, post),
        pending_extended(snap, post),
        scalars_same(snap, post),
        post.node_infos@ == snap.node_infos@,
        post.introspection_events@ == snap.introspection_events@,
    ensures
        release_effect(pre, post, half),
{
    let c = half.channel_id;
    lemma_release_one_weakens(pre, snap, half, dead);
    assert forall|d: u64| pre.chan_exists(d) implies chan_weakened(
        pre.chan(d),
        #[trigger] post.chan(d),
    ) by {
        assert(chan_weakened(pre.chan(d), snap.chan(d)));
        assert(chan_weakened(snap.chan(d), post.chan(d)));
    }
    assert(pre.pending_wakeups@.len() <= snap.pending_wakeups@.len());
    assert forall|i: int| 0 <= i < pre.pending_wakeups@.len()
        implies post.pending_wakeups@[i] == pre.pending_wakeups@[i] by {
        assert(post.pending_wakeups@.subrange(0, snap.pending_wakeups@.len() as int)[i]
            == snap.pending_wakeups@[i]);
        assert(snap.pending_wakeups@[i] == pre.pending_wakeups@[i]);
    }
    assert(post.pending_wakeups@.subrange(0, pre.pending_wakeups@.len() as int)
        =~= pre.pending_wakeups@);
    assert(chan_weakened(snap.chan(c), post.chan(c)));
    assert(dir_count(snap.chan(c), half.direction) == 0);
    assert(dir_count(post.chan(c), half.direction) == 0);
    assert(post.chan(c).messages@ =~= Seq::<Message>::empty());
    let w = pre.chan(c).waiters@;
    assert(snap.pending_wakeups@ == pre.pending_wakeups@ + w);
    assert(post.pending_wakeups@.len() >= snap.pending_wakeups@.len());
    assert forall|j: int| 0 <= j < w.len() implies post.pending_wakeups@[pre.pending_wakeups@.len()
        + j] == w[j] by {
        assert(post.pending_wakeups@.subrange(0, snap.pending_wakeups@.len() as int)[
            pre.pending_wakeups@.len() + j] == snap.pending_wakeups@[pre.pending_wakeups@.len()
            + j]);
    }
    assert(post.pending_wakeups@.subrange(
        pre.pending_wakeups@.len() as int,
        pre.pending_wakeups@.len() + w.len() as int,
    ) =~= w);
}

} // verus!
