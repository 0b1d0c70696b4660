//! The laws the runtime obeys, stated and proved over the mathematical model
//! that the operations' contracts use.

use vstd::prelude::*;

use crate::label::flows_to_spec;
use crate::runtime::Runtime;
use crate::types::ChannelHalf;
use crate::types::ChannelReadStatus;
use crate::types::Downgrading;
use crate::types::NodeMessage;

verus! {

/// Label monotonicity for writes: wherever a write succeeds, the writer's
/// effective label flows to the label of the channel written to. Information
/// never moves against the lattice order.
pub proof fn lemma_write_respects_labels(
    s: Runtime,
    n: u64,
    write_handle: u64,
    handles: Seq<u64>,
    downgrade: Downgrading,
)
    requires
        s.write_result(n, write_handle, handles, downgrade) is Ok,
    ensures
        flows_to_spec(
            s.effective_label(n, s.node(n).label@, downgrade),
            s.chan(s.half(n, write_handle).channel_id).label@,
        ),
{
}

/// Label monotonicity for reads: a read (and any per-channel status other
/// than a permission denial) is only granted where the channel's effective
/// label flows to the reader's label.
pub proof fn lemma_read_respects_labels(s: Runtime, n: u64, c: u64, downgrade: Downgrading)
    requires
        s.read_status(n, c, downgrade) != ChannelReadStatus::PermissionDenied,
    ensures
        flows_to_spec(
            s.effective_label(n, s.chan(c).label@, downgrade),
            s.node(n).label@,
        ),
{
}

/// Handle uniqueness: in a well-formed runtime, the handles in any one node's
/// table are pairwise distinct.
pub proof fn lemma_handles_pairwise_distinct(s: Runtime, n: u64)
    requires
        s.wf(),
        s.node_exists(n),
    ensures
        forall|i: int, j: int|
            0 <= i < j < s.node(n).abi_handles.entries@.len()
                ==> (#[trigger] s.node(n).abi_handles.entries@[i]).0
                != (#[trigger] s.node(n).abi_handles.entries@[j]).0,
{
    assert(s.node_wf(n));
}

/// Orphan detection: a readable channel with an empty queue reports its end
/// of stream exactly when no writer is left; while any writer exists it only
/// reports that nothing is ready yet.
pub proof fn lemma_orphan_detection(s: Runtime, n: u64, c: u64, downgrade: Downgrading)
    requires
        s.can_read(n, s.chan(c).label@, downgrade),
        s.chan(c).messages@.len() == 0,
    ensures
        s.chan(c).writer_count == 0 ==> s.read_status(n, c, downgrade)
            == ChannelReadStatus::Orphaned,
        s.chan(c).writer_count > 0 ==> s.read_status(n, c, downgrade)
            == ChannelReadStatus::NotReady,
{
}

/// Wait liveness: a token registered as a waiter on a channel is placed on
/// the pending wakeup queue by any successful write to that channel, and the
/// channel then holds a message, so the woken waiter's next round reports it
/// ready to any reader the label admits.
pub proof fn lemma_wait_wakes_on_enqueue(
    s0: Runtime,
    s1: Runtime,
    writer: u64,
    c: u64,
    bytes: Seq<u8>,
    halves: Seq<ChannelHalf>,
    token: u64,
    reader: u64,
    downgrade: Downgrading,
)
    requires
        s0.chan(c).waiters@.contains(token),
        Runtime::write_ok_effect(s0, s1, writer, c, bytes, halves),
    ensures
        s1.pending_wakeups@.contains(token),
        s1.chan(c).messages@.len() > 0,
        s1.can_read(reader, s1.chan(c).label@, downgrade) ==> s1.read_status(reader, c, downgrade)
            == ChannelReadStatus::ReadReady,
{
    let w = s0.chan(c).waiters@;
    let k = choose|k: int| 0 <= k < w.len() && w[k] == token;
    assert(s1.pending_wakeups@[s0.pending_wakeups@.len() + k] == token);
}

/// Handle round trip: a message written with a sequence of halves arrives,
/// when read from the front of the queue, carrying fresh handles that name
/// exactly those halves — same channel and same direction, index by index —
/// and the same payload bytes.
pub proof fn lemma_handle_round_trip(
    s0: Runtime,
    s1: Runtime,
    s2: Runtime,
    sender: u64,
    receiver: u64,
    c: u64,
    bytes: Seq<u8>,
    halves: Seq<ChannelHalf>,
    nm: NodeMessage,
)
    requires
        s0.chan(c).messages@.len() == 0,
        Runtime::write_ok_effect(s0, s1, sender, c, bytes, halves),
        Runtime::read_ok_effect(s1, s2, receiver, c, nm),
    ensures
        nm.bytes@ == bytes,
        nm.handles@.len() == halves.len(),
        forall|i: int| 0 <= i < nm.handles@.len() ==> s2.has_half(
            receiver,
            #[trigger] nm.handles@[i],
        ) && s2.half(receiver, nm.handles@[i]) == halves[i],
        forall|i: int, j: int| 0 <= i < j < nm.handles@.len() ==> nm.handles@[i] != nm.handles@[j],
{
    assert(s1.chan(c).messages@.len() == 1);
    assert(s1.chan(c).messages@[0] == s1.chan(c).messages@.last());
}

} // verus!
