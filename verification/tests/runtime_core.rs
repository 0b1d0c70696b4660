use oak_runtime::ChannelReadStatus;
use oak_runtime::Downgrading;
use oak_runtime::Label;
use oak_runtime::NodeId;
use oak_runtime::NodeIsolation;
use oak_runtime::NodeMessage;
use oak_runtime::NodePrivilege;
use oak_runtime::OakStatus;
use oak_runtime::Runtime;
use oak_runtime::Tag;
use oak_runtime::WaitDecision;
use oak_runtime::events::Event;

fn no_privilege() -> NodePrivilege {
    NodePrivilege::new(vec![], vec![])
}

/// A runtime with one public-untrusted node installed.
fn runtime_with_node() -> (Runtime, NodeId) {
    let mut rt = Runtime::new();
    let id = rt.new_node_id();
    let label = Label::public_untrusted();
    let privilege = no_privilege();
    rt.node_configure_instance(id, "test", "node_a", &label, &privilege);
    (rt, id)
}

#[test]
fn create_and_echo() {
    let (mut rt, a) = runtime_with_node();
    let label = Label::public_untrusted();
    let (w, r) = rt.channel_create(a, "echo", &label, Downgrading::No).unwrap();
    assert_ne!(w, r);

    rt.channel_write(
        a,
        w,
        NodeMessage { bytes: vec![0x01, 0x02], handles: vec![] },
        Downgrading::No,
    )
    .unwrap();

    let got = rt.channel_read(a, r, Downgrading::No).unwrap().unwrap();
    assert_eq!(got.bytes, vec![0x01, 0x02]);
    assert_eq!(got.handles.len(), 0);

    // Dropping the only write half orphans the channel; a subsequent read
    // reports the end of the stream.
    rt.channel_close(a, w).unwrap();
    let end = rt.channel_read(a, r, Downgrading::No);
    assert_eq!(end, Err(OakStatus::ErrChannelClosed));
}

#[test]
fn empty_channel_with_writer_reads_none() {
    let (mut rt, a) = runtime_with_node();
    let label = Label::public_untrusted();
    let (_w, r) = rt.channel_create(a, "idle", &label, Downgrading::No).unwrap();
    let got = rt.channel_read(a, r, Downgrading::No).unwrap();
    assert!(got.is_none());
}

#[test]
fn orphan_on_reader_drop() {
    let (mut rt, a) = runtime_with_node();
    let label = Label::public_untrusted();
    let (w, r) = rt.channel_create(a, "orphan", &label, Downgrading::No).unwrap();
    rt.channel_close(a, r).unwrap();
    let res = rt.channel_write(
        a,
        w,
        NodeMessage { bytes: vec![1], handles: vec![] },
        Downgrading::No,
    );
    assert_eq!(res, Err(OakStatus::ErrChannelClosed));
}

#[test]
fn ifc_denial_without_privilege() {
    let mut rt = Runtime::new();
    let a = rt.new_node_id();
    let secret = Tag::Data(vec![0xAA]);
    let node_label = Label { confidentiality_tags: vec![secret], integrity_tags: vec![] };
    rt.node_configure_instance(a, "test", "secret_node", &node_label, &no_privilege());

    let public = Label::public_untrusted();
    // Channel existence is public: a secret node without declassification
    // privilege may not create one.
    let res = rt.channel_create(a, "leak", &public, Downgrading::No);
    assert_eq!(res, Err(OakStatus::ErrPermissionDenied));
}

#[test]
fn ifc_allowed_with_declassification() {
    let mut rt = Runtime::new();
    let a = rt.new_node_id();
    let node_label = Label {
        confidentiality_tags: vec![Tag::Data(vec![0xAA])],
        integrity_tags: vec![],
    };
    let privilege = NodePrivilege::new(vec![Tag::Data(vec![0xAA])], vec![]);
    rt.node_configure_instance(a, "test", "secret_node", &node_label, &privilege);

    let public = Label::public_untrusted();
    // Without applying the privilege the creation is still denied.
    assert_eq!(
        rt.channel_create(a, "ch", &public, Downgrading::No),
        Err(OakStatus::ErrPermissionDenied)
    );
    // With downgrading requested the declassification applies.
    let res = rt.channel_create(a, "ch", &public, Downgrading::Yes);
    assert!(res.is_ok());
}

#[test]
fn wait_wakes_on_enqueue() {
    let (mut rt, a) = runtime_with_node();
    let label = Label::public_untrusted();
    let (w, r) = rt.channel_create(a, "pipe", &label, Downgrading::No).unwrap();

    // Register the consumer as a node of its own, inheriting the read half.
    let (b, rb) = rt
        .node_register(
            a,
            NodeIsolation::Sandboxed,
            &no_privilege(),
            "test",
            "consumer",
            &label,
            r,
            Downgrading::No,
        )
        .unwrap();

    // The consumer finds nothing ready and is told to park.
    let token = 77u64;
    let decision = rt.wait_on_channels(b, &vec![rb], token, Downgrading::No);
    assert!(matches!(decision, WaitDecision::Park));

    // The producer enqueues one message; the parked token must be woken.
    rt.channel_write(
        a,
        w,
        NodeMessage { bytes: vec![9], handles: vec![] },
        Downgrading::No,
    )
    .unwrap();
    let wakeups = rt.take_pending_wakeups();
    assert!(wakeups.contains(&token));

    // The woken consumer's next round reports the channel ready.
    let decision = rt.wait_on_channels(b, &vec![rb], token, Downgrading::No);
    match decision {
        WaitDecision::Ready(statuses) => {
            assert_eq!(statuses, vec![ChannelReadStatus::ReadReady]);
        },
        _ => panic!("expected a ready verdict"),
    }
    let got = rt.channel_read(b, rb, Downgrading::No).unwrap().unwrap();
    assert_eq!(got.bytes, vec![9]);
}

#[test]
fn wait_reports_invalid_channel() {
    let (mut rt, a) = runtime_with_node();
    let decision = rt.wait_on_channels(a, &vec![424242], 1, Downgrading::No);
    match decision {
        WaitDecision::Ready(statuses) => {
            assert_eq!(statuses, vec![ChannelReadStatus::InvalidChannel]);
        },
        _ => panic!("expected a ready verdict"),
    }
}

#[test]
fn wait_reports_orphaned() {
    let (mut rt, a) = runtime_with_node();
    let label = Label::public_untrusted();
    let (w, r) = rt.channel_create(a, "dead", &label, Downgrading::No).unwrap();
    rt.channel_close(a, w).unwrap();
    let decision = rt.wait_on_channels(a, &vec![r], 1, Downgrading::No);
    match decision {
        WaitDecision::Ready(statuses) => {
            assert_eq!(statuses, vec![ChannelReadStatus::Orphaned]);
        },
        _ => panic!("expected a ready verdict"),
    }
}

#[test]
fn capacity_probe() {
    let (mut rt, a) = runtime_with_node();
    let label = Label::public_untrusted();
    let (w, r) = rt.channel_create(a, "probe", &label, Downgrading::No).unwrap();
    let (w2, r2) = rt.channel_create(a, "cargo", &label, Downgrading::No).unwrap();

    // One message of 7 bytes carrying 2 handles.
    rt.channel_write(
        a,
        w,
        NodeMessage { bytes: vec![1, 2, 3, 4, 5, 6, 7], handles: vec![w2, r2] },
        Downgrading::No,
    )
    .unwrap();

    let probe = rt
        .channel_try_read_message(a, r, 4, 4, Downgrading::No)
        .unwrap()
        .unwrap();
    match probe {
        oak_runtime::NodeReadStatus::NeedsCapacity(b, h) => {
            assert_eq!(b, 7);
            assert_eq!(h, 2);
        },
        _ => panic!("expected a capacity report"),
    }

    // The message is still enqueued; with enough capacity it is delivered.
    let taken = rt
        .channel_try_read_message(a, r, 7, 2, Downgrading::No)
        .unwrap()
        .unwrap();
    match taken {
        oak_runtime::NodeReadStatus::Success(nm) => {
            assert_eq!(nm.bytes, vec![1, 2, 3, 4, 5, 6, 7]);
            assert_eq!(nm.handles.len(), 2);
        },
        _ => panic!("expected the message"),
    }
}

#[test]
fn round_trip_handles_name_same_channel() {
    let (mut rt, a) = runtime_with_node();
    let label = Label::public_untrusted();
    let (w, r) = rt.channel_create(a, "main", &label, Downgrading::No).unwrap();
    let (w2, r2) = rt.channel_create(a, "sent", &label, Downgrading::No).unwrap();

    let dir_w2 = rt.abi_direction(a, w2).unwrap();
    let dir_r2 = rt.abi_direction(a, r2).unwrap();

    rt.channel_write(
        a,
        w,
        NodeMessage { bytes: vec![], handles: vec![w2, r2] },
        Downgrading::No,
    )
    .unwrap();
    let got = rt.channel_read(a, r, Downgrading::No).unwrap().unwrap();
    assert_eq!(got.handles.len(), 2);
    // The received handles are new names for the same halves, in order.
    assert_ne!(got.handles[0], got.handles[1]);
    assert_eq!(rt.abi_direction(a, got.handles[0]).unwrap(), dir_w2);
    assert_eq!(rt.abi_direction(a, got.handles[1]).unwrap(), dir_r2);
    // Writing through the received write handle reaches the original reader.
    rt.channel_write(
        a,
        got.handles[0],
        NodeMessage { bytes: vec![42], handles: vec![] },
        Downgrading::No,
    )
    .unwrap();
    let msg = rt.channel_read(a, r2, Downgrading::No).unwrap().unwrap();
    assert_eq!(msg.bytes, vec![42]);
}

#[test]
fn shutdown_terminates_waiters_and_removes_nodes() {
    let (mut rt, a) = runtime_with_node();
    let label = Label::public_untrusted();

    // Three nodes, each parked waiting on its own empty channel.
    let mut nodes = Vec::new();
    for i in 0..3u64 {
        let (_w, r) = rt.channel_create(a, "worker", &label, Downgrading::No).unwrap();
        let (b, rb) = rt
            .node_register(
                a,
                NodeIsolation::Sandboxed,
                &no_privilege(),
                "test",
                "worker",
                &label,
                r,
                Downgrading::No,
            )
            .unwrap();
        let decision = rt.wait_on_channels(b, &vec![rb], 100 + i, Downgrading::No);
        assert!(matches!(decision, WaitDecision::Park));
        nodes.push((b, rb, 100 + i));
    }

    rt.stop();
    assert!(rt.is_terminating());

    // Every parked token has been told to wake.
    let wakeups = rt.take_pending_wakeups();
    for (_, _, token) in &nodes {
        assert!(wakeups.contains(token));
    }

    // Every subsequent wait round reports termination, and the cooperative
    // nodes then exit and are removed.
    for (b, rb, token) in &nodes {
        let decision = rt.wait_on_channels(*b, &vec![*rb], *token, Downgrading::No);
        assert!(matches!(decision, WaitDecision::Terminated));
        rt.remove_node_id(*b);
    }
    rt.remove_node_id(a);
    assert_eq!(rt.node_infos.len(), 0);
}

#[test]
fn create_after_stop_is_terminated() {
    let (mut rt, a) = runtime_with_node();
    rt.stop();
    let label = Label::public_untrusted();
    assert_eq!(
        rt.channel_create(a, "late", &label, Downgrading::No),
        Err(OakStatus::ErrTerminated)
    );
    assert_eq!(rt.handle_clone(a, 1), Err(OakStatus::ErrTerminated));
}

#[test]
fn bad_handles_are_rejected() {
    let (mut rt, a) = runtime_with_node();
    let label = Label::public_untrusted();
    let (w, r) = rt.channel_create(a, "ch", &label, Downgrading::No).unwrap();

    // A handle value that was never allocated.
    assert_eq!(rt.channel_read(a, 123456, Downgrading::No), Err(OakStatus::ErrBadHandle));
    assert_eq!(rt.channel_close(a, 123456), Err(OakStatus::ErrBadHandle));
    // Wrong directions.
    assert_eq!(rt.channel_read(a, w, Downgrading::No), Err(OakStatus::ErrBadHandle));
    assert_eq!(
        rt.channel_write(a, r, NodeMessage { bytes: vec![], handles: vec![] }, Downgrading::No),
        Err(OakStatus::ErrBadHandle)
    );
    // A message carrying an unknown handle is rejected.
    assert_eq!(
        rt.channel_write(
            a,
            w,
            NodeMessage { bytes: vec![], handles: vec![999999] },
            Downgrading::No
        ),
        Err(OakStatus::ErrBadHandle)
    );
}

#[test]
fn handle_clone_names_same_half() {
    let (mut rt, a) = runtime_with_node();
    let label = Label::public_untrusted();
    let (w, r) = rt.channel_create(a, "ch", &label, Downgrading::No).unwrap();
    let w2 = rt.handle_clone(a, w).unwrap();
    assert_ne!(w2, w);
    // Closing the original write handle does not orphan the channel: the
    // clone still keeps a writer alive.
    rt.channel_close(a, w).unwrap();
    assert!(rt.channel_read(a, r, Downgrading::No).unwrap().is_none());
    // Closing the last write handle orphans it.
    rt.channel_close(a, w2).unwrap();
    assert_eq!(rt.channel_read(a, r, Downgrading::No), Err(OakStatus::ErrChannelClosed));
}

#[test]
fn uncontrolled_node_needs_public_privilege() {
    let mut rt = Runtime::new();
    let a = rt.new_node_id();
    let secret_label = Label {
        confidentiality_tags: vec![Tag::Data(vec![7])],
        integrity_tags: vec![],
    };
    let privilege = NodePrivilege::new(vec![Tag::Data(vec![7])], vec![]);
    rt.node_configure_instance(a, "test", "creator", &secret_label, &privilege);
    let (_w, r) = rt.channel_create(a, "init", &secret_label, Downgrading::Yes).unwrap();

    // An uncontrolled node with a secret label and no privilege of its own
    // may not be registered: it could leak without restriction.
    let res = rt.node_register(
        a,
        NodeIsolation::Uncontrolled,
        &no_privilege(),
        "test",
        "leaky",
        &secret_label,
        r,
        Downgrading::Yes,
    );
    assert_eq!(res, Err(OakStatus::ErrPermissionDenied));

    // A sandboxed instance with the same label is admissible.
    let res = rt.node_register(
        a,
        NodeIsolation::Sandboxed,
        &no_privilege(),
        "test",
        "contained",
        &secret_label,
        r,
        Downgrading::Yes,
    );
    assert!(res.is_ok());
}

#[test]
fn introspection_events_follow_causal_order() {
    let (mut rt, a) = runtime_with_node();
    let label = Label::public_untrusted();
    let (w, r) = rt.channel_create(a, "ch", &label, Downgrading::No).unwrap();
    rt.channel_write(a, w, NodeMessage { bytes: vec![1], handles: vec![] }, Downgrading::No)
        .unwrap();
    rt.channel_read(a, r, Downgrading::No).unwrap().unwrap();

    let events = &rt.introspection_events;
    assert_eq!(events[0], Event::NodeCreated { node_id: a.0 });
    assert!(matches!(events[1], Event::ChannelCreated { channel_id: 0 }));
    assert!(matches!(events[2], Event::HandleCreated { handle, .. } if handle == w));
    assert!(matches!(events[3], Event::HandleCreated { handle, .. } if handle == r));
    assert!(matches!(events[4], Event::MessageEnqueued { channel_id: 0, .. }));
    assert!(matches!(events[5], Event::MessageDequeued { channel_id: 0, .. }));
}

#[test]
fn channel_status_reports_permission_as_status() {
    let mut rt = Runtime::new();
    let a = rt.new_node_id();
    let secret = Label { confidentiality_tags: vec![Tag::Data(vec![1])], integrity_tags: vec![] };
    let privilege = NodePrivilege::new(vec![Tag::Data(vec![1])], vec![]);
    rt.node_configure_instance(a, "test", "writer", &secret, &privilege);
    let (_w, r) = rt.channel_create(a, "ch", &secret, Downgrading::Yes).unwrap();

    // A public node is registered and handed the read half; it may not read
    // the secret channel, and a wait reports that as a per-channel verdict.
    let public = Label::public_untrusted();
    let (b, rb) = rt
        .node_register(
            a,
            NodeIsolation::Sandboxed,
            &no_privilege(),
            "test",
            "reader",
            &public,
            r,
            Downgrading::Yes,
        )
        .unwrap();
    let decision = rt.wait_on_channels(b, &vec![rb], 5, Downgrading::No);
    match decision {
        WaitDecision::Ready(statuses) => {
            assert_eq!(statuses, vec![ChannelReadStatus::PermissionDenied]);
        },
        _ => panic!("expected a ready verdict"),
    }
    assert_eq!(rt.channel_read(b, rb, Downgrading::No), Err(OakStatus::ErrPermissionDenied));
}

#[test]
fn wait_with_no_handles_returns_immediately() {
    let (mut rt, a) = runtime_with_node();
    let decision = rt.wait_on_channels(a, &vec![], 1, Downgrading::No);
    match decision {
        WaitDecision::Ready(statuses) => assert_eq!(statuses.len(), 0),
        _ => panic!("an empty wait has nothing to wait for"),
    }
}

#[test]
fn cloned_handles_are_pairwise_distinct() {
    let (mut rt, a) = runtime_with_node();
    let label = Label::public_untrusted();
    let (w, r) = rt.channel_create(a, "ch", &label, Downgrading::No).unwrap();
    let mut handles = vec![w, r];
    for _ in 0..8 {
        let h = rt.handle_clone(a, w).unwrap();
        handles.push(h);
    }
    for i in 0..handles.len() {
        for j in (i + 1)..handles.len() {
            assert_ne!(handles[i], handles[j]);
        }
    }
}
