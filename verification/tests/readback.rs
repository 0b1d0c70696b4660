use oak_runtime::construct_debug_id;
use oak_runtime::serialize_label;
use oak_runtime::Downgrading;
use oak_runtime::Label;
use oak_runtime::LabelReadStatus;
use oak_runtime::NodeId;
use oak_runtime::NodePrivilege;
use oak_runtime::Runtime;
use oak_runtime::Tag;

#[test]
fn serialized_empty_label_is_empty() {
    let label = Label::public_untrusted();
    match serialize_label(&label, 0).unwrap() {
        LabelReadStatus::Success(bytes) => assert_eq!(bytes, Vec::<u8>::new()),
        _ => panic!("an empty label needs no capacity"),
    }
}

#[test]
fn serialized_label_has_exact_bytes() {
    let label = Label {
        confidentiality_tags: vec![Tag::Data(vec![0xAB])],
        integrity_tags: vec![Tag::Top],
    };
    match serialize_label(&label, 64).unwrap() {
        LabelReadStatus::Success(bytes) => {
            // One confidentiality tag record carrying the identity byte, then
            // one integrity tag record carrying the maximum tag.
            assert_eq!(bytes, vec![0x0a, 0x03, 0x0a, 0x01, 0xAB, 0x12, 0x02, 0x12, 0x00]);
        },
        _ => panic!("capacity was sufficient"),
    }
}

#[test]
fn serialized_label_reports_needed_capacity() {
    let label = Label {
        confidentiality_tags: vec![Tag::Data(vec![0xAB])],
        integrity_tags: vec![Tag::Top],
    };
    match serialize_label(&label, 4).unwrap() {
        LabelReadStatus::NeedsCapacity(required) => assert_eq!(required, 9),
        _ => panic!("capacity was insufficient"),
    }
}

#[test]
fn node_label_readback_round_trips() {
    let mut rt = Runtime::new();
    let a = rt.new_node_id();
    let label = Label {
        confidentiality_tags: vec![Tag::Data(vec![0xAB])],
        integrity_tags: vec![],
    };
    rt.node_configure_instance(a, "test", "n", &label, &NodePrivilege::new(vec![], vec![]));

    let needed = match rt.get_serialized_node_label(a, 0).unwrap() {
        LabelReadStatus::NeedsCapacity(s) => s,
        _ => panic!("a zero buffer cannot hold the label"),
    };
    match rt.get_serialized_node_label(a, needed).unwrap() {
        LabelReadStatus::Success(bytes) => {
            assert_eq!(bytes.len(), needed);
            assert_eq!(bytes, vec![0x0a, 0x03, 0x0a, 0x01, 0xAB]);
        },
        _ => panic!("the reported capacity must suffice"),
    }
}

#[test]
fn channel_label_readback_matches_channel() {
    let mut rt = Runtime::new();
    let a = rt.new_node_id();
    let label = Label::public_untrusted();
    rt.node_configure_instance(a, "test", "n", &label, &NodePrivilege::new(vec![], vec![]));
    let (w, _r) = rt.channel_create(a, "ch", &label, Downgrading::No).unwrap();
    match rt.get_serialized_channel_label(a, w, 16).unwrap() {
        LabelReadStatus::Success(bytes) => assert_eq!(bytes, Vec::<u8>::new()),
        _ => panic!("an empty label needs no capacity"),
    }
    assert!(rt.get_serialized_channel_label(a, 987654, 16).is_err());
}

#[test]
fn privilege_readback_uses_label_form() {
    let mut rt = Runtime::new();
    let a = rt.new_node_id();
    let label = Label::public_untrusted();
    let privilege = NodePrivilege::new(vec![Tag::Data(vec![0xCD])], vec![]);
    rt.node_configure_instance(a, "test", "n", &label, &privilege);
    match rt.get_serialized_node_privilege(a, 16).unwrap() {
        LabelReadStatus::Success(bytes) => {
            assert_eq!(bytes, vec![0x0a, 0x03, 0x0a, 0x01, 0xCD]);
        },
        _ => panic!("capacity was sufficient"),
    }
}

#[test]
fn debug_id_combines_name_and_id() {
    assert_eq!(construct_debug_id("node", NodeId(0)), "node(0)");
    assert_eq!(construct_debug_id("", NodeId(15)), "(15)");
    assert_eq!(construct_debug_id("grpc-server", NodeId(18446744073709551615)), "grpc-server(18446744073709551615)");
}

#[test]
fn encoded_config_map_has_exact_bytes() {
    let items: Vec<(Vec<u8>, Vec<u8>)> = vec![(b"a".to_vec(), vec![0x07])];
    let bytes = oak_runtime::encode_config_map(&items);
    // One entry record: the key under one field, the value under another.
    assert_eq!(bytes, vec![0x0a, 0x06, 0x0a, 0x01, 0x61, 0x12, 0x01, 0x07]);
}

#[test]
fn encoded_config_map_keeps_item_order() {
    let items: Vec<(Vec<u8>, Vec<u8>)> = vec![
        (b"a".to_vec(), vec![1]),
        (b"b".to_vec(), vec![2]),
    ];
    let bytes = oak_runtime::encode_config_map(&items);
    assert_eq!(
        bytes,
        vec![0x0a, 0x06, 0x0a, 0x01, 0x61, 0x12, 0x01, 0x01, 0x0a, 0x06, 0x0a, 0x01, 0x62, 0x12, 0x01, 0x02]
    );
    assert_eq!(oak_runtime::encode_config_map(&vec![]), Vec::<u8>::new());
}

#[test]
fn http_configuration_defaults_are_empty() {
    let http = oak_runtime::HttpConfiguration::default();
    assert_eq!(http.tls_config.certificate, Vec::<u8>::new());
    assert_eq!(http.tls_config.private_key, Vec::<u8>::new());
    assert!(http.http_client_root_tls_certificate.is_none());
}
