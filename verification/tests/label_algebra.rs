use oak_runtime::label::top;
use oak_runtime::Label;
use oak_runtime::NodePrivilege;
use oak_runtime::Tag;

fn data_tag(byte: u8) -> Tag {
    Tag::Data(vec![byte])
}

#[test]
fn public_untrusted_flows_to_everything() {
    let public = Label::public_untrusted();
    let secret = Label { confidentiality_tags: vec![data_tag(1)], integrity_tags: vec![] };
    assert!(public.flows_to(&secret));
    assert!(!secret.flows_to(&public));
}

#[test]
fn flows_to_requires_conf_subset_and_integ_superset() {
    let a = Label { confidentiality_tags: vec![data_tag(1)], integrity_tags: vec![data_tag(9)] };
    let b = Label {
        confidentiality_tags: vec![data_tag(1), data_tag(2)],
        integrity_tags: vec![],
    };
    // a's confidentiality tags are a subset of b's, and b's integrity tags
    // (none) are a subset of a's.
    assert!(a.flows_to(&b));
    // b has a confidentiality tag that a lacks.
    assert!(!b.flows_to(&a));
    // A target with more integrity than the source offers is not reachable.
    let trusted = Label {
        confidentiality_tags: vec![data_tag(1), data_tag(2)],
        integrity_tags: vec![data_tag(7)],
    };
    assert!(!a.flows_to(&trusted));
}

#[test]
fn flows_to_is_reflexive_on_equal_labels() {
    let a = Label { confidentiality_tags: vec![data_tag(3)], integrity_tags: vec![data_tag(4)] };
    let b = Label { confidentiality_tags: vec![data_tag(3)], integrity_tags: vec![data_tag(4)] };
    assert!(a.flows_to(&b));
    assert!(b.flows_to(&a));
}

#[test]
fn downgrade_removes_declassifiable_tags() {
    let privilege = NodePrivilege::new(vec![data_tag(1)], vec![]);
    let label = Label {
        confidentiality_tags: vec![data_tag(1), data_tag(2)],
        integrity_tags: vec![],
    };
    let downgraded = privilege.downgrade_label(&label);
    assert_eq!(downgraded.confidentiality_tags.len(), 1);
    assert!(matches!(&downgraded.confidentiality_tags[0], Tag::Data(b) if b == &vec![2u8]));
}

#[test]
fn downgrade_with_top_privilege_clears_confidentiality() {
    let privilege = NodePrivilege::top_privilege();
    let label = Label {
        confidentiality_tags: vec![data_tag(1), data_tag(2)],
        integrity_tags: vec![],
    };
    let downgraded = privilege.downgrade_label(&label);
    assert_eq!(downgraded.confidentiality_tags.len(), 0);
    // The endorsable tags are added to the integrity component.
    assert_eq!(downgraded.integrity_tags.len(), 1);
    assert!(matches!(&downgraded.integrity_tags[0], Tag::Top));
}

#[test]
fn downgrade_adds_endorsed_integrity_tags() {
    let privilege = NodePrivilege::new(vec![], vec![data_tag(5)]);
    let label = Label { confidentiality_tags: vec![], integrity_tags: vec![data_tag(4)] };
    let downgraded = privilege.downgrade_label(&label);
    assert_eq!(downgraded.integrity_tags.len(), 2);
    assert!(matches!(&downgraded.integrity_tags[0], Tag::Data(b) if b == &vec![4u8]));
    assert!(matches!(&downgraded.integrity_tags[1], Tag::Data(b) if b == &vec![5u8]));
}

#[test]
fn privilege_converts_to_label() {
    let privilege = NodePrivilege::new(vec![data_tag(1)], vec![data_tag(2)]);
    let label = Label::from(privilege);
    assert_eq!(label.confidentiality_tags.len(), 1);
    assert_eq!(label.integrity_tags.len(), 1);
}

#[test]
fn top_tag_is_its_own_kind() {
    let t = top();
    assert!(matches!(t, Tag::Top));
    let data = data_tag(0);
    assert!(matches!(data, Tag::Data(_)));
}
