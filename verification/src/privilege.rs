//! Node privileges: the tags a node may declassify or endorse, and the
//! downgrade computation that weakens a label as far as the privilege allows.

use vstd::prelude::*;

use crate::label::Label;
use crate::label::LabelV;
use crate::label::Tag;
use crate::label::TagV;
use crate::label::copy_tags;
use crate::label::tags_contain;

verus! {

/// The downgrading (declassification + endorsement) privilege associated with
/// a node instance.
pub struct NodePrivilege {
    /// Tags that may be declassified (removed from the confidentiality
    /// component of a label) by the node.
    pub can_declassify_confidentiality_tags: Vec<Tag>,

    /// Tags that may be endorsed (added to the integrity component of a label)
    /// by the node.
    pub can_endorse_integrity_tags: Vec<Tag>,
}

/// Mathematical model of a [`NodePrivilege`].
#[verifier::ext_equal]
pub struct PrivilegeV {
    pub declassify: Seq<TagV>,
    pub endorse: Seq<TagV>,
}

impl View for NodePrivilege {
    type V = PrivilegeV;

    open spec fn view(&self) -> PrivilegeV {
        PrivilegeV {
            declassify: self.can_declassify_confidentiality_tags.deep_view(),
            endorse: self.can_endorse_integrity_tags.deep_view(),
        }
    }
}

/// The confidentiality tags of `conf` that the privilege may not remove.
pub open spec fn retained_conf(declassify: Seq<TagV>, conf: Seq<TagV>) -> Seq<TagV> {
    conf.filter(|t: TagV| !declassify.contains(t))
}

/// The label `l` downgraded as far as privilege `p` allows: the declassifiable
/// confidentiality tags are removed (all of them if `p` holds the maximum
/// tag), and every endorsable integrity tag is added.
pub open spec fn downgrade_spec(p: PrivilegeV, l: LabelV) -> LabelV {
    LabelV {
        conf: if p.declassify.contains(TagV::Top) {
            Seq::empty()
        } else {
            retained_conf(p.declassify, l.conf)
        },
        integ: l.integ + p.endorse,
    }
}

impl NodePrivilege {
    pub fn new(
        can_declassify_confidentiality_tags: Vec<Tag>,
        can_endorse_integrity_tags: Vec<Tag>,
    ) -> (r: Self)
        ensures
            r@.declassify == can_declassify_confidentiality_tags.deep_view(),
            r@.endorse == can_endorse_integrity_tags.deep_view(),
    {
        Self { can_declassify_confidentiality_tags, can_endorse_integrity_tags }
    }

    /// The infinite privilege: it can downgrade any data regardless of its
    /// label, and is only for trusted built-in nodes.
    pub fn top_privilege() -> (r: Self)
        ensures
            r@.declassify == seq![TagV::Top],
            r@.endorse == seq![TagV::Top],
    {
        let mut d: Vec<Tag> = Vec::new();
        d.push(Tag::Top);
        let mut e: Vec<Tag> = Vec::new();
        e.push(Tag::Top);
        let r = Self { can_declassify_confidentiality_tags: d, can_endorse_integrity_tags: e };
        proof {
            assert(r@.declassify =~= seq![TagV::Top]);
            assert(r@.endorse =~= seq![TagV::Top]);
        }
        r
    }

    /// Structural duplicate of a privilege.
    pub fn duplicate(&self) -> (r: Self)
        ensures
            r@ == self@,
    {
        let r = Self {
            can_declassify_confidentiality_tags: copy_tags(&self.can_declassify_confidentiality_tags),
            can_endorse_integrity_tags: copy_tags(&self.can_endorse_integrity_tags),
        };
        proof {
            assert(r@ =~= self@);
        }
        r
    }

    /// Generates a new label from `label` that is downgraded as much as
    /// possible using this privilege.
    pub fn downgrade_label(&self, label: &Label) -> (r: Label)
        ensures
            r@ == downgrade_spec(self@, label@),
    {
        let has_top_privilege = tags_contain(&self.can_declassify_confidentiality_tags, &Tag::Top);

        let confidentiality_tags: Vec<Tag> = if has_top_privilege {
            Vec::new()
        } else {
            self.retain_undeclassified(&label.confidentiality_tags)
        };

        let ghost lseq = label.integrity_tags.deep_view();
        let ghost eseq = self.can_endorse_integrity_tags.deep_view();
        let mut integrity_tags = copy_tags(&label.integrity_tags);
        proof {
            assert(integrity_tags.deep_view() =~= lseq + eseq.subrange(0, 0));
        }
        let mut i: usize = 0;
        while i < self.can_endorse_integrity_tags.len()
            invariant
                i <= self.can_endorse_integrity_tags.len(),
                eseq == self.can_endorse_integrity_tags.deep_view(),
                lseq == label.integrity_tags.deep_view(),
                integrity_tags.deep_view() == lseq + eseq.subrange(0, i as int),
            decreases self.can_endorse_integrity_tags.len() - i,
        {
            let ghost prev = integrity_tags@;
            let ghost pre_dv = integrity_tags.deep_view();
            let t = self.can_endorse_integrity_tags[i].duplicate();
            integrity_tags.push(t);
            proof {
                let post_dv = integrity_tags.deep_view();
                let rhs = lseq + eseq.subrange(0, i + 1);
                assert(integrity_tags@ == prev.push(t));
                assert(eseq.len() == self.can_endorse_integrity_tags@.len());
                assert(prev.len() == pre_dv.len());
                assert(pre_dv.len() == lseq.len() + i);
                assert(post_dv.len() == integrity_tags@.len());
                assert(integrity_tags@.len() == prev.len() + 1);
                assert(rhs.len() == lseq.len() + i + 1);
                assert(post_dv.len() == rhs.len());
                assert forall|j: int| 0 <= j < post_dv.len() implies post_dv[j] == rhs[j] by {
                    if j < prev.len() {
                        assert(integrity_tags@[j] == prev[j]);
                        assert(post_dv[j] == prev[j].deep_view());
                        assert(pre_dv[j] == prev[j].deep_view());
                        assert(pre_dv[j] == (lseq + eseq.subrange(0, i as int))[j]);
                        if j < lseq.len() {
                            assert(rhs[j] == lseq[j]);
                        } else {
                            assert(rhs[j] == eseq.subrange(0, i + 1)[j - lseq.len()]);
                            assert(rhs[j] == eseq[j - lseq.len()]);
                        }
                    } else {
                        assert(j == prev.len());
                        assert(integrity_tags@[j] == t);
                        assert(post_dv[j] == t.deep_view());
                        assert(t@ == self.can_endorse_integrity_tags@[i as int]@);
                        assert(eseq[i as int] == self.can_endorse_integrity_tags@[i as int].deep_view());
                        assert(rhs[j] == eseq[i as int]);
                    }
                }
                assert(post_dv =~= rhs);
            }
            i = i + 1;
        }

        let r = Label { confidentiality_tags, integrity_tags };
        proof {
            assert(r@.integ =~= label@.integ + self@.endorse);
            if has_top_privilege {
                assert(r@.conf =~= Seq::<TagV>::empty());
            }
            assert(r@ =~= downgrade_spec(self@, label@));
        }
        r
    }

    /// The tags of `conf` that this privilege may not declassify, in order.
    fn retain_undeclassified(&self, conf: &Vec<Tag>) -> (r: Vec<Tag>)
        ensures
            r.deep_view() == retained_conf(self@.declassify, conf.deep_view()),
    {
        let mut out: Vec<Tag> = Vec::new();
        let mut i: usize = 0;
        proof {
            reveal(Seq::filter);
            assert(conf.deep_view().subrange(0, 0) =~= Seq::<TagV>::empty());
        }
        while i < conf.len()
            invariant
                i <= conf.len(),
                out.deep_view() == retained_conf(
                    self@.declassify,
                    conf.deep_view().subrange(0, i as int),
                ),
            decreases conf.len() - i,
        {
            let keep = !tags_contain(&self.can_declassify_confidentiality_tags, &conf[i]);
            proof {
                reveal(Seq::filter);
                let pre = conf.deep_view().subrange(0, i as int);
                let cur = conf.deep_view().subrange(0, i + 1);
                assert(cur.drop_last() =~= pre);
                assert(cur.last() == conf.deep_view()[i as int]);
            }
            if keep {
                let t = conf[i].duplicate();
                out.push(t);
            }
            i = i + 1;
        }
        proof {
            assert(conf.deep_view().subrange(0, conf.deep_view().len() as int) =~= conf.deep_view());
        }
        out
    }
}

impl From<NodePrivilege> for Label {
    /// Converts a privilege to a label: the declassifiable tags become the
    /// confidentiality component and the endorsable tags the integrity
    /// component.
    fn from(privilege: NodePrivilege) -> (r: Self) {
        Label {
            confidentiality_tags: privilege.can_declassify_confidentiality_tags,
            integrity_tags: privilege.can_endorse_integrity_tags,
        }
    }
}

impl vstd::std_specs::convert::FromSpecImpl<NodePrivilege> for Label {
    open spec fn obeys_from_spec() -> bool {
        true
    }

    open spec fn from_spec(privilege: NodePrivilege) -> Label {
        Label {
            confidentiality_tags: privilege.can_declassify_confidentiality_tags,
            integrity_tags: privilege.can_endorse_integrity_tags,
        }
    }
}

} // verus!
