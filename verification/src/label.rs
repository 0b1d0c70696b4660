//! The label algebra: confidentiality/integrity tag sets and the `flows_to`
//! lattice order that gates every data movement in the runtime.

use vstd::prelude::*;

verus! {

/// A tag is an opaque value compared structurally. The distinguished `Top`
/// value is the maximum element in its lattice; every other tag carries an
/// opaque byte identity.
#[derive(Debug)]
pub enum Tag {
    Top,
    Data(Vec<u8>),
}

/// Mathematical model of a [`Tag`].
#[verifier::ext_equal]
pub enum TagV {
    Top,
    Data(Seq<u8>),
}

impl View for Tag {
    type V = TagV;

    open spec fn view(&self) -> TagV {
        match self {
            Tag::Top => TagV::Top,
            Tag::Data(b) => TagV::Data(b@),
        }
    }
}

impl DeepView for Tag {
    type V = TagV;

    open spec fn deep_view(&self) -> TagV {
        self.view()
    }
}

/// A label is a pair of tag sets: confidentiality tags and integrity tags.
#[derive(Debug)]
pub struct Label {
    pub confidentiality_tags: Vec<Tag>,
    pub integrity_tags: Vec<Tag>,
}

/// Mathematical model of a [`Label`]: two sequences of tag values. Only their
/// set semantics matter for the lattice order.
#[verifier::ext_equal]
pub struct LabelV {
    pub conf: Seq<TagV>,
    pub integ: Seq<TagV>,
}

impl View for Label {
    type V = LabelV;

    open spec fn view(&self) -> LabelV {
        LabelV { conf: self.confidentiality_tags.deep_view(), integ: self.integrity_tags.deep_view() }
    }
}

/// Every element of `a` occurs in `b` (subset, under set semantics).
pub open spec fn tags_subset(a: Seq<TagV>, b: Seq<TagV>) -> bool {
    forall|i: int| 0 <= i < a.len() ==> b.contains(a[i])
}

/// The lattice order: `a` flows to `b` iff `a`'s confidentiality tags are all
/// present in `b` and `b`'s integrity tags are all present in `a`.
pub open spec fn flows_to_spec(a: LabelV, b: LabelV) -> bool {
    tags_subset(a.conf, b.conf) && tags_subset(b.integ, a.integ)
}

/// The "public untrusted" label: both tag sets empty.
pub open spec fn public_untrusted_spec() -> LabelV {
    LabelV { conf: Seq::empty(), integ: Seq::empty() }
}

impl Tag {
    /// Structural duplicate of a tag.
    pub fn duplicate(&self) -> (r: Tag)
        ensures
            r@ == self@,
    {
        match self {
            Tag::Top => Tag::Top,
            Tag::Data(b) => Tag::Data(copy_bytes(b)),
        }
    }
}

/// Structural duplicate of a byte vector.
pub fn copy_bytes(b: &Vec<u8>) -> (r: Vec<u8>)
    ensures
        r@ == b@,
{
    let mut out: Vec<u8> = Vec::new();
    let mut i: usize = 0;
    while i < b.len()
        invariant
            i <= b.len(),
            out@ == b@.subrange(0, i as int),
        decreases b.len() - i,
    {
        out.push(b[i]);
        i = i + 1;
    }
    proof {
        assert(out@ =~= b@);
    }
    out
}

/// Structural equality of byte vectors.
pub fn bytes_eq(a: &Vec<u8>, b: &Vec<u8>) -> (r: bool)
    ensures
        r == (a@ == b@),
{
    if a.len() != b.len() {
        return false;
    }
    let mut i: usize = 0;
    while i < a.len()
        invariant
            i <= a.len(),
            a@.len() == b@.len(),
            forall|j: int| 0 <= j < i ==> a@[j] == b@[j],
        decreases a.len() - i,
    {
        if a[i] != b[i] {
            return false;
        }
        i = i + 1;
    }
    proof {
        assert(a@ =~= b@);
    }
    true
}

/// Structural equality of tags.
pub fn tag_eq(a: &Tag, b: &Tag) -> (r: bool)
    ensures
        r == (a@ == b@),
{
    match (a, b) {
        (Tag::Top, Tag::Top) => true,
        (Tag::Data(x), Tag::Data(y)) => bytes_eq(x, y),
        _ => false,
    }
}

/// Whether the tag sequence contains a tag equal to `t`.
pub fn tags_contain(v: &Vec<Tag>, t: &Tag) -> (r: bool)
    ensures
        r == v.deep_view().contains(t@),
{
    let mut i: usize = 0;
    while i < v.len()
        invariant
            i <= v.len(),
            forall|j: int| 0 <= j < i ==> v.deep_view()[j] != t@,
        decreases v.len() - i,
    {
        if tag_eq(&v[i], t) {
            assert(v.deep_view()[i as int] == t@);
            return true;
        }
        i = i + 1;
    }
    false
}

/// Whether every tag of `a` occurs in `b`.
pub fn tags_subset_exec(a: &Vec<Tag>, b: &Vec<Tag>) -> (r: bool)
    ensures
        r == tags_subset(a.deep_view(), b.deep_view()),
{
    let mut i: usize = 0;
    while i < a.len()
        invariant
            i <= a.len(),
            forall|j: int| 0 <= j < i ==> b.deep_view().contains(a.deep_view()[j]),
        decreases a.len() - i,
    {
        if !tags_contain(b, &a[i]) {
            assert(!b.deep_view().contains(a.deep_view()[i as int]));
            return false;
        }
        i = i + 1;
    }
    true
}

impl Label {
    /// The lattice order on labels under which information may flow.
    pub fn flows_to(&self, other: &Label) -> (r: bool)
        ensures
            r == flows_to_spec(self@, other@),
    {
        tags_subset_exec(&self.confidentiality_tags, &other.confidentiality_tags)
            && tags_subset_exec(&other.integrity_tags, &self.integrity_tags)
    }

    /// The label carrying no confidentiality and no integrity tags.
    pub fn public_untrusted() -> (r: Label)
        ensures
            r@ == public_untrusted_spec(),
    {
        let r = Label { confidentiality_tags: Vec::new(), integrity_tags: Vec::new() };
        proof {
            assert(r@ =~= public_untrusted_spec());
        }
        r
    }

    /// Structural duplicate of a label.
    pub fn duplicate(&self) -> (r: Label)
        ensures
            r@ == self@,
    {
        let r = Label {
            confidentiality_tags: copy_tags(&self.confidentiality_tags),
            integrity_tags: copy_tags(&self.integrity_tags),
        };
        proof {
            assert(r@ =~= self@);
        }
        r
    }
}

/// The distinguished maximum tag.
pub fn top() -> (r: Tag)
    ensures
        r@ == TagV::Top,
{
    Tag::Top
}

/// Structural duplicate of a tag vector.
pub fn copy_tags(v: &Vec<Tag>) -> (r: Vec<Tag>)
    ensures
        r.deep_view() == v.deep_view(),
{
    let mut out: Vec<Tag> = Vec::new();
    let mut i: usize = 0;
    while i < v.len()
        invariant
            i <= v.len(),
            out@.len() == i,
            forall|j: int| 0 <= j < i ==> out.deep_view()[j] == v.deep_view()[j],
        decreases v.len() - i,
    {
        let t = v[i].duplicate();
        out.push(t);
        i = i + 1;
    }
    proof {
        assert(out.deep_view() =~= v.deep_view());
    }
    out
}

} // verus!
