//! The canonical byte form of a label, used by the label readback operations:
//! a length-delimited tag record per tag, confidentiality tags first, with
//! lengths as base-128 varints.

use vstd::prelude::*;

use crate::label::Label;
use crate::label::LabelV;
use crate::label::Tag;
use crate::label::TagV;
use crate::types::LabelReadStatus;
use crate::types::OakStatus;

verus! {

/// A length in base-128 varint form: seven bits per byte, low group first,
/// the high bit marking continuation.
pub open spec fn varint(n: nat) -> Seq<u8>
    decreases n,
{
    if n < 128 {
        seq![n as u8]
    } else {
        seq![(128 + (n % 128)) as u8] + varint(n / 128)
    }
}

/// A field: its key byte, the payload length, the payload.
pub open spec fn field_wire(key: u8, payload: Seq<u8>) -> Seq<u8> {
    seq![key] + varint(payload.len()) + payload
}

/// One tag: the maximum tag is an empty record under its own key; any other
/// tag is its identity bytes under the data key.
pub open spec fn tag_wire(t: TagV) -> Seq<u8> {
    match t {
        TagV::Top => seq![0x12u8, 0x00u8],
        TagV::Data(b) => seq![0x0au8] + varint(b.len()) + b,
    }
}

/// A sequence of tags, each wrapped as a field under `key`, in order.
pub open spec fn tags_wire(ts: Seq<TagV>, key: u8) -> Seq<u8>
    decreases ts.len(),
{
    if ts.len() == 0 {
        Seq::empty()
    } else {
        tags_wire(ts.drop_last(), key) + field_wire(key, tag_wire(ts.last()))
    }
}

/// The canonical byte form of a label: its confidentiality tags under one
/// key, then its integrity tags under another.
pub open spec fn label_wire(l: LabelV) -> Seq<u8> {
    tags_wire(l.conf, 0x0a) + tags_wire(l.integ, 0x12)
}

/// Append the varint form of `n`.
fn encode_varint(out: &mut Vec<u8>, n: u64)
    ensures
        final(out)@ == old(out)@ + varint(n as nat),
    decreases n,
{
    let ghost pre = out@;
    if n < 128 {
        out.push(n as u8);
        proof {
            assert(out@ =~= pre + varint(n as nat));
        }
    } else {
        out.push((128 + (n % 128)) as u8);
        let ghost mid = out@;
        encode_varint(out, n / 128);
        proof {
            assert(mid =~= pre + seq![(128 + (n as nat % 128)) as u8]);
            assert(out@ =~= pre + varint(n as nat));
        }
    }
}

/// Append the byte form of one tag.
fn encode_tag(out: &mut Vec<u8>, t: &Tag)
    ensures
        final(out)@ == old(out)@ + tag_wire(t@),
{
    let ghost pre = out@;
    match t {
        Tag::Top => {
            out.push(0x12);
            out.push(0x00);
            proof {
                assert(out@ =~= pre + tag_wire(t@));
            }
        },
        Tag::Data(b) => {
            out.push(0x0a);
            let ghost mid = out@;
            encode_varint(out, b.len() as u64);
            let mut i: usize = 0;
            let ghost mid2 = out@;
            while i < b.len()
                invariant
                    i <= b@.len(),
                    out@ == mid2 + b@.subrange(0, i as int),
                decreases b@.len() - i,
            {
                out.push(b[i]);
                proof {
                    assert(out@ =~= mid2 + b@.subrange(0, i + 1));
                }
                i = i + 1;
            }
            proof {
                assert(out@ =~= mid2 + b@);
                assert(mid =~= pre + seq![0x0au8]);
                assert(out@ =~= pre + tag_wire(t@));
            }
        },
    }
}

/// Append one tag wrapped as a field under `key`.
fn encode_tag_field(out: &mut Vec<u8>, key: u8, t: &Tag)
    ensures
        final(out)@ == old(out)@ + field_wire(key, tag_wire(t@)),
{
    let ghost pre = out@;
    let mut payload: Vec<u8> = Vec::new();
    encode_tag(&mut payload, t);
    proof {
        assert(payload@ =~= tag_wire(t@));
    }
    out.push(key);
    let ghost mid = out@;
    encode_varint(out, payload.len() as u64);
    let ghost mid2 = out@;
    out.append(&mut payload);
    proof {
        assert(mid =~= pre + seq![key]);
        assert(out@ =~= pre + field_wire(key, tag_wire(t@)));
    }
}

/// Append a tag vector, each tag as a field under `key`.
fn encode_tags(out: &mut Vec<u8>, key: u8, ts: &Vec<Tag>)
    ensures
        final(out)@ == old(out)@ + tags_wire(ts.deep_view(), key),
{
    let ghost pre = out@;
    let ghost tv = ts.deep_view();
    let mut i: usize = 0;
    proof {
        assert(tags_wire(tv.subrange(0, 0), key) =~= Seq::<u8>::empty());
        assert(out@ =~= pre + tags_wire(tv.subrange(0, 0), key));
    }
    while i < ts.len()
        invariant
            i <= ts@.len(),
            tv == ts.deep_view(),
            out@ == pre + tags_wire(tv.subrange(0, i as int), key),
        decreases ts@.len() - i,
    {
        encode_tag_field(out, key, &ts[i]);
        proof {
            let s1 = tv.subrange(0, i + 1);
            assert(s1.drop_last() =~= tv.subrange(0, i as int));
            assert(s1.last() == tv[i as int]);
            assert(ts@[i as int]@ == tv[i as int]);
            assert(out@ =~= pre + tags_wire(s1, key));
        }
        i = i + 1;
    }
    proof {
        assert(tv.subrange(0, tv.len() as int) =~= tv);
    }
}

/// The canonical byte form of a label.
pub fn encode_label(label: &Label) -> (r: Vec<u8>)
    ensures
        r@ == label_wire(label@),
{
    let mut out: Vec<u8> = Vec::new();
    encode_tags(&mut out, 0x0a, &label.confidentiality_tags);
    encode_tags(&mut out, 0x12, &label.integrity_tags);
    proof {
        assert(out@ =~= label_wire(label@));
    }
    out
}

/// One entry of a start-of-day configuration map: its key bytes under one
/// field, its value bytes under another.
pub open spec fn config_entry_wire(key: Seq<u8>, value: Seq<u8>) -> Seq<u8> {
    field_wire(0x0a, key) + field_wire(0x12, value)
}

/// The canonical byte form of a start-of-day configuration map: one
/// length-delimited entry record per item, in order.
pub open spec fn config_map_wire(items: Seq<(Seq<u8>, Seq<u8>)>) -> Seq<u8>
    decreases items.len(),
{
    if items.len() == 0 {
        Seq::empty()
    } else {
        config_map_wire(items.drop_last()) + field_wire(
            0x0a,
            config_entry_wire(items.last().0, items.last().1),
        )
    }
}

/// The item views of a key/value vector, in order.
pub open spec fn items_view(items: Seq<(Vec<u8>, Vec<u8>)>) -> Seq<(Seq<u8>, Seq<u8>)> {
    items.map_values(|p: (Vec<u8>, Vec<u8>)| (p.0@, p.1@))
}

/// Append a byte payload wrapped as a field under `key`.
fn encode_bytes_field(out: &mut Vec<u8>, key: u8, payload: &Vec<u8>)
    ensures
        final(out)@ == old(out)@ + field_wire(key, payload@),
{
    let ghost pre = out@;
    out.push(key);
    let ghost mid = out@;
    encode_varint(out, payload.len() as u64);
    let ghost mid2 = out@;
    let mut bytes = crate::label::copy_bytes(payload);
    out.append(&mut bytes);
    proof {
        assert(mid =~= pre + seq![key]);
        assert(out@ =~= pre + field_wire(key, payload@));
    }
}

/// The canonical byte form of a configuration map, given as key/value pairs.
pub fn encode_config_map(items: &Vec<(Vec<u8>, Vec<u8>)>) -> (r: Vec<u8>)
    ensures
        r@ == config_map_wire(items_view(items@)),
{
    let ghost iv = items_view(items@);
    let mut out: Vec<u8> = Vec::new();
    let mut i: usize = 0;
    proof {
        assert(iv.subrange(0, 0) =~= Seq::<(Seq<u8>, Seq<u8>)>::empty());
        assert(out@ =~= Seq::<u8>::empty() + config_map_wire(iv.subrange(0, 0)));
        assert(out@ =~= config_map_wire(iv.subrange(0, 0)));
    }
    while i < items.len()
        invariant
            i <= items@.len(),
            iv == items_view(items@),
            out@ == config_map_wire(iv.subrange(0, i as int)),
        decreases items@.len() - i,
    {
        let mut entry: Vec<u8> = Vec::new();
        encode_bytes_field(&mut entry, 0x0a, &items[i].0);
        encode_bytes_field(&mut entry, 0x12, &items[i].1);
        proof {
            assert(entry@ =~= config_entry_wire(iv[i as int].0, iv[i as int].1));
        }
        let ghost pre = out@;
        out.push(0x0a);
        let ghost mid = out@;
        encode_varint(&mut out, entry.len() as u64);
        out.append(&mut entry);
        proof {
            let s1 = iv.subrange(0, i + 1);
            assert(s1.drop_last() =~= iv.subrange(0, i as int));
            assert(s1.last() == iv[i as int]);
            assert(mid =~= pre + seq![0x0au8]);
            assert(out@ =~= config_map_wire(s1));
        }
        i = i + 1;
    }
    proof {
        assert(iv.subrange(0, iv.len() as int) =~= iv);
    }
    out
}

/// Serializes a label as a byte array; where the serialized size is larger
/// than the given capacity, reports the required capacity instead.
pub fn serialize_label(label: &Label, capacity: usize) -> (r: Result<LabelReadStatus, OakStatus>)
    ensures
        r is Ok,
        label_wire(label@).len() > capacity ==> (r->Ok_0 matches LabelReadStatus::NeedsCapacity(s)
            && s == label_wire(label@).len()),
        label_wire(label@).len() <= capacity ==> (r->Ok_0 matches LabelReadStatus::Success(b)
            && b@ == label_wire(label@)),
{
    let encoded = encode_label(label);
    let size = encoded.len();
    if size > capacity {
        Ok(LabelReadStatus::NeedsCapacity(size))
    } else {
        Ok(LabelReadStatus::Success(encoded))
    }
}

} // verus!
