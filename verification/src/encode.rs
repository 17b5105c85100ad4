//! The encoder: the authoritative serializer of a tag tree back to bytes.
//!
//! [`spec_encode_tag`] is the mathematical statement of the wire format; the
//! executable [`encode_tag`] produces exactly those bytes, and the decoder's
//! contract is stated against the same functions, which makes the pair
//! verified inverses.

use vstd::prelude::*;
use vstd::utf8::encode_utf8;

use crate::bytes::{u16_bytes, u32_bytes, u64_bytes, unsigned16, unsigned32, unsigned64, unsigned8};
use crate::tag::{
    encodable_elems, encodable_payload, encodable_tag, encodable_tags, lemma_encodable_elems_index,
    lemma_encodable_tags_index, payloads_view, spec_code, spec_payload_id, tags_view, PayloadV,
    Tag, TagID, TagPayload, TagV,
};

verus! {

broadcast use
    vstd::seq::axiom_seq_index_decreases,
    vstd::seq::axiom_seq_subrange_decreases,
    vstd::std_specs::vec::axiom_vec_decreases_to_view,
    crate::tag::lemma_payloads_view,
    crate::tag::lemma_tags_view;

/// The wire bytes of a payload: fixed-width big-endian primitives, a
/// length-prefixed byte string, count-then-elements for arrays and lists
/// (the list also declares its element kind first), and the concatenated
/// member tags of a compound, whose own `End` sentinel closes it.
pub open spec fn spec_encode_payload(p: PayloadV) -> Seq<u8>
    decreases p,
{
    match p {
        PayloadV::End => Seq::empty(),
        PayloadV::Byte(x) => seq![unsigned8(x as int) as u8],
        PayloadV::Short(x) => u16_bytes(unsigned16(x as int)),
        PayloadV::Int(x) => u32_bytes(unsigned32(x as int)),
        PayloadV::Long(x) => u64_bytes(unsigned64(x as int)),
        PayloadV::Float(x) => u32_bytes(x as int),
        PayloadV::Double(x) => u64_bytes(x as int),
        PayloadV::ByteArray(v) => u32_bytes(v.len() as int) + spec_encode_elems(v),
        PayloadV::String(s) => u16_bytes(encode_utf8(s).len() as int) + encode_utf8(s),
        PayloadV::List(id, v) => seq![spec_code(id)] + u32_bytes(v.len() as int)
            + spec_encode_elems(v),
        PayloadV::Compound(ts) => spec_encode_tags(ts),
        PayloadV::IntArray(v) => u32_bytes(v.len() as int) + spec_encode_elems(v),
        PayloadV::LongArray(v) => u32_bytes(v.len() as int) + spec_encode_elems(v),
    }
}

/// The concatenated wire bytes of a sequence of payloads.
pub open spec fn spec_encode_elems(v: Seq<PayloadV>) -> Seq<u8>
    decreases v,
{
    if v.len() == 0 {
        Seq::empty()
    } else {
        spec_encode_elems(v.drop_last()) + spec_encode_payload(v.last())
    }
}

/// The wire bytes of a named tag: the kind code of its payload's shape,
/// then (except for `End`) the length-prefixed name, then the payload.
pub open spec fn spec_encode_tag(t: TagV) -> Seq<u8>
    decreases t,
{
    let id = spec_payload_id(t.payload);
    if id == TagID::End {
        seq![spec_code(id)] + spec_encode_payload(t.payload)
    } else {
        seq![spec_code(id)] + u16_bytes(encode_utf8(t.name).len() as int) + encode_utf8(t.name)
            + spec_encode_payload(t.payload)
    }
}

/// The concatenated wire bytes of a sequence of named tags.
pub open spec fn spec_encode_tags(ts: Seq<TagV>) -> Seq<u8>
    decreases ts,
{
    if ts.len() == 0 {
        Seq::empty()
    } else {
        spec_encode_tags(ts.drop_last()) + spec_encode_tag(ts.last())
    }
}

/// The unsigned two's-complement carrier of an `i16`.
fn u16_of_i16(x: i16) -> (r: u16)
    ensures
        r == unsigned16(x as int),
{
    if x >= 0 {
        x as u16
    } else {
        (x as i32 + 0x1_0000) as u16
    }
}

/// The unsigned two's-complement carrier of an `i32`.
fn u32_of_i32(x: i32) -> (r: u32)
    ensures
        r == unsigned32(x as int),
{
    if x >= 0 {
        x as u32
    } else {
        (x as i64 + 0x1_0000_0000) as u32
    }
}

/// The unsigned two's-complement carrier of an `i64`.
fn u64_of_i64(x: i64) -> (r: u64)
    ensures
        r == unsigned64(x as int),
{
    if x >= 0 {
        x as u64
    } else {
        (x as i128 + 0x1_0000_0000_0000_0000) as u64
    }
}

/// Appends the two big-endian bytes of a 16-bit value.
fn push_u16(out: &mut Vec<u8>, v: u16)
    ensures
        final(out)@ == old(out)@ + u16_bytes(v as int),
{
    out.push((v / 0x100) as u8);
    out.push((v % 0x100) as u8);
    proof {
        assert(out@ =~= old(out)@ + u16_bytes(v as int));
    }
}

/// Appends the four big-endian bytes of a 32-bit value.
fn push_u32(out: &mut Vec<u8>, v: u32)
    ensures
        final(out)@ == old(out)@ + u32_bytes(v as int),
{
    out.push((v / 0x100_0000) as u8);
    out.push((v / 0x1_0000 % 0x100) as u8);
    out.push((v / 0x100 % 0x100) as u8);
    out.push((v % 0x100) as u8);
    proof {
        assert(v / 0x100_0000 < 0x100);
        assert(out@ =~= old(out)@ + u32_bytes(v as int));
    }
}

/// Appends the eight big-endian bytes of a 64-bit value.
fn push_u64(out: &mut Vec<u8>, v: u64)
    ensures
        final(out)@ == old(out)@ + u64_bytes(v as int),
{
    out.push((v / 0x100_0000_0000_0000) as u8);
    out.push((v / 0x1_0000_0000_0000 % 0x100) as u8);
    out.push((v / 0x100_0000_0000 % 0x100) as u8);
    out.push((v / 0x1_0000_0000 % 0x100) as u8);
    out.push((v / 0x100_0000 % 0x100) as u8);
    out.push((v / 0x1_0000 % 0x100) as u8);
    out.push((v / 0x100 % 0x100) as u8);
    out.push((v % 0x100) as u8);
    proof {
        assert(v / 0x100_0000_0000_0000 < 0x100);
        assert(out@ =~= old(out)@ + u64_bytes(v as int));
    }
}

/// Appends a string as the wire format frames it: a 2-byte big-endian count
/// of UTF-8 bytes, then those bytes.
fn push_str(out: &mut Vec<u8>, s: &String)
    requires
        encode_utf8(s@).len() <= 0xFFFF,
    ensures
        final(out)@ == old(out)@ + u16_bytes(encode_utf8(s@).len() as int) + encode_utf8(s@),
{
    let raw = s.as_str().as_bytes();
    push_u16(out, raw.len() as u16);
    let ghost mid = out@;
    let mut i: usize = 0;
    while i < raw.len()
        invariant
            i <= raw@.len(),
            raw@ == encode_utf8(s@),
            out@ =~= mid + raw@.take(i as int),
        decreases raw@.len() - i,
    {
        out.push(raw[i]);
        i = i + 1;
    }
    proof {
        assert(raw@.take(raw@.len() as int) =~= raw@);
        assert(out@ =~= old(out)@ + u16_bytes(encode_utf8(s@).len() as int) + encode_utf8(s@));
    }
}

/// Appends the wire bytes of a payload.
#[verifier::loop_isolation(false)]
fn encode_payload_into(payload: &TagPayload, out: &mut Vec<u8>)
    requires
        encodable_payload(payload@),
    ensures
        final(out)@ == old(out)@ + spec_encode_payload(payload@),
    decreases *payload,
{
    match payload {
        TagPayload::End => (),
        TagPayload::Byte(x) => {
            let b: u8 = if *x >= 0 {
                *x as u8
            } else {
                (*x as i16 + 0x100) as u8
            };
            out.push(b);
            proof {
                assert(out@ =~= old(out)@ + spec_encode_payload(payload@));
            }
        },
        TagPayload::Short(x) => push_u16(out, u16_of_i16(*x)),
        TagPayload::Int(x) => push_u32(out, u32_of_i32(*x)),
        TagPayload::Long(x) => push_u64(out, u64_of_i64(*x)),
        TagPayload::Float(x) => push_u32(out, *x),
        TagPayload::Double(x) => push_u64(out, *x),
        TagPayload::ByteArray(v) => encode_counted_elems(v, out),
        TagPayload::String(s) => push_str(out, s),
        TagPayload::List(id, v) => {
            out.push(id.code());
            proof {
                assert(out@ =~= old(out)@ + seq![spec_code(payload@->List_0)]);
            }
            encode_counted_elems(v, out);
            proof {
                assert(out@ =~= old(out)@ + spec_encode_payload(payload@));
            }
        },
        TagPayload::Compound(ts) => {
            let ghost start = out@;
            let mut i: usize = 0;
            while i < ts.len()
                invariant
                    i <= ts@.len(),
                    encodable_tags(tags_view(ts@)),
                    tags_view(ts@).len() == ts@.len(),
                    forall|j: int|
                        0 <= j < ts@.len() ==> tags_view(ts@)[j] == crate::tag::tag_view(ts@[j]),
                    out@ =~= start + spec_encode_tags(tags_view(ts@).take(i as int)),
                decreases ts@.len() - i,
            {
                proof {
                    lemma_encodable_tags_index(tags_view(ts@), i as int);
                }
                let ghost pre = out@;
                encode_tag_into(&ts[i], out);
                proof {
                    let tv = tags_view(ts@);
                    assert(tv.take(i + 1).drop_last() =~= tv.take(i as int));
                    assert(tv.take(i + 1).last() == tv[i as int]);
                    assert(out@ =~= start + spec_encode_tags(tv.take(i + 1)));
                }
                i = i + 1;
            }
            proof {
                assert(tags_view(ts@).take(ts@.len() as int) =~= tags_view(ts@));
                assert(out@ =~= old(out)@ + spec_encode_payload(payload@));
            }
        },
        TagPayload::IntArray(v) => encode_counted_elems(v, out),
        TagPayload::LongArray(v) => encode_counted_elems(v, out),
    }
}

/// Appends a 4-byte big-endian element count, then the wire bytes of each
/// element in order.
#[verifier::loop_isolation(false)]
fn encode_counted_elems(v: &Vec<TagPayload>, out: &mut Vec<u8>)
    requires
        payloads_view(v@).len() <= 0x7FFF_FFFF,
        encodable_elems(payloads_view(v@)),
    ensures
        final(out)@ == old(out)@ + u32_bytes(v@.len() as int) + spec_encode_elems(
            payloads_view(v@),
        ),
    decreases *v,
{
    proof {
        crate::tag::lemma_payloads_view(v@);
    }
    push_u32(out, v.len() as u32);
    let ghost start = out@;
    let mut i: usize = 0;
    while i < v.len()
        invariant
            i <= v@.len(),
            encodable_elems(payloads_view(v@)),
            payloads_view(v@).len() == v@.len(),
            forall|j: int|
                0 <= j < v@.len() ==> payloads_view(v@)[j] == crate::tag::payload_view(v@[j]),
            out@ =~= start + spec_encode_elems(payloads_view(v@).take(i as int)),
        decreases v@.len() - i,
    {
        proof {
            lemma_encodable_elems_index(payloads_view(v@), i as int);
        }
        encode_payload_into(&v[i], out);
        proof {
            let pv = payloads_view(v@);
            assert(pv.take(i + 1).drop_last() =~= pv.take(i as int));
            assert(pv.take(i + 1).last() == pv[i as int]);
            assert(out@ =~= start + spec_encode_elems(pv.take(i + 1)));
        }
        i = i + 1;
    }
    proof {
        assert(payloads_view(v@).take(v@.len() as int) =~= payloads_view(v@));
        assert(out@ =~= old(out)@ + u32_bytes(v@.len() as int) + spec_encode_elems(
            payloads_view(v@),
        ));
    }
}

/// Appends the wire bytes of a named tag. The kind byte is recomputed from
/// the payload's shape; a stale stored kind is ignored.
fn encode_tag_into(t: &Tag, out: &mut Vec<u8>)
    requires
        encodable_tag(t@),
    ensures
        final(out)@ == old(out)@ + spec_encode_tag(t@),
    decreases *t,
{
    let id = TagID::of_payload(&t.payload);
    out.push(id.code());
    if !matches!(id, TagID::End) {
        push_str(out, &t.name);
    }
    encode_payload_into(&t.payload, out);
    proof {
        assert(out@ =~= old(out)@ + spec_encode_tag(t@));
    }
}

/// Encodes a tag tree to its wire bytes.
///
/// The result is exactly [`spec_encode_tag`] of the tree, so re-decoding it
/// yields the tree back whenever the tree is well-formed.
pub fn encode_tag(input: &Tag) -> (r: Vec<u8>)
    requires
        encodable_tag(input@),
    ensures
        r@ == spec_encode_tag(input@),
{
    let mut bytes: Vec<u8> = Vec::new();
    encode_tag_into(input, &mut bytes);
    bytes
}

} // verus!
