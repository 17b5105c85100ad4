//! The decoder: a recursive-descent builder of a [`Tag`] tree from a byte
//! buffer, with strict framing.
//!
//! The contract of [`Tag::new`] is stated against the encoder's
//! [`spec_encode_tag`]: every tree it returns is well-formed and re-encodes
//! to exactly the bytes that were consumed, and every buffer that begins
//! with the encoding of a well-formed tree decodes to exactly that tree.

use vstd::prelude::*;
use vstd::utf8::{decode_utf8, encode_utf8, valid_utf8};

use crate::bytes::{
    be16, be32, be64, signed32, u16_bytes, u32_bytes, u64_bytes, unsigned16, unsigned32,
    unsigned64,
    unsigned8, ByteError, ByteResult, NbtBytesIter,
};
use crate::encode::{spec_encode_elems, spec_encode_payload, spec_encode_tag, spec_encode_tags};
use crate::tag::{
    encodable_tags, end_sentinel, payloads_view, shaped_members, spec_code, spec_id_of_code,
    spec_payload_id, tags_view, wf_members, wf_payload, wf_tag, PayloadV, Tag, TagID, TagPayload,
    TagV,
};

verus! {

broadcast use
    vstd::seq::axiom_seq_index_decreases,
    vstd::seq::axiom_seq_subrange_decreases,
    vstd::std_specs::vec::axiom_vec_decreases_to_view,
    vstd::utf8::encode_utf8_valid_utf8,
    vstd::utf8::encode_utf8_decode_utf8,
    crate::tag::lemma_code_of_id,
    crate::tag::lemma_payloads_view,
    crate::tag::lemma_tags_view;

/// Whether `a` is a proper prefix of `b`: shorter, and equal as far as it
/// goes.
pub open spec fn strict_prefix_of(a: Seq<u8>, b: Seq<u8>) -> bool {
    a.len() < b.len() && a == b.take(a.len() as int)
}

/// Whether a payload is the primitive element variant of the given array
/// kind.
spec fn prim_kind_ok(p: PayloadV, id: TagID) -> bool {
    match id {
        TagID::ByteArray => p is Byte,
        TagID::IntArray => p is Int,
        TagID::LongArray => p is Long,
        _ => false,
    }
}

/// The wire width of one element of the given array kind.
spec fn prim_width(id: TagID) -> int {
    match id {
        TagID::ByteArray => 1,
        TagID::IntArray => 4,
        TagID::LongArray => 8,
        _ => 0,
    }
}

/// A sequence of primitive elements encodes to one fixed-width field each.
proof fn lemma_prim_elems_len(v: Seq<PayloadV>, id: TagID)
    requires
        forall|i: int| 0 <= i < v.len() ==> prim_kind_ok(#[trigger] v[i], id),
        id == TagID::ByteArray || id == TagID::IntArray || id == TagID::LongArray,
    ensures
        spec_encode_elems(v).len() == prim_width(id) * v.len(),
    decreases v.len(),
{
    if v.len() > 0 {
        assert(forall|i: int|
            0 <= i < v.drop_last().len() ==> prim_kind_ok(#[trigger] v.drop_last()[i], id));
        lemma_prim_elems_len(v.drop_last(), id);
        assert(prim_kind_ok(v.last(), id));
        assert(spec_encode_payload(v.last()).len() == prim_width(id));
        assert(prim_width(id) * v.len() == prim_width(id) * (v.len() - 1) + prim_width(id))
            by (nonlinear_arith);
    }
}

/// Equal encodings of primitive element sequences come from equal
/// sequences.
proof fn lemma_prim_elems_inj(v1: Seq<PayloadV>, v2: Seq<PayloadV>, id: TagID)
    requires
        forall|i: int| 0 <= i < v1.len() ==> prim_kind_ok(#[trigger] v1[i], id),
        forall|i: int| 0 <= i < v2.len() ==> prim_kind_ok(#[trigger] v2[i], id),
        id == TagID::ByteArray || id == TagID::IntArray || id == TagID::LongArray,
        v1.len() == v2.len(),
        spec_encode_elems(v1) == spec_encode_elems(v2),
    ensures
        v1 == v2,
    decreases v1.len(),
{
    if v1.len() == 0 {
        assert(v1 =~= v2);
    } else {
        let d1 = v1.drop_last();
        let d2 = v2.drop_last();
        let e1 = spec_encode_payload(v1.last());
        let e2 = spec_encode_payload(v2.last());
        assert(forall|i: int| 0 <= i < d1.len() ==> prim_kind_ok(#[trigger] d1[i], id));
        assert(forall|i: int| 0 <= i < d2.len() ==> prim_kind_ok(#[trigger] d2[i], id));
        lemma_prim_elems_len(d1, id);
        lemma_prim_elems_len(d2, id);
        assert(prim_kind_ok(v1.last(), id));
        assert(prim_kind_ok(v2.last(), id));
        assert(e1.len() == prim_width(id));
        assert(e2.len() == prim_width(id));
        assert(spec_encode_elems(d1).len() == spec_encode_elems(d2).len());
        assert(spec_encode_elems(v1) == spec_encode_elems(d1) + e1);
        assert(spec_encode_elems(v2) == spec_encode_elems(d2) + e2);
        let dlen = spec_encode_elems(d1).len() as int;
        assert forall|i: int| 0 <= i < dlen implies spec_encode_elems(d1)[i] == spec_encode_elems(
            d2,
        )[i] by {
            assert(spec_encode_elems(d1)[i] == spec_encode_elems(v1)[i]);
            assert(spec_encode_elems(d2)[i] == spec_encode_elems(v2)[i]);
        }
        assert(spec_encode_elems(d1) =~= spec_encode_elems(d2));
        assert forall|i: int| 0 <= i < prim_width(id) implies e1[i] == e2[i] by {
            assert(e1[i] == spec_encode_elems(v1)[dlen + i]);
            assert(e2[i] == spec_encode_elems(v2)[dlen + i]);
        }
        assert(e1 =~= e2);
        if id == TagID::ByteArray {
            assert(e1[0] == e2[0]);
        } else if id == TagID::IntArray {
            crate::bytes::lemma_be32_of_u32_bytes(unsigned32(v1.last()->Int_0 as int));
            crate::bytes::lemma_be32_of_u32_bytes(unsigned32(v2.last()->Int_0 as int));
        } else {
            crate::bytes::lemma_be64_of_u64_bytes(unsigned64(v1.last()->Long_0 as int));
            crate::bytes::lemma_be64_of_u64_bytes(unsigned64(v2.last()->Long_0 as int));
        }
        assert(v1.last() == v2.last());
        lemma_prim_elems_inj(d1, d2, id);
        assert forall|i: int| 0 <= i < v1.len() implies v1[i] == v2[i] by {
            if i < v1.len() - 1 {
                assert(v1[i] == d1[i]);
                assert(v2[i] == d2[i]);
            } else {
                assert(v1[i] == v1.last());
                assert(v2[i] == v2.last());
            }
        }
        assert(v1 =~= v2);
    }
}

/// The encoding of a payload sequence splits at any point.
proof fn lemma_encode_elems_split(v: Seq<PayloadV>, k: int)
    requires
        0 <= k <= v.len(),
    ensures
        spec_encode_elems(v) == spec_encode_elems(v.take(k)) + spec_encode_elems(v.skip(k)),
    decreases v.len(),
{
    if k == v.len() {
        assert(v.take(k) =~= v);
        assert(v.skip(k) =~= Seq::empty());
        assert(spec_encode_elems(v) =~= spec_encode_elems(v.take(k)) + spec_encode_elems(
            v.skip(k),
        ));
    } else {
        let d = v.drop_last();
        lemma_encode_elems_split(d, k);
        assert(v.take(k) =~= d.take(k));
        assert(v.skip(k).drop_last() =~= d.skip(k));
        assert(v.skip(k).last() == v.last());
        assert(spec_encode_elems(v.skip(k)) == spec_encode_elems(d.skip(k))
            + spec_encode_payload(v.last()));
        assert(spec_encode_elems(v) =~= spec_encode_elems(v.take(k)) + spec_encode_elems(
            v.skip(k),
        ));
    }
}

/// The encoding of a nonempty payload sequence starts with its first
/// element's encoding.
proof fn lemma_encode_elems_first(v: Seq<PayloadV>)
    requires
        v.len() > 0,
    ensures
        spec_encode_elems(v) == spec_encode_payload(v[0]) + spec_encode_elems(v.drop_first()),
    decreases v.len(),
{
    if v.len() == 1 {
        assert(v.drop_last() =~= Seq::empty());
        assert(v.drop_first() =~= Seq::empty());
        assert(v.last() == v[0]);
        assert(spec_encode_elems(v) =~= spec_encode_payload(v[0]) + spec_encode_elems(
            v.drop_first(),
        ));
    } else {
        let d = v.drop_last();
        lemma_encode_elems_first(d);
        assert(d[0] == v[0]);
        assert(v.drop_first().drop_last() =~= d.drop_first());
        assert(v.drop_first().last() == v.last());
        assert(spec_encode_elems(v.drop_first()) == spec_encode_elems(d.drop_first())
            + spec_encode_payload(v.last()));
        assert(spec_encode_elems(v) =~= spec_encode_payload(v[0]) + spec_encode_elems(
            v.drop_first(),
        ));
    }
}

/// The encoding of a tag sequence splits at any point.
proof fn lemma_encode_tags_split(ts: Seq<TagV>, k: int)
    requires
        0 <= k <= ts.len(),
    ensures
        spec_encode_tags(ts) == spec_encode_tags(ts.take(k)) + spec_encode_tags(ts.skip(k)),
    decreases ts.len(),
{
    if k == ts.len() {
        assert(ts.take(k) =~= ts);
        assert(ts.skip(k) =~= Seq::empty());
        assert(spec_encode_tags(ts) =~= spec_encode_tags(ts.take(k)) + spec_encode_tags(
            ts.skip(k),
        ));
    } else {
        let d = ts.drop_last();
        lemma_encode_tags_split(d, k);
        assert(ts.take(k) =~= d.take(k));
        assert(ts.skip(k).drop_last() =~= d.skip(k));
        assert(ts.skip(k).last() == ts.last());
        assert(spec_encode_tags(ts.skip(k)) == spec_encode_tags(d.skip(k)) + spec_encode_tag(
            ts.last(),
        ));
        assert(spec_encode_tags(ts) =~= spec_encode_tags(ts.take(k)) + spec_encode_tags(
            ts.skip(k),
        ));
    }
}

/// The encoding of a nonempty tag sequence starts with its first tag's
/// encoding.
proof fn lemma_encode_tags_first(ts: Seq<TagV>)
    requires
        ts.len() > 0,
    ensures
        spec_encode_tags(ts) == spec_encode_tag(ts[0]) + spec_encode_tags(ts.drop_first()),
    decreases ts.len(),
{
    if ts.len() == 1 {
        assert(ts.drop_last() =~= Seq::empty());
        assert(ts.drop_first() =~= Seq::empty());
        assert(ts.last() == ts[0]);
        assert(spec_encode_tags(ts) =~= spec_encode_tag(ts[0]) + spec_encode_tags(
            ts.drop_first(),
        ));
    } else {
        let d = ts.drop_last();
        lemma_encode_tags_first(d);
        assert(d[0] == ts[0]);
        assert(ts.drop_first().drop_last() =~= d.drop_first());
        assert(ts.drop_first().last() == ts.last());
        assert(spec_encode_tags(ts.drop_first()) == spec_encode_tags(d.drop_first())
            + spec_encode_tag(ts.last()));
        assert(spec_encode_tags(ts) =~= spec_encode_tag(ts[0]) + spec_encode_tags(
            ts.drop_first(),
        ));
    }
}

/// What the start of a buffer looks like when a well-formed tag's encoding
/// is a prefix of it: the kind byte, the name region, and the payload
/// region, each in its place.
proof fn lemma_tag_header(q: TagV, rem: Seq<u8>)
    requires
        wf_tag(q),
        spec_encode_tag(q).is_prefix_of(rem),
    ensures
        q.id == spec_payload_id(q.payload),
        rem.len() >= 1,
        rem[0] == spec_code(q.id),
        spec_id_of_code(rem[0]) == Some(q.id),
        q.id == TagID::End ==> q.payload == PayloadV::End && q.name == Seq::<char>::empty(),
        q.id != TagID::End ==> ({
            let nb = encode_utf8(q.name);
            &&& nb.len() <= 0xFFFF
            &&& rem.len() >= 3 + nb.len()
            &&& rem.subrange(1, 3) == u16_bytes(nb.len() as int)
            &&& rem.subrange(3, 3 + nb.len() as int) == nb
            &&& spec_encode_payload(q.payload).is_prefix_of(rem.skip(3 + nb.len() as int))
            &&& valid_utf8(nb)
        }),
{
    broadcast use crate::tag::lemma_code_of_id, vstd::utf8::encode_utf8_valid_utf8;

    let enc = spec_encode_tag(q);
    assert(enc =~= rem.take(enc.len() as int));
    if q.id == TagID::End {
        assert(enc[0] == rem[0]);
    } else {
        let nb = encode_utf8(q.name);
        let penc = spec_encode_payload(q.payload);
        assert(enc == seq![spec_code(q.id)] + u16_bytes(nb.len() as int) + nb + penc);
        assert(enc[0] == rem[0]);
        assert forall|i: int| 0 <= i < 2 implies u16_bytes(nb.len() as int)[i] == rem[1 + i] by {
            assert(u16_bytes(nb.len() as int)[i] == enc[1 + i]);
        }
        assert(rem.subrange(1, 3) =~= u16_bytes(nb.len() as int));
        assert forall|i: int| 0 <= i < nb.len() implies nb[i] == rem[3 + i] by {
            assert(nb[i] == enc[3 + i]);
        }
        assert(rem.subrange(3, 3 + nb.len() as int) =~= nb);
        assert forall|i: int| 0 <= i < penc.len() implies penc[i] == rem.skip(
            3 + nb.len() as int,
        )[i] by {
            assert(penc[i] == enc[3 + nb.len() + i]);
        }
        assert(penc =~= rem.skip(3 + nb.len() as int).take(penc.len() as int));
    }
}

/// What the start of a buffer looks like when a well-formed list payload's
/// encoding is a prefix of it: the element kind byte, the count, and the
/// element region.
proof fn lemma_list_header(q: PayloadV, rem: Seq<u8>)
    requires
        wf_payload(q),
        spec_payload_id(q) == TagID::List,
        spec_encode_payload(q).is_prefix_of(rem),
    ensures
        ({
            let qid = q->List_0;
            let qv = q->List_1;
            &&& rem.len() >= 5 + spec_encode_elems(qv).len()
            &&& rem[0] == spec_code(qid)
            &&& spec_id_of_code(rem[0]) == Some(qid)
            &&& qv.len() <= 0x7FFF_FFFF
            &&& rem.subrange(1, 5) == u32_bytes(qv.len() as int)
            &&& signed32(be32(rem.subrange(1, 5))) == qv.len()
            &&& spec_encode_elems(qv) == rem.subrange(5, 5 + spec_encode_elems(qv).len() as int)
        }),
{
    broadcast use crate::tag::lemma_code_of_id;

    let qid = q->List_0;
    let qv = q->List_1;
    let eel = spec_encode_elems(qv);
    let enc = spec_encode_payload(q);
    assert(enc == seq![spec_code(qid)] + u32_bytes(qv.len() as int) + eel);
    assert(enc =~= rem.take(enc.len() as int));
    assert(enc[0] == rem[0]);
    assert forall|i: int| 0 <= i < 4 implies u32_bytes(qv.len() as int)[i] == rem[1 + i] by {
        assert(u32_bytes(qv.len() as int)[i] == enc[1 + i]);
    }
    assert(rem.subrange(1, 5) =~= u32_bytes(qv.len() as int));
    crate::bytes::lemma_be32_of_u32_bytes(qv.len() as int);
    assert forall|i: int| 0 <= i < eel.len() implies eel[i] == rem[5 + i] by {
        assert(eel[i] == enc[5 + i]);
    }
    assert(eel =~= rem.subrange(5, 5 + eel.len() as int));
}

/// The format needs no lookahead: two well-formed payloads of one kind
/// whose encodings open the same byte stream are the same payload, and
/// their encodings are the same bytes.
#[verifier::rlimit(100)]
pub proof fn lemma_payload_no_lookahead(p1: PayloadV, p2: PayloadV, s1: Seq<u8>, s2: Seq<u8>)
    requires
        wf_payload(p1),
        wf_payload(p2),
        spec_payload_id(p1) == spec_payload_id(p2),
        spec_encode_payload(p1) + s1 == spec_encode_payload(p2) + s2,
    ensures
        p1 == p2,
        spec_encode_payload(p1) == spec_encode_payload(p2),
    decreases p1,
{
    let e1 = spec_encode_payload(p1);
    let e2 = spec_encode_payload(p2);
    assert(forall|i: int| 0 <= i < e1.len() && i < e2.len() ==> e1[i] == e2[i]) by {
        assert(forall|i: int|
            0 <= i < e1.len() && i < e2.len() ==> e1[i] == (e1 + s1)[i] && e2[i] == (e2 + s2)[i]);
    }
    match p1 {
        PayloadV::End => {
        },
        PayloadV::Byte(x1) => {
            lemma_flat_no_lookahead(p1, p2, s1, s2);
        },
        PayloadV::Short(x1) => {
            lemma_flat_no_lookahead(p1, p2, s1, s2);
        },
        PayloadV::Int(x1) => {
            lemma_flat_no_lookahead(p1, p2, s1, s2);
        },
        PayloadV::Long(x1) => {
            lemma_flat_no_lookahead(p1, p2, s1, s2);
        },
        PayloadV::Float(x1) => {
            lemma_flat_no_lookahead(p1, p2, s1, s2);
        },
        PayloadV::Double(x1) => {
            lemma_flat_no_lookahead(p1, p2, s1, s2);
        },
        PayloadV::String(t1) => {
            lemma_flat_no_lookahead(p1, p2, s1, s2);
        },
        PayloadV::ByteArray(v1) => {
            lemma_array_no_lookahead(p1, p2, s1, s2, TagID::ByteArray);
        },
        PayloadV::IntArray(v1) => {
            lemma_array_no_lookahead(p1, p2, s1, s2, TagID::IntArray);
        },
        PayloadV::LongArray(v1) => {
            lemma_array_no_lookahead(p1, p2, s1, s2, TagID::LongArray);
        },
        PayloadV::List(id1, v1) => {
            let id2 = p2->List_0;
            let v2 = p2->List_1;
            let ee1 = spec_encode_elems(v1);
            let ee2 = spec_encode_elems(v2);
            assert(e1 == seq![spec_code(id1)] + u32_bytes(v1.len() as int) + ee1);
            assert(e2 == seq![spec_code(id2)] + u32_bytes(v2.len() as int) + ee2);
            assert(e1[0] == spec_code(id1) && e2[0] == spec_code(id2));
            crate::tag::lemma_code_of_id(id1);
            crate::tag::lemma_code_of_id(id2);
            assert(id1 == id2);
            assert forall|i: int| 0 <= i < 4 implies u32_bytes(v1.len() as int)[i] == u32_bytes(
                v2.len() as int,
            )[i] by {
                assert(u32_bytes(v1.len() as int)[i] == e1[1 + i]);
                assert(u32_bytes(v2.len() as int)[i] == e2[1 + i]);
            }
            assert(u32_bytes(v1.len() as int) =~= u32_bytes(v2.len() as int));
            crate::bytes::lemma_be32_of_u32_bytes(v1.len() as int);
            crate::bytes::lemma_be32_of_u32_bytes(v2.len() as int);
            assert(v1.len() == v2.len());
            let hd1 = seq![spec_code(id1)] + u32_bytes(v1.len() as int);
            let hd2 = seq![spec_code(id2)] + u32_bytes(v2.len() as int);
            assert(e1 =~= hd1 + ee1);
            assert(e2 =~= hd2 + ee2);
            assert(hd1.len() == 5 && hd2.len() == 5);
            assert((e1 + s1).len() == (e2 + s2).len());
            assert(ee1.len() + s1.len() == ee2.len() + s2.len());
            assert forall|i: int| 0 <= i < ee1.len() + s1.len() implies (ee1 + s1)[i] == (ee2
                + s2)[i] by {
                assert((ee1 + s1)[i] == ((hd1 + ee1) + s1)[5 + i]);
                assert((ee2 + s2)[i] == ((hd2 + ee2) + s2)[5 + i]);
                assert(((hd1 + ee1) + s1)[5 + i] == (e1 + s1)[5 + i]);
                assert(((hd2 + ee2) + s2)[5 + i] == (e2 + s2)[5 + i]);
            }
            assert(ee1 + s1 =~= ee2 + s2);
            lemma_elems_no_lookahead(v1, v2, id1, s1, s2);
        },
        PayloadV::Compound(m1) => {
            let m2 = p2->Compound_0;
            lemma_members_no_lookahead(m1, m2, s1, s2);
        },
    }
}

/// No lookahead for the flat payload kinds, whose encodings are one
/// fixed-width field or one length-prefixed byte string.
#[verifier::rlimit(100)]
proof fn lemma_flat_no_lookahead(p1: PayloadV, p2: PayloadV, s1: Seq<u8>, s2: Seq<u8>)
    requires
        wf_payload(p1),
        wf_payload(p2),
        spec_payload_id(p1) == spec_payload_id(p2),
        !spec_payload_id(p1).spec_is_container(),
        spec_payload_id(p1) != TagID::End,
        spec_encode_payload(p1) + s1 == spec_encode_payload(p2) + s2,
    ensures
        p1 == p2,
{
    let e1 = spec_encode_payload(p1);
    let e2 = spec_encode_payload(p2);
    assert(forall|i: int| 0 <= i < e1.len() && i < e2.len() ==> e1[i] == e2[i]) by {
        assert(forall|i: int|
            0 <= i < e1.len() && i < e2.len() ==> e1[i] == (e1 + s1)[i] && e2[i] == (e2 + s2)[i]);
    }
    match p1 {
        PayloadV::Byte(x1) => {
            let x2 = p2->Byte_0;
            assert(e1[0] == e2[0]);
        },
        PayloadV::Short(x1) => {
            let x2 = p2->Short_0;
            assert(u16_bytes(unsigned16(x1 as int)) =~= u16_bytes(unsigned16(x2 as int)));
            crate::bytes::lemma_be16_of_u16_bytes(unsigned16(x1 as int));
            crate::bytes::lemma_be16_of_u16_bytes(unsigned16(x2 as int));
        },
        PayloadV::Int(x1) => {
            let x2 = p2->Int_0;
            assert(u32_bytes(unsigned32(x1 as int)) =~= u32_bytes(unsigned32(x2 as int)));
            crate::bytes::lemma_be32_of_u32_bytes(unsigned32(x1 as int));
            crate::bytes::lemma_be32_of_u32_bytes(unsigned32(x2 as int));
        },
        PayloadV::Long(x1) => {
            let x2 = p2->Long_0;
            assert(u64_bytes(unsigned64(x1 as int)) =~= u64_bytes(unsigned64(x2 as int)));
            crate::bytes::lemma_be64_of_u64_bytes(unsigned64(x1 as int));
            crate::bytes::lemma_be64_of_u64_bytes(unsigned64(x2 as int));
        },
        PayloadV::Float(x1) => {
            let x2 = p2->Float_0;
            assert(u32_bytes(x1 as int) =~= u32_bytes(x2 as int));
            crate::bytes::lemma_be32_of_u32_bytes(x1 as int);
            crate::bytes::lemma_be32_of_u32_bytes(x2 as int);
        },
        PayloadV::Double(x1) => {
            let x2 = p2->Double_0;
            assert(u64_bytes(x1 as int) =~= u64_bytes(x2 as int));
            crate::bytes::lemma_be64_of_u64_bytes(x1 as int);
            crate::bytes::lemma_be64_of_u64_bytes(x2 as int);
        },
        PayloadV::String(t1) => {
            let t2 = p2->String_0;
            let b1 = encode_utf8(t1);
            let b2 = encode_utf8(t2);
            assert(e1 == u16_bytes(b1.len() as int) + b1);
            assert(e2 == u16_bytes(b2.len() as int) + b2);
            assert forall|i: int| 0 <= i < 2 implies u16_bytes(b1.len() as int)[i] == u16_bytes(
                b2.len() as int,
            )[i] by {
                assert(u16_bytes(b1.len() as int)[i] == e1[i]);
                assert(u16_bytes(b2.len() as int)[i] == e2[i]);
            }
            assert(u16_bytes(b1.len() as int) =~= u16_bytes(b2.len() as int));
            crate::bytes::lemma_be16_of_u16_bytes(b1.len() as int);
            crate::bytes::lemma_be16_of_u16_bytes(b2.len() as int);
            assert(b1.len() == b2.len());
            assert forall|i: int| 0 <= i < b1.len() implies b1[i] == b2[i] by {
                assert(b1[i] == e1[2 + i]);
                assert(b2[i] == e2[2 + i]);
            }
            assert(b1 =~= b2);
            assert(vstd::utf8::decode_utf8(encode_utf8(t1)) == t1);
            assert(vstd::utf8::decode_utf8(encode_utf8(t2)) == t2);
        },
        _ => {
        },
    }
}

/// No lookahead for the three primitive-array kinds: equal counts force
/// equal elements.
proof fn lemma_array_no_lookahead(p1: PayloadV, p2: PayloadV, s1: Seq<u8>, s2: Seq<u8>, id: TagID)
    requires
        wf_payload(p1),
        wf_payload(p2),
        spec_payload_id(p1) == spec_payload_id(p2),
        spec_payload_id(p1) == id,
        id == TagID::ByteArray || id == TagID::IntArray || id == TagID::LongArray,
        spec_encode_payload(p1) + s1 == spec_encode_payload(p2) + s2,
    ensures
        p1 == p2,
{
    let v1 = if id == TagID::ByteArray {
        p1->ByteArray_0
    } else if id == TagID::IntArray {
        p1->IntArray_0
    } else {
        p1->LongArray_0
    };
    let v2 = if id == TagID::ByteArray {
        p2->ByteArray_0
    } else if id == TagID::IntArray {
        p2->IntArray_0
    } else {
        p2->LongArray_0
    };
    let e1 = spec_encode_payload(p1);
    let e2 = spec_encode_payload(p2);
    let ee1 = spec_encode_elems(v1);
    let ee2 = spec_encode_elems(v2);
    assert(e1 == u32_bytes(v1.len() as int) + ee1);
    assert(e2 == u32_bytes(v2.len() as int) + ee2);
    assert forall|i: int| 0 <= i < 4 implies u32_bytes(v1.len() as int)[i] == u32_bytes(
        v2.len() as int,
    )[i] by {
        assert(u32_bytes(v1.len() as int)[i] == (e1 + s1)[i]);
        assert(u32_bytes(v2.len() as int)[i] == (e2 + s2)[i]);
    }
    assert(u32_bytes(v1.len() as int) =~= u32_bytes(v2.len() as int));
    crate::bytes::lemma_be32_of_u32_bytes(v1.len() as int);
    crate::bytes::lemma_be32_of_u32_bytes(v2.len() as int);
    assert(v1.len() == v2.len());
    assert(forall|i: int| 0 <= i < v1.len() ==> prim_kind_ok(#[trigger] v1[i], id));
    assert(forall|i: int| 0 <= i < v2.len() ==> prim_kind_ok(#[trigger] v2[i], id));
    lemma_prim_elems_len(v1, id);
    lemma_prim_elems_len(v2, id);
    assert forall|i: int| 0 <= i < ee1.len() implies ee1[i] == ee2[i] by {
        assert(ee1[i] == (e1 + s1)[4 + i]);
        assert(ee2[i] == (e2 + s2)[4 + i]);
    }
    assert(ee1 =~= ee2);
    lemma_prim_elems_inj(v1, v2, id);
}

/// No lookahead for list elements: equal-length well-formed element
/// sequences with encodings that open one stream are equal.
proof fn lemma_elems_no_lookahead(
    v1: Seq<PayloadV>,
    v2: Seq<PayloadV>,
    id: TagID,
    s1: Seq<u8>,
    s2: Seq<u8>,
)
    requires
        crate::tag::shaped_list(v1, id),
        crate::tag::shaped_list(v2, id),
        crate::tag::encodable_elems(v1),
        crate::tag::encodable_elems(v2),
        v1.len() == v2.len(),
        spec_encode_elems(v1) + s1 == spec_encode_elems(v2) + s2,
    ensures
        v1 == v2,
    decreases v1,
{
    if v1.len() == 0 {
        assert(v1 =~= v2);
    } else {
        lemma_encode_elems_first(v1);
        lemma_encode_elems_first(v2);
        let h1 = spec_encode_payload(v1[0]);
        let h2 = spec_encode_payload(v2[0]);
        let r1 = spec_encode_elems(v1.drop_first());
        let r2 = spec_encode_elems(v2.drop_first());
        assert(h1 + (r1 + s1) =~= spec_encode_elems(v1) + s1);
        assert(h2 + (r2 + s2) =~= spec_encode_elems(v2) + s2);
        crate::tag::lemma_shaped_list_index(v1, id, 0);
        crate::tag::lemma_shaped_list_index(v2, id, 0);
        crate::tag::lemma_encodable_elems_index(v1, 0);
        crate::tag::lemma_encodable_elems_index(v2, 0);
        lemma_payload_no_lookahead(v1[0], v2[0], r1 + s1, r2 + s2);
        assert(r1 + s1 =~= r2 + s2) by {
            assert(forall|i: int| 0 <= i < r1.len() + s1.len() ==> (r1 + s1)[i] == (h1 + (r1
                + s1))[h1.len() + i]);
            assert(forall|i: int| 0 <= i < r2.len() + s2.len() ==> (r2 + s2)[i] == (h2 + (r2
                + s2))[h2.len() + i]);
        }
        crate::tag::lemma_shaped_list_pointwise(v1, id);
        crate::tag::lemma_shaped_list_pointwise(v2, id);
        crate::tag::lemma_shaped_list_pointwise(v1.drop_first(), id);
        crate::tag::lemma_shaped_list_pointwise(v2.drop_first(), id);
        crate::tag::lemma_encodable_elems_pointwise(v1);
        crate::tag::lemma_encodable_elems_pointwise(v2);
        crate::tag::lemma_encodable_elems_pointwise(v1.drop_first());
        crate::tag::lemma_encodable_elems_pointwise(v2.drop_first());
        lemma_elems_no_lookahead(v1.drop_first(), v2.drop_first(), id, s1, s2);
        assert forall|i: int| 0 <= i < v1.len() implies v1[i] == v2[i] by {
            if i > 0 {
                assert(v1[i] == v1.drop_first()[i - 1]);
                assert(v2[i] == v2.drop_first()[i - 1]);
            }
        }
        assert(v1 =~= v2);
    }
}

/// No lookahead for compound bodies: well-formed member sequences with
/// encodings that open one stream are equal.
proof fn lemma_members_no_lookahead(m1: Seq<TagV>, m2: Seq<TagV>, s1: Seq<u8>, s2: Seq<u8>)
    requires
        wf_members(m1),
        wf_members(m2),
        spec_encode_tags(m1) + s1 == spec_encode_tags(m2) + s2,
    ensures
        m1 == m2,
    decreases m1,
{
    lemma_encode_tags_first(m1);
    lemma_encode_tags_first(m2);
    let h1 = spec_encode_tag(m1[0]);
    let h2 = spec_encode_tag(m2[0]);
    let r1 = spec_encode_tags(m1.drop_first());
    let r2 = spec_encode_tags(m2.drop_first());
    assert(h1 + (r1 + s1) =~= spec_encode_tags(m1) + s1);
    assert(h2 + (r2 + s2) =~= spec_encode_tags(m2) + s2);
    crate::tag::lemma_shaped_members_pointwise(m1.drop_last());
    crate::tag::lemma_shaped_members_pointwise(m2.drop_last());
    crate::tag::lemma_encodable_tags_pointwise(m1);
    crate::tag::lemma_encodable_tags_pointwise(m2);
    assert(wf_tag(m1[0])) by {
        if m1.len() == 1 {
            assert(m1[0] == end_sentinel());
            reveal_with_fuel(encode_utf8, 1);
        } else {
            assert(m1.drop_last()[0] == m1[0]);
        }
    }
    assert(wf_tag(m2[0])) by {
        if m2.len() == 1 {
            assert(m2[0] == end_sentinel());
            reveal_with_fuel(encode_utf8, 1);
        } else {
            assert(m2.drop_last()[0] == m2[0]);
        }
    }
    lemma_tag_no_lookahead(m1[0], m2[0], r1 + s1, r2 + s2);
    if m1[0].id == TagID::End {
        assert(m1.len() == 1) by {
            if m1.len() > 1 {
                assert(m1.drop_last()[0] == m1[0]);
            }
        }
        assert(m2.len() == 1) by {
            if m2.len() > 1 {
                assert(m2.drop_last()[0] == m2[0]);
            }
        }
        assert(m1 =~= m2);
    } else {
        assert(m1.len() >= 2) by {
            assert(m1.last() == end_sentinel());
        }
        assert(m2.len() >= 2) by {
            assert(m2.last() == end_sentinel());
        }
        assert(r1 + s1 =~= r2 + s2) by {
            assert(forall|i: int| 0 <= i < r1.len() + s1.len() ==> (r1 + s1)[i] == (h1 + (r1
                + s1))[h1.len() + i]);
            assert(forall|i: int| 0 <= i < r2.len() + s2.len() ==> (r2 + s2)[i] == (h2 + (r2
                + s2))[h2.len() + i]);
        }
        assert(wf_members(m1.drop_first())) by {
            assert(m1.drop_first().last() == m1.last());
            crate::tag::lemma_shaped_members_pointwise(m1.drop_first().drop_last());
            crate::tag::lemma_encodable_tags_pointwise(m1.drop_first());
            assert(forall|i: int|
                0 <= i < m1.drop_first().drop_last().len() ==> m1.drop_first().drop_last()[i]
                    == m1.drop_last()[i + 1]);
            assert(forall|i: int|
                0 <= i < m1.drop_first().len() ==> m1.drop_first()[i] == m1[i + 1]);
        }
        assert(wf_members(m2.drop_first())) by {
            assert(m2.drop_first().last() == m2.last());
            crate::tag::lemma_shaped_members_pointwise(m2.drop_first().drop_last());
            crate::tag::lemma_encodable_tags_pointwise(m2.drop_first());
            assert(forall|i: int|
                0 <= i < m2.drop_first().drop_last().len() ==> m2.drop_first().drop_last()[i]
                    == m2.drop_last()[i + 1]);
            assert(forall|i: int|
                0 <= i < m2.drop_first().len() ==> m2.drop_first()[i] == m2[i + 1]);
        }
        lemma_members_no_lookahead(m1.drop_first(), m2.drop_first(), s1, s2);
        assert(m1.drop_first().len() == m2.drop_first().len());
        assert forall|i: int| 0 <= i < m1.len() implies m1[i] == m2[i] by {
            if i > 0 {
                assert(m1[i] == m1.drop_first()[i - 1]);
                assert(m2[i] == m2.drop_first()[i - 1]);
            }
        }
        assert(m1 =~= m2);
    }
}

/// The format needs no lookahead at the tag level: two well-formed tags
/// whose encodings open the same byte stream are the same tag. In
/// particular the encoding of a well-formed tree is never a proper prefix
/// of another's, so a decode is unambiguous.
pub proof fn lemma_tag_no_lookahead(t1: TagV, t2: TagV, s1: Seq<u8>, s2: Seq<u8>)
    requires
        wf_tag(t1),
        wf_tag(t2),
        spec_encode_tag(t1) + s1 == spec_encode_tag(t2) + s2,
    ensures
        t1 == t2,
        spec_encode_tag(t1) == spec_encode_tag(t2),
    decreases t1,
{
    let e1 = spec_encode_tag(t1);
    let e2 = spec_encode_tag(t2);
    assert(forall|i: int| 0 <= i < e1.len() && i < e2.len() ==> e1[i] == e2[i]) by {
        assert(forall|i: int|
            0 <= i < e1.len() && i < e2.len() ==> e1[i] == (e1 + s1)[i] && e2[i] == (e2 + s2)[i]);
    }
    assert(e1[0] == spec_code(t1.id) && e2[0] == spec_code(t2.id));
    crate::tag::lemma_code_of_id(t1.id);
    crate::tag::lemma_code_of_id(t2.id);
    assert(t1.id == t2.id);
    if t1.id == TagID::End {
        assert(t1.payload == PayloadV::End && t2.payload == PayloadV::End);
        assert(t1 == t2);
    } else {
        let n1 = encode_utf8(t1.name);
        let n2 = encode_utf8(t2.name);
        assert(e1 == seq![spec_code(t1.id)] + u16_bytes(n1.len() as int) + n1
            + spec_encode_payload(t1.payload));
        assert(e2 == seq![spec_code(t2.id)] + u16_bytes(n2.len() as int) + n2
            + spec_encode_payload(t2.payload));
        assert forall|i: int| 0 <= i < 2 implies u16_bytes(n1.len() as int)[i] == u16_bytes(
            n2.len() as int,
        )[i] by {
            assert(u16_bytes(n1.len() as int)[i] == e1[1 + i]);
            assert(u16_bytes(n2.len() as int)[i] == e2[1 + i]);
        }
        assert(u16_bytes(n1.len() as int) =~= u16_bytes(n2.len() as int));
        crate::bytes::lemma_be16_of_u16_bytes(n1.len() as int);
        crate::bytes::lemma_be16_of_u16_bytes(n2.len() as int);
        assert(n1.len() == n2.len());
        assert forall|i: int| 0 <= i < n1.len() implies n1[i] == n2[i] by {
            assert(n1[i] == e1[3 + i]);
            assert(n2[i] == e2[3 + i]);
        }
        assert(n1 =~= n2);
        assert(vstd::utf8::decode_utf8(encode_utf8(t1.name)) == t1.name);
        assert(vstd::utf8::decode_utf8(encode_utf8(t2.name)) == t2.name);
        assert(t1.name == t2.name);
        let p1 = spec_encode_payload(t1.payload);
        let p2 = spec_encode_payload(t2.payload);
        let off = 3 + n1.len() as int;
        let hd1 = seq![spec_code(t1.id)] + u16_bytes(n1.len() as int) + n1;
        let hd2 = seq![spec_code(t2.id)] + u16_bytes(n2.len() as int) + n2;
        assert(e1 =~= hd1 + p1);
        assert(e2 =~= hd2 + p2);
        assert(hd1.len() == off && hd2.len() == off);
        assert((e1 + s1).len() == (e2 + s2).len());
        assert(e1.len() == off + p1.len());
        assert(e2.len() == off + p2.len());
        assert(p1.len() + s1.len() == p2.len() + s2.len());
        assert forall|i: int| 0 <= i < p1.len() + s1.len() implies (p1 + s1)[i] == (p2 + s2)[i] by {
            assert((p1 + s1)[i] == ((hd1 + p1) + s1)[off + i]);
            assert((p2 + s2)[i] == ((hd2 + p2) + s2)[off + i]);
            assert(((hd1 + p1) + s1)[off + i] == (e1 + s1)[off + i]);
            assert(((hd2 + p2) + s2)[off + i] == (e2 + s2)[off + i]);
        }
        assert(p1 + s1 =~= p2 + s2);
        lemma_payload_no_lookahead(t1.payload, t2.payload, s1, s2);
        assert(t1 == t2);
    }
}

impl Tag {
    /// Reads one named tag: a kind byte, then (except for `End`) a
    /// length-prefixed name, then the payload of that kind.
    #[verifier::loop_isolation(false)]
    #[verifier::rlimit(100)]
    fn read_tag(cur: &mut NbtBytesIter) -> (r: ByteResult<Tag>)
        requires
            old(cur).wf(),
        ensures
            final(cur).wf(),
            final(cur).bytes@ == old(cur).bytes@,
            r matches Ok(t) ==> ({
                let enc = spec_encode_tag(t@);
                &&& wf_tag(t@)
                &&& final(cur).pos == old(cur).pos + enc.len()
                &&& enc == old(cur).remaining().take(enc.len() as int)
            }),
            old(cur).remaining().len() == 0 ==> r == Err::<Tag, ByteError>(
                ByteError::NextByteError(1),
            ),
            old(cur).remaining().len() >= 1 && spec_id_of_code(old(cur).remaining()[0]) is None
                ==> r == Err::<Tag, ByteError>(
                ByteError::InvalidTagID(old(cur).remaining()[0]),
            ),
            forall|q: TagV|
                wf_tag(q) && (#[trigger] spec_encode_tag(q)).is_prefix_of(old(cur).remaining())
                    ==> (r matches Ok(t) && t@ == q),
        decreases old(cur).remaining().len(), 0int,
    {
        let ghost rem = old(cur).remaining();
        let tag_id = match cur.next_id() {
            Ok(id) => id,
            Err(e) => {
                proof {
                    assert forall|q: TagV|
                        wf_tag(q) && (#[trigger] spec_encode_tag(q)).is_prefix_of(rem)
                        implies false by {
                        lemma_tag_header(q, rem);
                    }
                }
                return Err(e);
            },
        };
        let ghost rem1 = cur.remaining();
        proof {
            assert(rem1 =~= rem.skip(1));
        }
        let name = if matches!(tag_id, TagID::End) {
            String::new()
        } else {
            match cur.next_str() {
                Ok(s) => s,
                Err(e) => {
                    proof {
                        assert forall|q: TagV|
                            wf_tag(q) && (#[trigger] spec_encode_tag(q)).is_prefix_of(rem)
                            implies false by {
                            lemma_tag_header(q, rem);
                            let nb = encode_utf8(q.name);
                            crate::bytes::lemma_be16_of_u16_bytes(nb.len() as int);
                            assert(rem1.take(2) =~= rem.subrange(1, 3));
                            assert(be16(rem1.take(2)) == nb.len());
                            assert(rem1.len() == rem.len() - 1);
                            assert(rem1.subrange(2, 2 + nb.len() as int) =~= rem.subrange(
                                3,
                                3 + nb.len() as int,
                            ));
                            assert(valid_utf8(rem1.subrange(2, 2 + be16(rem1.take(2)))));
                        }
                    }
                    return Err(e);
                },
            }
        };
        let ghost name_enc: Seq<u8> = if tag_id == TagID::End {
            Seq::empty()
        } else {
            u16_bytes(encode_utf8(name@).len() as int) + encode_utf8(name@)
        };
        proof {
            if tag_id != TagID::End {
                assert(rem1.take(2) =~= rem.subrange(1, 3));
                let len = be16(rem1.take(2));
                crate::bytes::lemma_u16_bytes_of_be16(rem1.take(2));
                assert(rem1.subrange(2, 2 + len) =~= rem.subrange(3, 3 + len));
                assert(name_enc =~= rem.subrange(1, 1 + name_enc.len() as int));
                assert(encode_utf8(name@).len() == be16(rem.subrange(1, 3)));
                assert(encode_utf8(name@) == rem.subrange(3, 3 + encode_utf8(name@).len() as int));
            } else {
                reveal_with_fuel(encode_utf8, 1);
            }
        }
        let ghost rem_p = cur.remaining();
        proof {
            if tag_id == TagID::End {
                assert(rem_p =~= rem.skip(1));
            } else {
                assert(rem_p =~= rem.skip(3 + encode_utf8(name@).len() as int));
            }
        }
        let payload = match Self::get_payload(cur, tag_id) {
            Ok(p) => p,
            Err(e) => {
                proof {
                    assert forall|q: TagV|
                        wf_tag(q) && (#[trigger] spec_encode_tag(q)).is_prefix_of(rem)
                        implies false by {
                        lemma_tag_header(q, rem);
                        Self::lemma_read_tag_step(q, rem, tag_id, name@, rem_p);
                    }
                }
                return Err(e);
            },
        };
        let t = Tag { tag_id, name, payload };
        proof {
            let enc = spec_encode_tag(t@);
            assert(t@.id == spec_payload_id(t@.payload));
            assert(enc =~= rem.take(enc.len() as int));
            assert forall|q: TagV|
                wf_tag(q) && (#[trigger] spec_encode_tag(q)).is_prefix_of(rem) implies t@ == q by {
                lemma_tag_header(q, rem);
                Self::lemma_read_tag_step(q, rem, tag_id, name@, rem_p);
            }
        }
        Ok(t)
    }

    /// After the kind byte and the name of a well-formed prefixed tag have
    /// been read and matched, its payload's encoding is a prefix of what
    /// remains, and its name is the one that was read.
    proof fn lemma_read_tag_step(
        q: TagV,
        rem: Seq<u8>,
        tag_id: TagID,
        name: Seq<char>,
        rem_p: Seq<u8>,
    )
        requires
            wf_tag(q),
            spec_encode_tag(q).is_prefix_of(rem),
            tag_id == q.id,
            tag_id == TagID::End ==> name == Seq::<char>::empty() && rem_p == rem.skip(1),
            tag_id != TagID::End ==> encode_utf8(name).len() == be16(rem.subrange(1, 3))
                && encode_utf8(name) == rem.subrange(3, 3 + encode_utf8(name).len() as int)
                && rem_p == rem.skip(3 + encode_utf8(name).len() as int),
        ensures
            q.name == name,
            spec_payload_id(q.payload) == tag_id,
            spec_encode_payload(q.payload).is_prefix_of(rem_p),
    {
        lemma_tag_header(q, rem);
        if q.id == TagID::End {
            assert(spec_encode_payload(q.payload) =~= Seq::<u8>::empty());
            assert(spec_encode_payload(q.payload).is_prefix_of(rem_p));
        } else {
            let nb = encode_utf8(q.name);
            crate::bytes::lemma_be16_of_u16_bytes(nb.len() as int);
            assert(encode_utf8(name).len() == nb.len());
            assert(encode_utf8(name) =~= rem.subrange(3, 3 + nb.len() as int));
            assert(encode_utf8(name) == nb);
            assert(decode_utf8(encode_utf8(name)) == name);
            assert(decode_utf8(encode_utf8(q.name)) == q.name);
            assert(q.name == name);
        }
    }

    /// Consumes and returns every tag up to and including the `End`
    /// sentinel.
    #[verifier::loop_isolation(false)]
    fn get_compound(cur: &mut NbtBytesIter) -> (r: ByteResult<Vec<Tag>>)
        requires
            old(cur).wf(),
        ensures
            final(cur).wf(),
            final(cur).bytes@ == old(cur).bytes@,
            r matches Ok(ts) ==> ({
                let tv = tags_view(ts@);
                let enc = spec_encode_tags(tv);
                &&& tv.len() >= 1
                &&& tv.last() == end_sentinel()
                &&& shaped_members(tv.drop_last())
                &&& encodable_tags(tv)
                &&& final(cur).pos == old(cur).pos + enc.len()
                &&& enc == old(cur).remaining().take(enc.len() as int)
            }),
            forall|qs: Seq<TagV>|
                wf_members(qs) && (#[trigger] spec_encode_tags(qs)).is_prefix_of(
                    old(cur).remaining(),
                ) ==> (r matches Ok(ts) && tags_view(ts@) == qs),
        decreases old(cur).remaining().len(), 1int,
    {
        let mut tags: Vec<Tag> = Vec::new();
        let ghost rem = old(cur).remaining();
        let mut done = false;
        proof {
            assert(tags_view(tags@) =~= Seq::<TagV>::empty());
            assert forall|qs: Seq<TagV>| true implies #[trigger] qs.take(0) =~= Seq::<TagV>::empty() by {
                assert(qs.take(0) =~= Seq::<TagV>::empty());
            }
        }
        while !done
            invariant
                cur.wf(),
                cur.bytes@ == old(cur).bytes@,
                ({
                    let tv = tags_view(tags@);
                    let enc = spec_encode_tags(tv);
                    &&& !done ==> shaped_members(tv)
                    &&& encodable_tags(tv)
                    &&& cur.pos == old(cur).pos + enc.len()
                    &&& enc == rem.take(enc.len() as int)
                    &&& done ==> tv.len() >= 1 && tv.last() == end_sentinel() && shaped_members(
                        tv.drop_last(),
                    )
                }),
                forall|qs: Seq<TagV>|
                    wf_members(qs) && (#[trigger] spec_encode_tags(qs)).is_prefix_of(rem) ==> ({
                        let tv = tags_view(tags@);
                        &&& tv.len() <= qs.len()
                        &&& qs.take(tv.len() as int) == tv
                        &&& (done ==> tv == qs)
                    }),
            decreases rem.len() - (cur.pos - old(cur).pos),
        {
            let ghost tv_pre = tags_view(tags@);
            let ghost pos_pre = cur.pos;
            let ghost rem_k = cur.remaining();
            proof {
                assert(rem_k =~= rem.skip(spec_encode_tags(tv_pre).len() as int));
                assert forall|qs: Seq<TagV>|
                    wf_members(qs) && (#[trigger] spec_encode_tags(qs)).is_prefix_of(rem)
                    implies tv_pre.len() < qs.len() && wf_tag(
                    qs[tv_pre.len() as int],
                ) && spec_encode_tag(qs[tv_pre.len() as int]).is_prefix_of(rem_k) by {
                    Self::lemma_compound_step(qs, rem, tv_pre, rem_k);
                }
            }
            let t = match Self::read_tag(cur) {
                Ok(t) => t,
                Err(e) => {
                    return Err(e);
                },
            };
            let is_end = matches!(t.tag_id, TagID::End);
            proof {
                // Every tag consumes at least its kind byte, so the loop
                // strictly shrinks the remaining bytes.
                if cur.pos == pos_pre {
                    assert(spec_encode_tag(t@).len() == 0);
                    assert(spec_encode_tag(t@).len() >= 1);
                }
            }
            let ghost tval = t@;
            tags.push(t);
            proof {
                assert(tags_view(tags@).drop_last() =~= tv_pre);
                assert(tags_view(tags@).last() == tval);
                let tv = tags_view(tags@);
                let enc = spec_encode_tags(tv);
                assert(enc =~= rem.take(enc.len() as int));
                if is_end {
                    assert(tval == end_sentinel());
                }
                assert forall|qs: Seq<TagV>|
                    wf_members(qs) && (#[trigger] spec_encode_tags(qs)).is_prefix_of(rem)
                    implies tv.len() <= qs.len() && qs.take(tv.len() as int) == tv && (is_end
                    ==> tv == qs) by {
                    Self::lemma_compound_step(qs, rem, tv_pre, rem_k);
                    let k = tv_pre.len() as int;
                    assert(tval == qs[k]);
                    assert(qs.take(k + 1) =~= tv);
                    if is_end {
                        if k < qs.len() - 1 {
                            crate::tag::lemma_shaped_members_index(qs.drop_last(), k);
                        }
                        assert(qs =~= tv);
                    }
                }
            }
            if is_end {
                done = true;
            }
        }
        Ok(tags)
    }

    /// Reads the payload that goes with a tag kind.
    #[verifier::loop_isolation(false)]
    #[verifier::rlimit(100)]
    fn get_payload(cur: &mut NbtBytesIter, tag_id: TagID) -> (r: ByteResult<TagPayload>)
        requires
            old(cur).wf(),
        ensures
            final(cur).wf(),
            final(cur).bytes@ == old(cur).bytes@,
            r matches Ok(p) ==> ({
                let enc = spec_encode_payload(p@);
                &&& wf_payload(p@)
                &&& spec_payload_id(p@) == tag_id
                &&& final(cur).pos == old(cur).pos + enc.len()
                &&& enc == old(cur).remaining().take(enc.len() as int)
            }),
            forall|q: PayloadV|
                wf_payload(q) && spec_payload_id(q) == tag_id && (#[trigger] spec_encode_payload(
                    q,
                )).is_prefix_of(old(cur).remaining()) ==> (r matches Ok(p) && p@ == q),
        decreases old(cur).remaining().len(), 2int,
    {
        let ghost rem = old(cur).remaining();
        match tag_id {
            TagID::End => {
                proof {
                    assert(spec_encode_payload(PayloadV::End) =~= rem.take(0));
                    assert forall|q: PayloadV|
                        wf_payload(q) && spec_payload_id(q) == TagID::End && (
                        #[trigger] spec_encode_payload(q)).is_prefix_of(rem)
                        implies q == PayloadV::End by {}
                }
                Ok(TagPayload::End)
            },
            TagID::Byte => Self::decode_byte(cur),
            TagID::Short => Self::decode_short(cur),
            TagID::Int => Self::decode_int(cur),
            TagID::Long => Self::decode_long(cur),
            TagID::Float => Self::decode_float(cur),
            TagID::Double => Self::decode_double(cur),
            TagID::ByteArray => Self::decode_byte_array(cur),
            TagID::String => Self::decode_string(cur),
            TagID::List => Self::decode_list(cur),
            TagID::Compound => {
                let tags = match Self::get_compound(cur) {
                    Ok(ts) => ts,
                    Err(e) => {
                        proof {
                            assert forall|q: PayloadV|
                                wf_payload(q) && spec_payload_id(q) == TagID::Compound && (
                                #[trigger] spec_encode_payload(q)).is_prefix_of(rem)
                                implies false by {
                                assert(wf_members(q->Compound_0));
                                assert(spec_encode_tags(q->Compound_0).is_prefix_of(rem));
                            }
                        }
                        return Err(e);
                    },
                };
                proof {
                    assert forall|q: PayloadV|
                        wf_payload(q) && spec_payload_id(q) == TagID::Compound && (
                        #[trigger] spec_encode_payload(q)).is_prefix_of(rem) implies q
                        == PayloadV::Compound(tags_view(tags@)) by {
                        assert(wf_members(q->Compound_0));
                        assert(spec_encode_tags(q->Compound_0).is_prefix_of(rem));
                    }
                }
                Ok(TagPayload::Compound(tags))
            },
            TagID::IntArray => Self::decode_int_array(cur),
            TagID::LongArray => Self::decode_long_array(cur),
        }
    }



    /// Reads a `Byte` payload: one fixed-width big-endian field.
    #[verifier::loop_isolation(false)]
    fn decode_byte(cur: &mut NbtBytesIter) -> (r: ByteResult<TagPayload>)
        requires
            old(cur).wf(),
        ensures
            final(cur).wf(),
            final(cur).bytes@ == old(cur).bytes@,
            r matches Ok(p) ==> ({
                let enc = spec_encode_payload(p@);
                &&& wf_payload(p@)
                &&& spec_payload_id(p@) == TagID::Byte
                &&& final(cur).pos == old(cur).pos + enc.len()
                &&& enc == old(cur).remaining().take(enc.len() as int)
            }),
            forall|q: PayloadV|
                wf_payload(q) && spec_payload_id(q) == TagID::Byte && (
                #[trigger] spec_encode_payload(q)).is_prefix_of(old(cur).remaining())
                    ==> (r matches Ok(p) && p@ == q),
    {
        let ghost rem = old(cur).remaining();
        let x = cur.next_i8()?;
        proof {
            assert(seq![unsigned8(x as int) as u8] =~= rem.take(1));
            assert forall|q: PayloadV|
                wf_payload(q) && spec_payload_id(q) == TagID::Byte && (
                #[trigger] spec_encode_payload(q)).is_prefix_of(rem) implies q == PayloadV::Byte(
                x,
            ) by {
                let b = q->Byte_0;
                assert(spec_encode_payload(q)[0] == rem[0]);
                assert(unsigned8(b as int) as u8 == rem[0]);
            }
        }
        Ok(TagPayload::Byte(x))
    }

    /// Reads a `Short` payload: one fixed-width big-endian field.
    #[verifier::loop_isolation(false)]
    fn decode_short(cur: &mut NbtBytesIter) -> (r: ByteResult<TagPayload>)
        requires
            old(cur).wf(),
        ensures
            final(cur).wf(),
            final(cur).bytes@ == old(cur).bytes@,
            r matches Ok(p) ==> ({
                let enc = spec_encode_payload(p@);
                &&& wf_payload(p@)
                &&& spec_payload_id(p@) == TagID::Short
                &&& final(cur).pos == old(cur).pos + enc.len()
                &&& enc == old(cur).remaining().take(enc.len() as int)
            }),
            forall|q: PayloadV|
                wf_payload(q) && spec_payload_id(q) == TagID::Short && (
                #[trigger] spec_encode_payload(q)).is_prefix_of(old(cur).remaining())
                    ==> (r matches Ok(p) && p@ == q),
    {
        let ghost rem = old(cur).remaining();
        let x = cur.next_i16()?;
        proof {
            crate::bytes::lemma_u16_bytes_of_be16(rem.take(2));
            assert(unsigned16(x as int) == be16(rem.take(2)));
            assert forall|q: PayloadV|
                wf_payload(q) && spec_payload_id(q) == TagID::Short && (
                #[trigger] spec_encode_payload(q)).is_prefix_of(rem) implies q == PayloadV::Short(
                x,
            ) by {
                let b = q->Short_0;
                crate::bytes::lemma_be16_of_u16_bytes(unsigned16(b as int));
                assert(spec_encode_payload(q) =~= rem.take(2));
            }
        }
        Ok(TagPayload::Short(x))
    }

    /// Reads a `Int` payload: one fixed-width big-endian field.
    #[verifier::loop_isolation(false)]
    fn decode_int(cur: &mut NbtBytesIter) -> (r: ByteResult<TagPayload>)
        requires
            old(cur).wf(),
        ensures
            final(cur).wf(),
            final(cur).bytes@ == old(cur).bytes@,
            r matches Ok(p) ==> ({
                let enc = spec_encode_payload(p@);
                &&& wf_payload(p@)
                &&& spec_payload_id(p@) == TagID::Int
                &&& final(cur).pos == old(cur).pos + enc.len()
                &&& enc == old(cur).remaining().take(enc.len() as int)
            }),
            forall|q: PayloadV|
                wf_payload(q) && spec_payload_id(q) == TagID::Int && (
                #[trigger] spec_encode_payload(q)).is_prefix_of(old(cur).remaining())
                    ==> (r matches Ok(p) && p@ == q),
    {
        let ghost rem = old(cur).remaining();
        let x = cur.next_i32()?;
        proof {
            crate::bytes::lemma_u32_bytes_of_be32(rem.take(4));
            assert(unsigned32(x as int) == be32(rem.take(4)));
            assert forall|q: PayloadV|
                wf_payload(q) && spec_payload_id(q) == TagID::Int && (
                #[trigger] spec_encode_payload(q)).is_prefix_of(rem) implies q == PayloadV::Int(
                x,
            ) by {
                let b = q->Int_0;
                crate::bytes::lemma_be32_of_u32_bytes(unsigned32(b as int));
                assert(spec_encode_payload(q) =~= rem.take(4));
            }
        }
        Ok(TagPayload::Int(x))
    }

    /// Reads a `Long` payload: one fixed-width big-endian field.
    #[verifier::loop_isolation(false)]
    fn decode_long(cur: &mut NbtBytesIter) -> (r: ByteResult<TagPayload>)
        requires
            old(cur).wf(),
        ensures
            final(cur).wf(),
            final(cur).bytes@ == old(cur).bytes@,
            r matches Ok(p) ==> ({
                let enc = spec_encode_payload(p@);
                &&& wf_payload(p@)
                &&& spec_payload_id(p@) == TagID::Long
                &&& final(cur).pos == old(cur).pos + enc.len()
                &&& enc == old(cur).remaining().take(enc.len() as int)
            }),
            forall|q: PayloadV|
                wf_payload(q) && spec_payload_id(q) == TagID::Long && (
                #[trigger] spec_encode_payload(q)).is_prefix_of(old(cur).remaining())
                    ==> (r matches Ok(p) && p@ == q),
    {
        let ghost rem = old(cur).remaining();
        let x = cur.next_i64()?;
        proof {
            crate::bytes::lemma_u64_bytes_of_be64(rem.take(8));
            assert(unsigned64(x as int) == be64(rem.take(8)));
            assert forall|q: PayloadV|
                wf_payload(q) && spec_payload_id(q) == TagID::Long && (
                #[trigger] spec_encode_payload(q)).is_prefix_of(rem) implies q == PayloadV::Long(
                x,
            ) by {
                let b = q->Long_0;
                crate::bytes::lemma_be64_of_u64_bytes(unsigned64(b as int));
                assert(spec_encode_payload(q) =~= rem.take(8));
            }
        }
        Ok(TagPayload::Long(x))
    }

    /// Reads a `Float` payload: one fixed-width big-endian field.
    #[verifier::loop_isolation(false)]
    fn decode_float(cur: &mut NbtBytesIter) -> (r: ByteResult<TagPayload>)
        requires
            old(cur).wf(),
        ensures
            final(cur).wf(),
            final(cur).bytes@ == old(cur).bytes@,
            r matches Ok(p) ==> ({
                let enc = spec_encode_payload(p@);
                &&& wf_payload(p@)
                &&& spec_payload_id(p@) == TagID::Float
                &&& final(cur).pos == old(cur).pos + enc.len()
                &&& enc == old(cur).remaining().take(enc.len() as int)
            }),
            forall|q: PayloadV|
                wf_payload(q) && spec_payload_id(q) == TagID::Float && (
                #[trigger] spec_encode_payload(q)).is_prefix_of(old(cur).remaining())
                    ==> (r matches Ok(p) && p@ == q),
    {
        let ghost rem = old(cur).remaining();
        let x = cur.next_u32()?;
        proof {
            crate::bytes::lemma_u32_bytes_of_be32(rem.take(4));
            assert forall|q: PayloadV|
                wf_payload(q) && spec_payload_id(q) == TagID::Float && (
                #[trigger] spec_encode_payload(q)).is_prefix_of(rem) implies q == PayloadV::Float(
                x,
            ) by {
                let b = q->Float_0;
                crate::bytes::lemma_be32_of_u32_bytes(b as int);
                assert(spec_encode_payload(q) =~= rem.take(4));
            }
        }
        Ok(TagPayload::Float(x))
    }

    /// Reads a `Double` payload: one fixed-width big-endian field.
    #[verifier::loop_isolation(false)]
    fn decode_double(cur: &mut NbtBytesIter) -> (r: ByteResult<TagPayload>)
        requires
            old(cur).wf(),
        ensures
            final(cur).wf(),
            final(cur).bytes@ == old(cur).bytes@,
            r matches Ok(p) ==> ({
                let enc = spec_encode_payload(p@);
                &&& wf_payload(p@)
                &&& spec_payload_id(p@) == TagID::Double
                &&& final(cur).pos == old(cur).pos + enc.len()
                &&& enc == old(cur).remaining().take(enc.len() as int)
            }),
            forall|q: PayloadV|
                wf_payload(q) && spec_payload_id(q) == TagID::Double && (
                #[trigger] spec_encode_payload(q)).is_prefix_of(old(cur).remaining())
                    ==> (r matches Ok(p) && p@ == q),
    {
        let ghost rem = old(cur).remaining();
        let x = cur.next_u64()?;
        proof {
            crate::bytes::lemma_u64_bytes_of_be64(rem.take(8));
            assert forall|q: PayloadV|
                wf_payload(q) && spec_payload_id(q) == TagID::Double && (
                #[trigger] spec_encode_payload(q)).is_prefix_of(rem) implies q == PayloadV::Double(
                x,
            ) by {
                let b = q->Double_0;
                crate::bytes::lemma_be64_of_u64_bytes(b as int);
                assert(spec_encode_payload(q) =~= rem.take(8));
            }
        }
        Ok(TagPayload::Double(x))
    }

    /// Reads a `String` payload: a 2-byte byte count, then UTF-8 text.
    #[verifier::loop_isolation(false)]
    fn decode_string(cur: &mut NbtBytesIter) -> (r: ByteResult<TagPayload>)
        requires
            old(cur).wf(),
        ensures
            final(cur).wf(),
            final(cur).bytes@ == old(cur).bytes@,
            r matches Ok(p) ==> ({
                let enc = spec_encode_payload(p@);
                &&& wf_payload(p@)
                &&& spec_payload_id(p@) == TagID::String
                &&& final(cur).pos == old(cur).pos + enc.len()
                &&& enc == old(cur).remaining().take(enc.len() as int)
            }),
            forall|q: PayloadV|
                wf_payload(q) && spec_payload_id(q) == TagID::String && (
                #[trigger] spec_encode_payload(q)).is_prefix_of(old(cur).remaining())
                    ==> (r matches Ok(p) && p@ == q),
    {
        let ghost rem = old(cur).remaining();
        let s = match cur.next_str() {
            Ok(s) => s,
            Err(e) => {
                proof {
                    assert forall|q: PayloadV|
                        wf_payload(q) && spec_payload_id(q) == TagID::String && (
                        #[trigger] spec_encode_payload(q)).is_prefix_of(rem) implies false by {
                        let qs = q->String_0;
                        let qb = encode_utf8(qs);
                        assert(spec_encode_payload(q) == u16_bytes(qb.len() as int) + qb);
                        assert(u16_bytes(qb.len() as int).len() == 2);
                        assert(rem.take(2) =~= u16_bytes(qb.len() as int));
                        crate::bytes::lemma_be16_of_u16_bytes(qb.len() as int);
                        let len = be16(rem.take(2));
                        assert(len == qb.len());
                        assert(rem.len() >= 2 + len);
                        assert forall|i: int| 0 <= i < len implies qb[i] == rem[2 + i] by {
                            assert(qb[i] == spec_encode_payload(q)[2 + i]);
                            assert(spec_encode_payload(q) =~= rem.take(2 + len));
                        }
                        assert(qb =~= rem.subrange(2, 2 + len));
                        assert(valid_utf8(qb));
                    }
                }
                return Err(e);
            },
        };
        proof {
            crate::bytes::lemma_u16_bytes_of_be16(rem.take(2));
            let len = be16(rem.take(2));
            let enc = spec_encode_payload(PayloadV::String(s@));
            assert(enc =~= rem.take(enc.len() as int));
            assert forall|q: PayloadV|
                wf_payload(q) && spec_payload_id(q) == TagID::String && (
                #[trigger] spec_encode_payload(q)).is_prefix_of(rem) implies q == PayloadV::String(
                s@,
            ) by {
                let qs = q->String_0;
                let qb = encode_utf8(qs);
                assert(spec_encode_payload(q) == u16_bytes(qb.len() as int) + qb);
                assert(rem.take(2) =~= u16_bytes(qb.len() as int));
                crate::bytes::lemma_be16_of_u16_bytes(qb.len() as int);
                assert(len == qb.len());
                assert forall|i: int| 0 <= i < len implies qb[i] == rem[2 + i] by {
                    assert(qb[i] == spec_encode_payload(q)[2 + i]);
                    assert(spec_encode_payload(q) =~= rem.take(2 + len));
                }
                assert(qb =~= rem.subrange(2, 2 + len));
                assert(encode_utf8(s@) == encode_utf8(qs));
                assert(decode_utf8(encode_utf8(s@)) == s@);
                assert(decode_utf8(encode_utf8(qs)) == qs);
            }
        }
        Ok(TagPayload::String(s))
    }

    /// Reads a `ByteArray` payload: a 4-byte count, then the elements.
    #[verifier::loop_isolation(false)]
    #[verifier::rlimit(60)]
    fn decode_byte_array(cur: &mut NbtBytesIter) -> (r: ByteResult<TagPayload>)
        requires
            old(cur).wf(),
        ensures
            final(cur).wf(),
            final(cur).bytes@ == old(cur).bytes@,
            r matches Ok(p) ==> ({
                let enc = spec_encode_payload(p@);
                &&& wf_payload(p@)
                &&& spec_payload_id(p@) == TagID::ByteArray
                &&& final(cur).pos == old(cur).pos + enc.len()
                &&& enc == old(cur).remaining().take(enc.len() as int)
            }),
            forall|q: PayloadV|
                wf_payload(q) && spec_payload_id(q) == TagID::ByteArray && (
                #[trigger] spec_encode_payload(q)).is_prefix_of(old(cur).remaining())
                    ==> (r matches Ok(p) && p@ == q),
    {
        let ghost rem = old(cur).remaining();
        let n = match Self::next_count(cur) {
            Ok(n) => n,
            Err(e) => {
                proof {
                    assert forall|q: PayloadV|
                        wf_payload(q) && spec_payload_id(q) == TagID::ByteArray && (
                        #[trigger] spec_encode_payload(q)).is_prefix_of(rem) implies false by {
                        let qv = q->ByteArray_0;
                        assert(spec_encode_payload(q) == u32_bytes(qv.len() as int)
                            + spec_encode_elems(qv));
                        assert(u32_bytes(qv.len() as int).len() == 4);
                        assert(rem.take(4) =~= u32_bytes(qv.len() as int));
                        crate::bytes::lemma_be32_of_u32_bytes(qv.len() as int);
                        assert(forall|i: int| 0 <= i < qv.len() ==> prim_kind_ok(
                            #[trigger] qv[i],
                            TagID::ByteArray,
                        ));
                        lemma_prim_elems_len(qv, TagID::ByteArray);
                    }
                }
                return Err(e);
            },
        };
                let mut v: Vec<TagPayload> = Vec::new();
                let mut k: usize = 0;
                while k < n
                    invariant
                        cur.wf(),
                        cur.bytes@ == old(cur).bytes@,
                        k <= n,
                        n <= 0x7FFF_FFFF,
                        cur.pos == old(cur).pos + 4 + k,
                        payloads_view(v@).len() == k,
                        crate::tag::encodable_elems(payloads_view(v@)),
                        forall|i: int| 0 <= i < k ==> payloads_view(v@)[i] is Byte,
                        spec_encode_elems(payloads_view(v@)) == rem.subrange(4, 4 + k),
                    decreases n - k,
                {
                    let ghost pv_pre = payloads_view(v@);
                    let x = match cur.next_i8() {
                        Ok(x) => x,
                        Err(e) => {
                            proof {
                                assert forall|q: PayloadV|
                                    wf_payload(q) && spec_payload_id(q) == TagID::ByteArray && (
                                    #[trigger] spec_encode_payload(q)).is_prefix_of(rem)
                                    implies false by {
                        let qv = q->ByteArray_0;
                        assert(spec_encode_payload(q) == u32_bytes(qv.len() as int)
                            + spec_encode_elems(qv));
                        assert(u32_bytes(qv.len() as int).len() == 4);
                        assert(rem.take(4) =~= u32_bytes(qv.len() as int));
                        crate::bytes::lemma_be32_of_u32_bytes(qv.len() as int);
                        assert(forall|i: int| 0 <= i < qv.len() ==> prim_kind_ok(
                            #[trigger] qv[i],
                            TagID::ByteArray,
                        ));
                        lemma_prim_elems_len(qv, TagID::ByteArray);
                        assert(qv.len() == n);
                                }
                            }
                            return Err(e);
                        },
                    };
                    v.push(TagPayload::Byte(x));
                    proof {
                        let pv = payloads_view(v@);
                        assert(pv.drop_last() =~= pv_pre);
                        assert(pv.last() == PayloadV::Byte(x));
                        assert(crate::tag::encodable_payload(PayloadV::Byte(x)));
                        assert(crate::tag::encodable_elems(pv));
                        assert(pv.len() == k + 1);
                        assert(forall|i: int| 0 <= i < k ==> pv[i] == pv_pre[i]);
                        assert(spec_encode_elems(pv) == spec_encode_elems(pv_pre)
                            + spec_encode_payload(PayloadV::Byte(x)));
                        assert(rem.skip(4 + k)[0] == rem[4 + k]);
                        assert(unsigned8(x as int) as u8 == rem[4 + k]);
                        assert(spec_encode_payload(PayloadV::Byte(x)) =~= rem.subrange(
                            4 + k,
                            4 + k + 1,
                        ));
                        assert(spec_encode_elems(pv) =~= rem.subrange(4, 4 + k + 1));
                    }
                    k = k + 1;
                }
                proof {
                    Self::lemma_counted_payload(rem, payloads_view(v@), TagID::ByteArray, n as int);
                    assert forall|q: PayloadV|
                        wf_payload(q) && spec_payload_id(q) == TagID::ByteArray && (
                        #[trigger] spec_encode_payload(q)).is_prefix_of(rem) implies q
                        == PayloadV::ByteArray(payloads_view(v@)) by {
                        let qv = q->ByteArray_0;
                        assert(spec_encode_payload(q) == u32_bytes(qv.len() as int)
                            + spec_encode_elems(qv));
                        assert(u32_bytes(qv.len() as int).len() == 4);
                        assert(rem.take(4) =~= u32_bytes(qv.len() as int));
                        crate::bytes::lemma_be32_of_u32_bytes(qv.len() as int);
                        assert(forall|i: int| 0 <= i < qv.len() ==> prim_kind_ok(
                            #[trigger] qv[i],
                            TagID::ByteArray,
                        ));
                        lemma_prim_elems_len(qv, TagID::ByteArray);
                        assert(qv.len() == n);
                        assert(spec_encode_elems(qv).len() == n);
                        assert(spec_encode_payload(q).len() == 4 + n);
                        assert(spec_encode_payload(q) =~= rem.take(4 + n));
                        assert forall|i: int| 0 <= i < n implies spec_encode_elems(qv)[i]
                            == rem[4 + i] by {
                            assert(spec_encode_elems(qv)[i] == spec_encode_payload(q)[4 + i]);
                            assert(rem.take(4 + n)[4 + i] == rem[4 + i]);
                        }
                        assert(spec_encode_elems(qv) =~= rem.subrange(4, 4 + n));
                        assert(forall|i: int|
                            0 <= i < payloads_view(v@).len() ==> prim_kind_ok(
                                #[trigger] payloads_view(v@)[i],
                                TagID::ByteArray,
                            ));
                        lemma_prim_elems_inj(qv, payloads_view(v@), TagID::ByteArray);
                    }
                }
                Ok(TagPayload::ByteArray(v))
    }

    /// Reads a `IntArray` payload: a 4-byte count, then the elements.
    #[verifier::loop_isolation(false)]
    #[verifier::rlimit(60)]
    fn decode_int_array(cur: &mut NbtBytesIter) -> (r: ByteResult<TagPayload>)
        requires
            old(cur).wf(),
        ensures
            final(cur).wf(),
            final(cur).bytes@ == old(cur).bytes@,
            r matches Ok(p) ==> ({
                let enc = spec_encode_payload(p@);
                &&& wf_payload(p@)
                &&& spec_payload_id(p@) == TagID::IntArray
                &&& final(cur).pos == old(cur).pos + enc.len()
                &&& enc == old(cur).remaining().take(enc.len() as int)
            }),
            forall|q: PayloadV|
                wf_payload(q) && spec_payload_id(q) == TagID::IntArray && (
                #[trigger] spec_encode_payload(q)).is_prefix_of(old(cur).remaining())
                    ==> (r matches Ok(p) && p@ == q),
    {
        let ghost rem = old(cur).remaining();
        let n = match Self::next_count(cur) {
            Ok(n) => n,
            Err(e) => {
                proof {
                    assert forall|q: PayloadV|
                        wf_payload(q) && spec_payload_id(q) == TagID::IntArray && (
                        #[trigger] spec_encode_payload(q)).is_prefix_of(rem) implies false by {
                        let qv = q->IntArray_0;
                        assert(spec_encode_payload(q) == u32_bytes(qv.len() as int)
                            + spec_encode_elems(qv));
                        assert(u32_bytes(qv.len() as int).len() == 4);
                        assert(rem.take(4) =~= u32_bytes(qv.len() as int));
                        crate::bytes::lemma_be32_of_u32_bytes(qv.len() as int);
                        assert(forall|i: int| 0 <= i < qv.len() ==> prim_kind_ok(
                            #[trigger] qv[i],
                            TagID::IntArray,
                        ));
                        lemma_prim_elems_len(qv, TagID::IntArray);
                    }
                }
                return Err(e);
            },
        };
                let mut v: Vec<TagPayload> = Vec::new();
                let mut k: usize = 0;
                while k < n
                    invariant
                        cur.wf(),
                        cur.bytes@ == old(cur).bytes@,
                        k <= n,
                        n <= 0x7FFF_FFFF,
                        rem == old(cur).remaining(),
                        cur.pos == old(cur).pos + 4 + 4 * k,
                        payloads_view(v@).len() == k,
                        crate::tag::encodable_elems(payloads_view(v@)),
                        forall|i: int| 0 <= i < k ==> payloads_view(v@)[i] is Int,
                        spec_encode_elems(payloads_view(v@)) == rem.subrange(4, 4 + 4 * k),
                    decreases n - k,
                {
                    let ghost pv_pre = payloads_view(v@);
                    let x = match cur.next_i32() {
                        Ok(x) => x,
                        Err(e) => {
                            proof {
                                assert forall|q: PayloadV|
                                    wf_payload(q) && spec_payload_id(q) == TagID::IntArray && (
                                    #[trigger] spec_encode_payload(q)).is_prefix_of(rem)
                                    implies false by {
                        let qv = q->IntArray_0;
                        assert(spec_encode_payload(q) == u32_bytes(qv.len() as int)
                            + spec_encode_elems(qv));
                        assert(u32_bytes(qv.len() as int).len() == 4);
                        assert(rem.take(4) =~= u32_bytes(qv.len() as int));
                        crate::bytes::lemma_be32_of_u32_bytes(qv.len() as int);
                        assert(forall|i: int| 0 <= i < qv.len() ==> prim_kind_ok(
                            #[trigger] qv[i],
                            TagID::IntArray,
                        ));
                        lemma_prim_elems_len(qv, TagID::IntArray);
                        assert(qv.len() == n);
                                }
                            }
                            return Err(e);
                        },
                    };
                    v.push(TagPayload::Int(x));
                    proof {
                        let pv = payloads_view(v@);
                        assert(pv.drop_last() =~= pv_pre);
                        assert(pv.last() == PayloadV::Int(x));
                        assert(crate::tag::encodable_payload(PayloadV::Int(x)));
                        assert(crate::tag::encodable_elems(pv));
                        assert(pv.len() == k + 1);
                        assert(forall|i: int| 0 <= i < k ==> pv[i] == pv_pre[i]);
                        assert(spec_encode_elems(pv) == spec_encode_elems(pv_pre)
                            + spec_encode_payload(PayloadV::Int(x)));
                        assert(rem.skip(4 + 4 * k).take(4) =~= rem.subrange(
                            4 + 4 * k,
                            4 + 4 * k + 4,
                        ));
                        crate::bytes::lemma_u32_bytes_of_be32(
                            rem.subrange(4 + 4 * k, 4 + 4 * k + 4),
                        );
                        assert(unsigned32(x as int) == be32(rem.subrange(4 + 4 * k, 4 + 4 * k + 4)));
                        assert(spec_encode_payload(PayloadV::Int(x)) == rem.subrange(
                            4 + 4 * k,
                            4 + 4 * k + 4,
                        ));
                        assert(spec_encode_elems(pv) =~= rem.subrange(4, 4 + 4 * (k + 1)));
                    }
                    k = k + 1;
                }
                proof {
                    Self::lemma_counted_payload(rem, payloads_view(v@), TagID::IntArray, n as int);
                    assert forall|q: PayloadV|
                        wf_payload(q) && spec_payload_id(q) == TagID::IntArray && (
                        #[trigger] spec_encode_payload(q)).is_prefix_of(rem) implies q
                        == PayloadV::IntArray(payloads_view(v@)) by {
                        let qv = q->IntArray_0;
                        assert(spec_encode_payload(q) == u32_bytes(qv.len() as int)
                            + spec_encode_elems(qv));
                        assert(u32_bytes(qv.len() as int).len() == 4);
                        assert(rem.take(4) =~= u32_bytes(qv.len() as int));
                        crate::bytes::lemma_be32_of_u32_bytes(qv.len() as int);
                        assert(forall|i: int| 0 <= i < qv.len() ==> prim_kind_ok(
                            #[trigger] qv[i],
                            TagID::IntArray,
                        ));
                        lemma_prim_elems_len(qv, TagID::IntArray);
                        assert(qv.len() == n);
                        assert(spec_encode_elems(qv).len() == 4 * n);
                        assert(spec_encode_payload(q).len() == 4 + 4 * n);
                        assert(spec_encode_payload(q) =~= rem.take(4 + 4 * n));
                        assert forall|i: int| 0 <= i < 4 * n implies spec_encode_elems(qv)[i]
                            == rem[4 + i] by {
                            assert(spec_encode_elems(qv)[i] == spec_encode_payload(q)[4 + i]);
                            assert(rem.take(4 + 4 * n)[4 + i] == rem[4 + i]);
                        }
                        assert(spec_encode_elems(qv) =~= rem.subrange(4, 4 + 4 * n));
                        assert(forall|i: int|
                            0 <= i < payloads_view(v@).len() ==> prim_kind_ok(
                                #[trigger] payloads_view(v@)[i],
                                TagID::IntArray,
                            ));
                        lemma_prim_elems_inj(qv, payloads_view(v@), TagID::IntArray);
                    }
                }
                Ok(TagPayload::IntArray(v))
    }

    /// Reads a `LongArray` payload: a 4-byte count, then the elements.
    #[verifier::loop_isolation(false)]
    #[verifier::rlimit(60)]
    fn decode_long_array(cur: &mut NbtBytesIter) -> (r: ByteResult<TagPayload>)
        requires
            old(cur).wf(),
        ensures
            final(cur).wf(),
            final(cur).bytes@ == old(cur).bytes@,
            r matches Ok(p) ==> ({
                let enc = spec_encode_payload(p@);
                &&& wf_payload(p@)
                &&& spec_payload_id(p@) == TagID::LongArray
                &&& final(cur).pos == old(cur).pos + enc.len()
                &&& enc == old(cur).remaining().take(enc.len() as int)
            }),
            forall|q: PayloadV|
                wf_payload(q) && spec_payload_id(q) == TagID::LongArray && (
                #[trigger] spec_encode_payload(q)).is_prefix_of(old(cur).remaining())
                    ==> (r matches Ok(p) && p@ == q),
    {
        let ghost rem = old(cur).remaining();
        let n = match Self::next_count(cur) {
            Ok(n) => n,
            Err(e) => {
                proof {
                    assert forall|q: PayloadV|
                        wf_payload(q) && spec_payload_id(q) == TagID::LongArray && (
                        #[trigger] spec_encode_payload(q)).is_prefix_of(rem) implies false by {
                        let qv = q->LongArray_0;
                        assert(spec_encode_payload(q) == u32_bytes(qv.len() as int)
                            + spec_encode_elems(qv));
                        assert(u32_bytes(qv.len() as int).len() == 4);
                        assert(rem.take(4) =~= u32_bytes(qv.len() as int));
                        crate::bytes::lemma_be32_of_u32_bytes(qv.len() as int);
                        assert(forall|i: int| 0 <= i < qv.len() ==> prim_kind_ok(
                            #[trigger] qv[i],
                            TagID::LongArray,
                        ));
                        lemma_prim_elems_len(qv, TagID::LongArray);
                    }
                }
                return Err(e);
            },
        };
                let mut v: Vec<TagPayload> = Vec::new();
                let mut k: usize = 0;
                while k < n
                    invariant
                        cur.wf(),
                        cur.bytes@ == old(cur).bytes@,
                        k <= n,
                        n <= 0x7FFF_FFFF,
                        rem == old(cur).remaining(),
                        cur.pos == old(cur).pos + 4 + 8 * k,
                        payloads_view(v@).len() == k,
                        crate::tag::encodable_elems(payloads_view(v@)),
                        forall|i: int| 0 <= i < k ==> payloads_view(v@)[i] is Long,
                        spec_encode_elems(payloads_view(v@)) == rem.subrange(4, 4 + 8 * k),
                    decreases n - k,
                {
                    let ghost pv_pre = payloads_view(v@);
                    let x = match cur.next_i64() {
                        Ok(x) => x,
                        Err(e) => {
                            proof {
                                assert forall|q: PayloadV|
                                    wf_payload(q) && spec_payload_id(q) == TagID::LongArray && (
                                    #[trigger] spec_encode_payload(q)).is_prefix_of(rem)
                                    implies false by {
                        let qv = q->LongArray_0;
                        assert(spec_encode_payload(q) == u32_bytes(qv.len() as int)
                            + spec_encode_elems(qv));
                        assert(u32_bytes(qv.len() as int).len() == 4);
                        assert(rem.take(4) =~= u32_bytes(qv.len() as int));
                        crate::bytes::lemma_be32_of_u32_bytes(qv.len() as int);
                        assert(forall|i: int| 0 <= i < qv.len() ==> prim_kind_ok(
                            #[trigger] qv[i],
                            TagID::LongArray,
                        ));
                        lemma_prim_elems_len(qv, TagID::LongArray);
                        assert(qv.len() == n);
                                }
                            }
                            return Err(e);
                        },
                    };
                    v.push(TagPayload::Long(x));
                    proof {
                        let pv = payloads_view(v@);
                        assert(pv.drop_last() =~= pv_pre);
                        assert(pv.last() == PayloadV::Long(x));
                        assert(crate::tag::encodable_payload(PayloadV::Long(x)));
                        assert(crate::tag::encodable_elems(pv));
                        assert(pv.len() == k + 1);
                        assert(forall|i: int| 0 <= i < k ==> pv[i] == pv_pre[i]);
                        assert(spec_encode_elems(pv) == spec_encode_elems(pv_pre)
                            + spec_encode_payload(PayloadV::Long(x)));
                        assert(rem.skip(4 + 8 * k).take(8) =~= rem.subrange(
                            4 + 8 * k,
                            4 + 8 * k + 8,
                        ));
                        crate::bytes::lemma_u64_bytes_of_be64(
                            rem.subrange(4 + 8 * k, 4 + 8 * k + 8),
                        );
                        assert(unsigned64(x as int) == be64(rem.subrange(4 + 8 * k, 4 + 8 * k + 8)));
                        assert(spec_encode_payload(PayloadV::Long(x)) == rem.subrange(
                            4 + 8 * k,
                            4 + 8 * k + 8,
                        ));
                        assert(spec_encode_elems(pv) =~= rem.subrange(4, 4 + 8 * (k + 1)));
                    }
                    k = k + 1;
                }
                proof {
                    Self::lemma_counted_payload(rem, payloads_view(v@), TagID::LongArray, n as int);
                    assert forall|q: PayloadV|
                        wf_payload(q) && spec_payload_id(q) == TagID::LongArray && (
                        #[trigger] spec_encode_payload(q)).is_prefix_of(rem) implies q
                        == PayloadV::LongArray(payloads_view(v@)) by {
                        let qv = q->LongArray_0;
                        assert(spec_encode_payload(q) == u32_bytes(qv.len() as int)
                            + spec_encode_elems(qv));
                        assert(u32_bytes(qv.len() as int).len() == 4);
                        assert(rem.take(4) =~= u32_bytes(qv.len() as int));
                        crate::bytes::lemma_be32_of_u32_bytes(qv.len() as int);
                        assert(forall|i: int| 0 <= i < qv.len() ==> prim_kind_ok(
                            #[trigger] qv[i],
                            TagID::LongArray,
                        ));
                        lemma_prim_elems_len(qv, TagID::LongArray);
                        assert(qv.len() == n);
                        assert(spec_encode_elems(qv).len() == 8 * n);
                        assert(spec_encode_payload(q).len() == 4 + 8 * n);
                        assert(spec_encode_payload(q) =~= rem.take(4 + 8 * n));
                        assert forall|i: int| 0 <= i < 8 * n implies spec_encode_elems(qv)[i]
                            == rem[4 + i] by {
                            assert(spec_encode_elems(qv)[i] == spec_encode_payload(q)[4 + i]);
                            assert(rem.take(4 + 8 * n)[4 + i] == rem[4 + i]);
                        }
                        assert(spec_encode_elems(qv) =~= rem.subrange(4, 4 + 8 * n));
                        assert(forall|i: int|
                            0 <= i < payloads_view(v@).len() ==> prim_kind_ok(
                                #[trigger] payloads_view(v@)[i],
                                TagID::LongArray,
                            ));
                        lemma_prim_elems_inj(qv, payloads_view(v@), TagID::LongArray);
                    }
                }
                Ok(TagPayload::LongArray(v))
    }

    /// Reads a `List` payload: a 4-byte count, then the elements.
    #[verifier::loop_isolation(false)]
    #[verifier::rlimit(60)]
    fn decode_list(cur: &mut NbtBytesIter) -> (r: ByteResult<TagPayload>)
        requires
            old(cur).wf(),
        ensures
            final(cur).wf(),
            final(cur).bytes@ == old(cur).bytes@,
            r matches Ok(p) ==> ({
                let enc = spec_encode_payload(p@);
                &&& wf_payload(p@)
                &&& spec_payload_id(p@) == TagID::List
                &&& final(cur).pos == old(cur).pos + enc.len()
                &&& enc == old(cur).remaining().take(enc.len() as int)
            }),
            forall|q: PayloadV|
                wf_payload(q) && spec_payload_id(q) == TagID::List && (
                #[trigger] spec_encode_payload(q)).is_prefix_of(old(cur).remaining())
                    ==> (r matches Ok(p) && p@ == q),
        decreases old(cur).remaining().len(), 1int,
    {
        let ghost rem = old(cur).remaining();
        let elem_id = match cur.next_id() {
            Ok(id) => id,
            Err(e) => {
                proof {
                    assert forall|q: PayloadV|
                        wf_payload(q) && spec_payload_id(q) == TagID::List && (
                        #[trigger] spec_encode_payload(q)).is_prefix_of(rem) implies false by {
                        lemma_list_header(q, rem);
                    }
                }
                return Err(e);
            },
        };
        let ghost rem1 = cur.remaining();
        proof {
            assert(rem1 =~= rem.skip(1));
        }
        let n = match Self::next_count(cur) {
            Ok(n) => n,
            Err(e) => {
                proof {
                    assert forall|q: PayloadV|
                        wf_payload(q) && spec_payload_id(q) == TagID::List && (
                        #[trigger] spec_encode_payload(q)).is_prefix_of(rem) implies false by {
                        lemma_list_header(q, rem);
                        assert(rem1.take(4) =~= rem.subrange(1, 5));
                    }
                }
                return Err(e);
            },
        };
        let ghost body = old(cur).remaining().skip(5);
        proof {
            assert forall|q: PayloadV|
                wf_payload(q) && spec_payload_id(q) == TagID::List && (
                #[trigger] spec_encode_payload(q)).is_prefix_of(rem) implies q->List_0 == elem_id
                && q->List_1.len() == n by {
                lemma_list_header(q, rem);
                assert(rem1.take(4) =~= rem.subrange(1, 5));
            }
            assert forall|q: PayloadV| true implies #[trigger] (q->List_1).take(0)
                =~= Seq::<PayloadV>::empty() by {
                assert((q->List_1).take(0) =~= Seq::<PayloadV>::empty());
            }
            assert(payloads_view(Seq::<TagPayload>::empty()) =~= Seq::<PayloadV>::empty());
        }
        let mut v: Vec<TagPayload> = Vec::new();
        let mut k: usize = 0;
        while k < n
            invariant
                cur.wf(),
                cur.bytes@ == old(cur).bytes@,
                k <= n,
                n <= 0x7FFF_FFFF,
                rem == old(cur).remaining(),
                body == rem.skip(5),
                cur.pos >= old(cur).pos + 5,
                ({
                    let pv = payloads_view(v@);
                    let enc = spec_encode_elems(pv);
                    &&& pv.len() == k
                    &&& crate::tag::shaped_list(pv, elem_id)
                    &&& crate::tag::encodable_elems(pv)
                    &&& cur.pos == old(cur).pos + 5 + enc.len()
                    &&& enc == body.take(enc.len() as int)
                }),
                forall|q: PayloadV|
                    wf_payload(q) && spec_payload_id(q) == TagID::List && (
                    #[trigger] spec_encode_payload(q)).is_prefix_of(rem) ==> q->List_0 == elem_id
                        && q->List_1.len() == n && (q->List_1).take(
                        payloads_view(v@).len() as int,
                    ) == payloads_view(v@),
            decreases n - k,
        {
            let ghost pv_pre = payloads_view(v@);
            let ghost rem_k = cur.remaining();
            proof {
                assert(rem_k =~= rem.skip(5 + spec_encode_elems(pv_pre).len() as int));
                assert forall|q: PayloadV|
                    wf_payload(q) && spec_payload_id(q) == TagID::List && (
                    #[trigger] spec_encode_payload(q)).is_prefix_of(rem) implies wf_payload(
                    (q->List_1)[pv_pre.len() as int],
                ) && spec_payload_id((q->List_1)[pv_pre.len() as int]) == elem_id
                    && spec_encode_payload((q->List_1)[pv_pre.len() as int]).is_prefix_of(
                    rem_k,
                ) by {
                    Self::lemma_list_step(q, rem, pv_pre, rem_k);
                }
            }
            let p = match Self::get_payload(cur, elem_id) {
                Ok(p) => p,
                Err(e) => {
                    return Err(e);
                },
            };
            let ghost pval = p@;
            v.push(p);
            proof {
                assert(payloads_view(v@).drop_last() =~= pv_pre);
                assert(payloads_view(v@).last() == pval);
                let pv = payloads_view(v@);
                let enc = spec_encode_elems(pv);
                assert(enc =~= body.take(enc.len() as int));
                assert forall|q: PayloadV|
                    wf_payload(q) && spec_payload_id(q) == TagID::List && (
                    #[trigger] spec_encode_payload(q)).is_prefix_of(rem) implies (q->List_1).take(
                    pv.len() as int,
                ) == pv by {
                    Self::lemma_list_step(q, rem, pv_pre, rem_k);
                    assert(pval == (q->List_1)[pv_pre.len() as int]);
                    assert((q->List_1).take(pv.len() as int) =~= pv);
                }
            }
            k = k + 1;
        }
        proof {
            let pv = payloads_view(v@);
            let enc = spec_encode_payload(PayloadV::List(elem_id, pv));
            crate::bytes::lemma_u32_bytes_of_be32(rem.subrange(1, 5));
            assert(rem.take(1) =~= seq![rem[0]]);
            assert(rem.subrange(1, 5) =~= rem.skip(1).take(4));
            assert(enc =~= rem.take(enc.len() as int));
            assert forall|q: PayloadV|
                wf_payload(q) && spec_payload_id(q) == TagID::List && (
                #[trigger] spec_encode_payload(q)).is_prefix_of(rem) implies q == PayloadV::List(
                elem_id,
                pv,
            ) by {
                assert((q->List_1).take(n as int) =~= q->List_1);
            }
        }
        Ok(TagPayload::List(elem_id, v))
    }

    /// One step of reading a list whose encoding is a prefix of the buffer:
    /// the next element's encoding starts exactly where the cursor stands,
    /// and that element is a well-formed payload of the declared kind.
    proof fn lemma_list_step(q: PayloadV, rem: Seq<u8>, pv_pre: Seq<PayloadV>, rem_k: Seq<u8>)
        requires
            wf_payload(q),
            spec_payload_id(q) == TagID::List,
            spec_encode_payload(q).is_prefix_of(rem),
            pv_pre.len() < q->List_1.len(),
            (q->List_1).take(pv_pre.len() as int) == pv_pre,
            rem_k == rem.skip(5 + spec_encode_elems(pv_pre).len() as int),
        ensures
            wf_payload((q->List_1)[pv_pre.len() as int]),
            spec_payload_id((q->List_1)[pv_pre.len() as int]) == q->List_0,
            spec_encode_payload((q->List_1)[pv_pre.len() as int]).is_prefix_of(rem_k),
    {
        lemma_list_header(q, rem);
        let qv = q->List_1;
        let k = pv_pre.len() as int;
        crate::tag::lemma_shaped_list_index(qv, q->List_0, k);
        crate::tag::lemma_encodable_elems_index(qv, k);
        lemma_encode_elems_split(qv, k);
        lemma_encode_elems_first(qv.skip(k));
        assert(qv.skip(k)[0] == qv[k]);
        assert(spec_encode_elems(qv.take(k)) == spec_encode_elems(pv_pre));
        let a = spec_encode_elems(pv_pre);
        let b = spec_encode_payload(qv[k]);
        let c = spec_encode_elems(qv.skip(k).drop_first());
        assert(spec_encode_elems(qv) == a + (b + c));
        assert(b.len() <= rem_k.len());
        assert forall|i: int| 0 <= i < b.len() implies b[i] == rem_k[i] by {
            assert(b[i] == spec_encode_elems(qv)[a.len() + i]);
            assert(spec_encode_elems(qv)[a.len() + i] == rem[5 + a.len() + i]);
            assert(rem_k[i] == rem[5 + a.len() + i]);
        }
        assert(b =~= rem_k.subrange(0, b.len() as int));
        assert(b.is_prefix_of(rem_k));
    }

    /// Reads a signed 32-bit element count. A negative count is a framing
    /// error: it is rejected as `NextByteError` carrying the magnitude.
    fn next_count(cur: &mut NbtBytesIter) -> (r: ByteResult<usize>)
        requires
            old(cur).wf(),
        ensures
            final(cur).wf(),
            final(cur).bytes@ == old(cur).bytes@,
            match r {
                Ok(n) => old(cur).remaining().len() >= 4 && n <= 0x7FFF_FFFF && n == signed32(
                    be32(old(cur).remaining().take(4)),
                ) && final(cur).pos == old(cur).pos + 4,
                Err(ByteError::NextByteError(m)) => (old(cur).remaining().len() < 4 && m == 4
                    && final(cur).pos == old(cur).pos) || (old(cur).remaining().len() >= 4
                    && signed32(be32(old(cur).remaining().take(4))) < 0),
                Err(_) => false,
            },
    {
        let n = cur.next_i32()?;
        if n < 0 {
            let m: i64 = -(n as i64);
            return Err(ByteError::NextByteError(m as usize));
        }
        Ok(n as usize)
    }

    /// One step of reading a compound whose remaining encoding is a prefix
    /// of the buffer: the next member's encoding starts exactly where the
    /// cursor stands, and that member is a well-formed tag.
    proof fn lemma_compound_step(qs: Seq<TagV>, rem: Seq<u8>, tv_pre: Seq<TagV>, rem_k: Seq<u8>)
        requires
            wf_members(qs),
            spec_encode_tags(qs).is_prefix_of(rem),
            tv_pre.len() <= qs.len(),
            qs.take(tv_pre.len() as int) == tv_pre,
            shaped_members(tv_pre),
            rem_k == rem.skip(spec_encode_tags(tv_pre).len() as int),
            spec_encode_tags(tv_pre) == rem.take(spec_encode_tags(tv_pre).len() as int),
        ensures
            tv_pre.len() < qs.len(),
            wf_tag(qs[tv_pre.len() as int]),
            spec_encode_tag(qs[tv_pre.len() as int]).is_prefix_of(rem_k),
            qs[tv_pre.len() as int].id == TagID::End ==> tv_pre.len() == qs.len() - 1,
    {
        let k = tv_pre.len() as int;
        if k == qs.len() {
            assert(qs.take(k) =~= qs);
            assert(qs.last() == end_sentinel());
            assert(tv_pre.last().id == TagID::End);
            crate::tag::lemma_shaped_members_index(tv_pre, k - 1);
        }
        if k < qs.len() - 1 {
            crate::tag::lemma_shaped_members_index(qs.drop_last(), k);
            crate::tag::lemma_encodable_tags_index(qs, k);
            assert(qs.drop_last()[k] == qs[k]);
            assert(wf_tag(qs[k]));
        } else {
            assert(qs[k] == qs.last());
            assert(qs[k] == end_sentinel());
            assert(wf_tag(qs[k])) by {
                reveal_with_fuel(encode_utf8, 1);
            }
        }
        if qs[k].id == TagID::End && k < qs.len() - 1 {
            crate::tag::lemma_shaped_members_index(qs.drop_last(), k);
        }
        lemma_encode_tags_split(qs, k);
        lemma_encode_tags_first(qs.skip(k));
        assert(qs.skip(k)[0] == qs[k]);
        assert(spec_encode_tags(qs.take(k)) == spec_encode_tags(tv_pre));
        let a = spec_encode_tags(tv_pre);
        let b = spec_encode_tag(qs[k]);
        let c = spec_encode_tags(qs.skip(k).drop_first());
        assert(spec_encode_tags(qs) == a + (b + c));
        assert(spec_encode_tags(qs) =~= rem.take(spec_encode_tags(qs).len() as int));
        assert(b.len() <= rem_k.len());
        assert forall|i: int| 0 <= i < b.len() implies b[i] == rem_k[i] by {
            assert(b[i] == (a + (b + c))[a.len() + i]);
            assert(rem_k[i] == rem[a.len() + i]);
        }
        assert(b =~= rem_k.subrange(0, b.len() as int));
        assert(b.is_prefix_of(rem_k));
    }

    /// The wire bytes of a freshly read array payload are the count and the
    /// consumed element bytes.
    proof fn lemma_counted_payload(rem: Seq<u8>, pv: Seq<PayloadV>, id: TagID, n: int)
        requires
            0 <= n <= 0x7FFF_FFFF,
            rem.len() >= 4,
            n == signed32(be32(rem.take(4))),
            pv.len() == n,
            id == TagID::ByteArray || id == TagID::IntArray || id == TagID::LongArray,
            spec_encode_elems(pv).len() + 4 <= rem.len(),
            spec_encode_elems(pv) == rem.subrange(4, 4 + spec_encode_elems(pv).len() as int),
        ensures
            ({
                let p = if id == TagID::ByteArray {
                    PayloadV::ByteArray(pv)
                } else if id == TagID::IntArray {
                    PayloadV::IntArray(pv)
                } else {
                    PayloadV::LongArray(pv)
                };
                let enc = spec_encode_payload(p);
                enc == rem.take(enc.len() as int)
            }),
    {
        let p = if id == TagID::ByteArray {
            PayloadV::ByteArray(pv)
        } else if id == TagID::IntArray {
            PayloadV::IntArray(pv)
        } else {
            PayloadV::LongArray(pv)
        };
        let enc = spec_encode_payload(p);
        crate::bytes::lemma_u32_bytes_of_be32(rem.take(4));
        assert(unsigned32(n) == be32(rem.take(4)));
        assert(u32_bytes(pv.len() as int) == rem.take(4));
        assert(enc =~= rem.take(enc.len() as int));
    }

    /// Decodes one tag tree from the start of a byte buffer.
    ///
    /// Every tree returned is well-formed and re-encodes to exactly the
    /// consumed prefix of the buffer. Conversely, a buffer that begins with
    /// the encoding of any well-formed tree decodes to exactly that tree —
    /// so decoding the encoding of a decoder-producible tree always gives
    /// the tree back. A first byte outside the kind codes fails with
    /// `InvalidTagID` carrying that byte, an empty buffer with
    /// `NextByteError`, and a buffer that ends short of a well-formed
    /// encoding never decodes.
    pub fn new(bytes: &[u8]) -> (r: ByteResult<Tag>)
        ensures
            r matches Ok(t) ==> ({
                let enc = spec_encode_tag(t@);
                &&& wf_tag(t@)
                &&& enc.len() <= bytes@.len()
                &&& enc == bytes@.take(enc.len() as int)
            }),
            bytes@.len() == 0 ==> r == Err::<Tag, ByteError>(ByteError::NextByteError(1)),
            bytes@.len() >= 1 && spec_id_of_code(bytes@[0]) is None ==> r == Err::<Tag, ByteError>(
                ByteError::InvalidTagID(bytes@[0]),
            ),
            forall|q: TagV|
                wf_tag(q) && (#[trigger] spec_encode_tag(q)).is_prefix_of(bytes@) ==> (
                r matches Ok(t) && t@ == q),
            forall|q: TagV|
                wf_tag(q) && strict_prefix_of(bytes@, #[trigger] spec_encode_tag(q)) ==> r is Err,
    {
        let mut cur = NbtBytesIter::new(bytes);
        let r = Self::read_tag(&mut cur);
        proof {
            if r is Ok {
                let t = r->Ok_0;
                let enc_t = spec_encode_tag(t@);
                assert forall|q: TagV|
                    wf_tag(q) && strict_prefix_of(bytes@, #[trigger] spec_encode_tag(q))
                    implies false by {
                    let enc_q = spec_encode_tag(q);
                    let l = enc_t.len() as int;
                    assert(enc_t + enc_q.skip(l) =~= enc_q + Seq::<u8>::empty()) by {
                        assert forall|i: int| 0 <= i < l implies enc_t[i] == enc_q[i] by {
                            assert(enc_t[i] == bytes@[i]);
                            assert(bytes@[i] == enc_q.take(bytes@.len() as int)[i]);
                        }
                    }
                    lemma_tag_no_lookahead(t@, q, enc_q.skip(l), Seq::empty());
                }
            }
        }
        r
    }
}

} // verus!
