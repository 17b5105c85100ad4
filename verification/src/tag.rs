//! The tag model: the closed set of tag kinds ([`TagID`]), the recursive
//! value type ([`TagPayload`]), and the named node ([`Tag`]), together with
//! their mathematical views and the well-formedness predicates that the
//! decoder guarantees of every tree it produces.

use vstd::prelude::*;
use vstd::utf8::encode_utf8;

verus! {

broadcast use
    vstd::seq::axiom_seq_index_decreases,
    vstd::seq::axiom_seq_subrange_decreases,
    vstd::std_specs::vec::axiom_vec_decreases_to_view;

/// The closed set of tag kinds, each bound to a wire code 0 through 12.
#[derive(Clone, Copy, PartialEq, Eq, Structural, Debug)]
pub enum TagID {
    End,
    Byte,
    Short,
    Int,
    Long,
    Float,
    Double,
    ByteArray,
    String,
    List,
    Compound,
    IntArray,
    LongArray,
}

/// The wire code of a tag kind.
pub open spec fn spec_code(id: TagID) -> u8 {
    match id {
        TagID::End => 0,
        TagID::Byte => 1,
        TagID::Short => 2,
        TagID::Int => 3,
        TagID::Long => 4,
        TagID::Float => 5,
        TagID::Double => 6,
        TagID::ByteArray => 7,
        TagID::String => 8,
        TagID::List => 9,
        TagID::Compound => 10,
        TagID::IntArray => 11,
        TagID::LongArray => 12,
    }
}

/// The tag kind of a wire code, if the code is one of 0 through 12.
pub open spec fn spec_id_of_code(value: u8) -> Option<TagID> {
    if value == 0 {
        Some(TagID::End)
    } else if value == 1 {
        Some(TagID::Byte)
    } else if value == 2 {
        Some(TagID::Short)
    } else if value == 3 {
        Some(TagID::Int)
    } else if value == 4 {
        Some(TagID::Long)
    } else if value == 5 {
        Some(TagID::Float)
    } else if value == 6 {
        Some(TagID::Double)
    } else if value == 7 {
        Some(TagID::ByteArray)
    } else if value == 8 {
        Some(TagID::String)
    } else if value == 9 {
        Some(TagID::List)
    } else if value == 10 {
        Some(TagID::Compound)
    } else if value == 11 {
        Some(TagID::IntArray)
    } else if value == 12 {
        Some(TagID::LongArray)
    } else {
        None
    }
}

impl TagID {
    /// The wire code of this tag kind.
    pub fn code(self) -> (r: u8)
        ensures
            r == spec_code(self),
    {
        match self {
            TagID::End => 0,
            TagID::Byte => 1,
            TagID::Short => 2,
            TagID::Int => 3,
            TagID::Long => 4,
            TagID::Float => 5,
            TagID::Double => 6,
            TagID::ByteArray => 7,
            TagID::String => 8,
            TagID::List => 9,
            TagID::Compound => 10,
            TagID::IntArray => 11,
            TagID::LongArray => 12,
        }
    }

    /// The tag kind encoded by a wire byte; `None` for a byte outside 0-12.
    pub fn from_code(value: u8) -> (r: Option<TagID>)
        ensures
            r == spec_id_of_code(value),
            r matches Some(id) ==> spec_code(id) == value,
    {
        match value {
            0 => Some(TagID::End),
            1 => Some(TagID::Byte),
            2 => Some(TagID::Short),
            3 => Some(TagID::Int),
            4 => Some(TagID::Long),
            5 => Some(TagID::Float),
            6 => Some(TagID::Double),
            7 => Some(TagID::ByteArray),
            8 => Some(TagID::String),
            9 => Some(TagID::List),
            10 => Some(TagID::Compound),
            11 => Some(TagID::IntArray),
            12 => Some(TagID::LongArray),
            _ => None,
        }
    }

    /// Whether values of this kind contain further nodes.
    pub open spec fn spec_is_container(self) -> bool {
        match self {
            TagID::ByteArray | TagID::IntArray | TagID::List | TagID::LongArray
            | TagID::Compound => true,
            _ => false,
        }
    }

    /// Whether values of this kind contain further nodes.
    pub fn is_container(self) -> (r: bool)
        ensures
            r == self.spec_is_container(),
    {
        match self {
            TagID::ByteArray | TagID::IntArray | TagID::List | TagID::LongArray
            | TagID::Compound => true,
            _ => false,
        }
    }

    /// Whether values of this kind are fractional numbers.
    pub open spec fn spec_is_decimal(self) -> bool {
        match self {
            TagID::Float | TagID::Double => true,
            _ => false,
        }
    }

    /// Whether values of this kind are fractional numbers.
    pub fn is_decimal(self) -> (r: bool)
        ensures
            r == self.spec_is_decimal(),
    {
        match self {
            TagID::Float | TagID::Double => true,
            _ => false,
        }
    }
}

/// The value carried by a tag: one variant per tag kind.
///
/// `Float` and `Double` hold the IEEE 754 bit pattern of the wire value, as
/// an unsigned integer in big-endian byte order; callers that need the
/// fractional value reassemble it from the bits.
#[derive(Debug, PartialEq)]
pub enum TagPayload {
    End,
    Byte(i8),
    Short(i16),
    Int(i32),
    Long(i64),
    Float(u32),
    Double(u64),
    ByteArray(Vec<TagPayload>),
    String(String),
    List(TagID, Vec<TagPayload>),
    Compound(Vec<Tag>),
    IntArray(Vec<TagPayload>),
    LongArray(Vec<TagPayload>),
}

/// A named node: a kind, a name, and a value.
#[derive(Debug, PartialEq)]
pub struct Tag {
    pub tag_id: TagID,
    pub name: String,
    pub payload: TagPayload,
}

/// The mathematical view of a [`TagPayload`]: vectors become sequences and
/// strings become character sequences.
pub enum PayloadV {
    End,
    Byte(i8),
    Short(i16),
    Int(i32),
    Long(i64),
    Float(u32),
    Double(u64),
    ByteArray(Seq<PayloadV>),
    String(Seq<char>),
    List(TagID, Seq<PayloadV>),
    Compound(Seq<TagV>),
    IntArray(Seq<PayloadV>),
    LongArray(Seq<PayloadV>),
}

/// The mathematical view of a [`Tag`].
pub struct TagV {
    pub id: TagID,
    pub name: Seq<char>,
    pub payload: PayloadV,
}

/// The view of a payload value.
pub open spec fn payload_view(p: TagPayload) -> PayloadV
    decreases p,
{
    match p {
        TagPayload::End => PayloadV::End,
        TagPayload::Byte(v) => PayloadV::Byte(v),
        TagPayload::Short(v) => PayloadV::Short(v),
        TagPayload::Int(v) => PayloadV::Int(v),
        TagPayload::Long(v) => PayloadV::Long(v),
        TagPayload::Float(v) => PayloadV::Float(v),
        TagPayload::Double(v) => PayloadV::Double(v),
        TagPayload::ByteArray(v) => PayloadV::ByteArray(payloads_view(v@)),
        TagPayload::String(s) => PayloadV::String(s@),
        TagPayload::List(id, v) => PayloadV::List(id, payloads_view(v@)),
        TagPayload::Compound(ts) => PayloadV::Compound(tags_view(ts@)),
        TagPayload::IntArray(v) => PayloadV::IntArray(payloads_view(v@)),
        TagPayload::LongArray(v) => PayloadV::LongArray(payloads_view(v@)),
    }
}

/// The views of a sequence of payloads, element by element.
pub open spec fn payloads_view(v: Seq<TagPayload>) -> Seq<PayloadV>
    decreases v,
{
    if v.len() == 0 {
        Seq::empty()
    } else {
        payloads_view(v.drop_last()).push(payload_view(v.last()))
    }
}

/// The view of a named tag.
pub open spec fn tag_view(t: Tag) -> TagV
    decreases t,
{
    TagV { id: t.tag_id, name: t.name@, payload: payload_view(t.payload) }
}

/// The views of a sequence of named tags, element by element.
pub open spec fn tags_view(ts: Seq<Tag>) -> Seq<TagV>
    decreases ts,
{
    if ts.len() == 0 {
        Seq::empty()
    } else {
        tags_view(ts.drop_last()).push(tag_view(ts.last()))
    }
}

/// `payloads_view` maps the sequence pointwise.
pub broadcast proof fn lemma_payloads_view(v: Seq<TagPayload>)
    ensures
        (#[trigger] payloads_view(v)).len() == v.len(),
        forall|i: int| 0 <= i < v.len() ==> payloads_view(v)[i] == payload_view(v[i]),
    decreases v.len(),
{
    if v.len() > 0 {
        lemma_payloads_view(v.drop_last());
    }
}

/// `tags_view` maps the sequence pointwise.
pub broadcast proof fn lemma_tags_view(ts: Seq<Tag>)
    ensures
        (#[trigger] tags_view(ts)).len() == ts.len(),
        forall|i: int| 0 <= i < ts.len() ==> tags_view(ts)[i] == tag_view(ts[i]),
    decreases ts.len(),
{
    if ts.len() > 0 {
        lemma_tags_view(ts.drop_last());
    }
}

impl View for TagPayload {
    type V = PayloadV;

    open spec fn view(&self) -> PayloadV {
        payload_view(*self)
    }
}

impl View for Tag {
    type V = TagV;

    open spec fn view(&self) -> TagV {
        tag_view(*self)
    }
}

/// The tag kind that a payload's shape determines.
pub open spec fn spec_payload_id(p: PayloadV) -> TagID {
    match p {
        PayloadV::End => TagID::End,
        PayloadV::Byte(_) => TagID::Byte,
        PayloadV::Short(_) => TagID::Short,
        PayloadV::Int(_) => TagID::Int,
        PayloadV::Long(_) => TagID::Long,
        PayloadV::Float(_) => TagID::Float,
        PayloadV::Double(_) => TagID::Double,
        PayloadV::ByteArray(_) => TagID::ByteArray,
        PayloadV::String(_) => TagID::String,
        PayloadV::List(_, _) => TagID::List,
        PayloadV::Compound(_) => TagID::Compound,
        PayloadV::IntArray(_) => TagID::IntArray,
        PayloadV::LongArray(_) => TagID::LongArray,
    }
}

impl TagID {
    /// The tag kind that a payload's shape determines.
    pub fn of_payload(payload: &TagPayload) -> (r: TagID)
        ensures
            r == spec_payload_id(payload@),
    {
        match payload {
            TagPayload::End => TagID::End,
            TagPayload::Byte(_) => TagID::Byte,
            TagPayload::Short(_) => TagID::Short,
            TagPayload::Int(_) => TagID::Int,
            TagPayload::Long(_) => TagID::Long,
            TagPayload::Float(_) => TagID::Float,
            TagPayload::Double(_) => TagID::Double,
            TagPayload::ByteArray(_) => TagID::ByteArray,
            TagPayload::String(_) => TagID::String,
            TagPayload::List(_, _) => TagID::List,
            TagPayload::Compound(_) => TagID::Compound,
            TagPayload::IntArray(_) => TagID::IntArray,
            TagPayload::LongArray(_) => TagID::LongArray,
        }
    }
}

/// A tag kind's wire code reads back as that kind.
pub broadcast proof fn lemma_code_of_id(id: TagID)
    ensures
        spec_id_of_code(#[trigger] spec_code(id)) == Some(id),
{
}

/// The sentinel tag that closes every compound: an `End` tag with an empty
/// name and an empty payload.
pub open spec fn end_sentinel() -> TagV {
    TagV { id: TagID::End, name: Seq::empty(), payload: PayloadV::End }
}

/// Whether a payload has the shape the decoder guarantees: arrays hold only
/// the matching primitive, list elements all have the declared kind, and
/// every compound ends with exactly one `End` sentinel.
pub open spec fn shaped_payload(p: PayloadV) -> bool
    decreases p,
{
    match p {
        PayloadV::ByteArray(v) => forall|i: int| 0 <= i < v.len() ==> v[i] is Byte,
        PayloadV::IntArray(v) => forall|i: int| 0 <= i < v.len() ==> v[i] is Int,
        PayloadV::LongArray(v) => forall|i: int| 0 <= i < v.len() ==> v[i] is Long,
        PayloadV::List(id, v) => shaped_list(v, id),
        PayloadV::Compound(ts) => ts.len() >= 1 && ts.last() == end_sentinel() && shaped_members(
            ts.drop_last(),
        ),
        _ => true,
    }
}

/// Whether every element of a list is a well-shaped payload of the declared
/// element kind.
pub open spec fn shaped_list(v: Seq<PayloadV>, id: TagID) -> bool
    decreases v,
{
    if v.len() == 0 {
        true
    } else {
        shaped_list(v.drop_last(), id) && spec_payload_id(v.last()) == id && shaped_payload(
            v.last(),
        )
    }
}

/// Whether every tag of a compound's member prefix (the part before the
/// sentinel) is well-shaped and not an `End` tag.
pub open spec fn shaped_members(ts: Seq<TagV>) -> bool
    decreases ts,
{
    if ts.len() == 0 {
        true
    } else {
        shaped_members(ts.drop_last()) && shaped_tag(ts.last()) && ts.last().id != TagID::End
    }
}

/// Whether a named tag is well-shaped: its stored kind agrees with its
/// payload's shape, an `End` tag has an empty name, and the payload is
/// well-shaped.
pub open spec fn shaped_tag(t: TagV) -> bool
    decreases t,
{
    &&& t.id == spec_payload_id(t.payload)
    &&& t.id == TagID::End ==> t.name == Seq::<char>::empty()
    &&& shaped_payload(t.payload)
}

/// Whether a payload fits the wire format's size limits: every string is at
/// most 65535 UTF-8 bytes and every array or list holds at most `i32::MAX`
/// elements. The encoder is defined exactly on such payloads.
pub open spec fn encodable_payload(p: PayloadV) -> bool
    decreases p,
{
    match p {
        PayloadV::String(s) => encode_utf8(s).len() <= 0xFFFF,
        PayloadV::ByteArray(v) => v.len() <= 0x7FFF_FFFF && encodable_elems(v),
        PayloadV::IntArray(v) => v.len() <= 0x7FFF_FFFF && encodable_elems(v),
        PayloadV::LongArray(v) => v.len() <= 0x7FFF_FFFF && encodable_elems(v),
        PayloadV::List(_, v) => v.len() <= 0x7FFF_FFFF && encodable_elems(v),
        PayloadV::Compound(ts) => encodable_tags(ts),
        _ => true,
    }
}

/// Whether every payload of a sequence fits the size limits.
pub open spec fn encodable_elems(v: Seq<PayloadV>) -> bool
    decreases v,
{
    if v.len() == 0 {
        true
    } else {
        encodable_elems(v.drop_last()) && encodable_payload(v.last())
    }
}

/// Whether every tag of a sequence fits the size limits.
pub open spec fn encodable_tags(ts: Seq<TagV>) -> bool
    decreases ts,
{
    if ts.len() == 0 {
        true
    } else {
        encodable_tags(ts.drop_last()) && encodable_tag(ts.last())
    }
}

/// Whether a named tag fits the size limits: its name is at most 65535
/// UTF-8 bytes and its payload is encodable.
pub open spec fn encodable_tag(t: TagV) -> bool
    decreases t,
{
    encode_utf8(t.name).len() <= 0xFFFF && encodable_payload(t.payload)
}

/// Whether a payload is one the decoder can produce: well-shaped and within
/// the size limits.
pub open spec fn wf_payload(p: PayloadV) -> bool {
    shaped_payload(p) && encodable_payload(p)
}

/// Whether a named tag is one the decoder can produce: well-shaped and
/// within the size limits.
pub open spec fn wf_tag(t: TagV) -> bool {
    shaped_tag(t) && encodable_tag(t)
}

/// Whether a tag sequence is a compound body the decoder can produce: it
/// ends with the one `End` sentinel, the tags before it are well-shaped,
/// named, non-`End` tags, and everything fits the size limits.
pub open spec fn wf_members(ts: Seq<TagV>) -> bool {
    &&& ts.len() >= 1
    &&& ts.last() == end_sentinel()
    &&& shaped_members(ts.drop_last())
    &&& encodable_tags(ts)
}

/// Every element of an encodable sequence is encodable.
pub proof fn lemma_encodable_elems_index(v: Seq<PayloadV>, i: int)
    requires
        encodable_elems(v),
        0 <= i < v.len(),
    ensures
        encodable_payload(v[i]),
    decreases v.len(),
{
    if i < v.len() - 1 {
        lemma_encodable_elems_index(v.drop_last(), i);
    }
}

/// Every tag of an encodable sequence is encodable.
pub proof fn lemma_encodable_tags_index(ts: Seq<TagV>, i: int)
    requires
        encodable_tags(ts),
        0 <= i < ts.len(),
    ensures
        encodable_tag(ts[i]),
    decreases ts.len(),
{
    if i < ts.len() - 1 {
        lemma_encodable_tags_index(ts.drop_last(), i);
    }
}

/// Every element of a well-shaped list has the declared kind and is itself
/// well-shaped.
pub proof fn lemma_shaped_list_index(v: Seq<PayloadV>, id: TagID, i: int)
    requires
        shaped_list(v, id),
        0 <= i < v.len(),
    ensures
        spec_payload_id(v[i]) == id,
        shaped_payload(v[i]),
    decreases v.len(),
{
    if i < v.len() - 1 {
        lemma_shaped_list_index(v.drop_last(), id, i);
    }
}

/// `shaped_list` is exactly the pointwise statement over the elements.
pub proof fn lemma_shaped_list_pointwise(v: Seq<PayloadV>, id: TagID)
    ensures
        shaped_list(v, id) <==> (forall|i: int|
            0 <= i < v.len() ==> spec_payload_id(#[trigger] v[i]) == id && shaped_payload(v[i])),
    decreases v.len(),
{
    if v.len() > 0 {
        let dl = v.drop_last();
        lemma_shaped_list_pointwise(dl, id);
        if shaped_list(v, id) {
            assert forall|i: int|
                0 <= i < v.len() implies spec_payload_id(#[trigger] v[i]) == id && shaped_payload(
                v[i],
            ) by {
                if i < v.len() - 1 {
                    assert(v[i] == dl[i]);
                } else {
                    assert(v[i] == v.last());
                }
            }
        }
        if forall|i: int|
            0 <= i < v.len() ==> spec_payload_id(#[trigger] v[i]) == id && shaped_payload(v[i]) {
            assert forall|i: int|
                0 <= i < dl.len() implies spec_payload_id(#[trigger] dl[i]) == id
                && shaped_payload(dl[i]) by {
                assert(dl[i] == v[i]);
            }
            assert(shaped_list(v, id));
        }
    }
}

/// `encodable_elems` is exactly the pointwise statement over the elements.
pub proof fn lemma_encodable_elems_pointwise(v: Seq<PayloadV>)
    ensures
        encodable_elems(v) <==> (forall|i: int|
            0 <= i < v.len() ==> encodable_payload(#[trigger] v[i])),
    decreases v.len(),
{
    if v.len() > 0 {
        let dl = v.drop_last();
        lemma_encodable_elems_pointwise(dl);
        if encodable_elems(v) {
            assert forall|i: int| 0 <= i < v.len() implies encodable_payload(#[trigger] v[i]) by {
                if i < v.len() - 1 {
                    assert(v[i] == dl[i]);
                } else {
                    assert(v[i] == v.last());
                }
            }
        }
        if forall|i: int| 0 <= i < v.len() ==> encodable_payload(#[trigger] v[i]) {
            assert forall|i: int| 0 <= i < dl.len() implies encodable_payload(
                #[trigger] dl[i],
            ) by {
                assert(dl[i] == v[i]);
            }
            assert(encodable_elems(v));
        }
    }
}

/// `encodable_tags` is exactly the pointwise statement over the tags.
pub proof fn lemma_encodable_tags_pointwise(ts: Seq<TagV>)
    ensures
        encodable_tags(ts) <==> (forall|i: int|
            0 <= i < ts.len() ==> encodable_tag(#[trigger] ts[i])),
    decreases ts.len(),
{
    if ts.len() > 0 {
        let dl = ts.drop_last();
        lemma_encodable_tags_pointwise(dl);
        if encodable_tags(ts) {
            assert forall|i: int| 0 <= i < ts.len() implies encodable_tag(#[trigger] ts[i]) by {
                if i < ts.len() - 1 {
                    assert(ts[i] == dl[i]);
                } else {
                    assert(ts[i] == ts.last());
                }
            }
        }
        if forall|i: int| 0 <= i < ts.len() ==> encodable_tag(#[trigger] ts[i]) {
            assert forall|i: int| 0 <= i < dl.len() implies encodable_tag(#[trigger] dl[i]) by {
                assert(dl[i] == ts[i]);
            }
            assert(encodable_tags(ts));
        }
    }
}

/// `shaped_members` is exactly the pointwise statement over the tags.
pub proof fn lemma_shaped_members_pointwise(ts: Seq<TagV>)
    ensures
        shaped_members(ts) <==> (forall|i: int|
            0 <= i < ts.len() ==> shaped_tag(#[trigger] ts[i]) && ts[i].id != TagID::End),
    decreases ts.len(),
{
    if ts.len() > 0 {
        let dl = ts.drop_last();
        lemma_shaped_members_pointwise(dl);
        if shaped_members(ts) {
            assert forall|i: int|
                0 <= i < ts.len() implies shaped_tag(#[trigger] ts[i]) && ts[i].id
                != TagID::End by {
                if i < ts.len() - 1 {
                    assert(ts[i] == dl[i]);
                } else {
                    assert(ts[i] == ts.last());
                }
            }
        }
        if forall|i: int|
            0 <= i < ts.len() ==> shaped_tag(#[trigger] ts[i]) && ts[i].id != TagID::End {
            assert forall|i: int|
                0 <= i < dl.len() implies shaped_tag(#[trigger] dl[i]) && dl[i].id
                != TagID::End by {
                assert(dl[i] == ts[i]);
            }
            assert(shaped_members(ts));
        }
    }
}

/// Every tag of a well-shaped member prefix is well-shaped and not `End`.
pub proof fn lemma_shaped_members_index(ts: Seq<TagV>, i: int)
    requires
        shaped_members(ts),
        0 <= i < ts.len(),
    ensures
        shaped_tag(ts[i]),
        ts[i].id != TagID::End,
    decreases ts.len(),
{
    if i < ts.len() - 1 {
        lemma_shaped_members_index(ts.drop_last(), i);
    }
}

impl TagPayload {
    /// The string value, if this payload is a `String`.
    pub fn as_string(&self) -> (r: Option<&String>)
        ensures
            match r {
                Some(s) => self@ matches PayloadV::String(v) && v == s@,
                None => !(self@ is String),
            },
    {
        match self {
            TagPayload::String(s) => Some(s),
            _ => None,
        }
    }

    /// The element kind and elements, if this payload is a `List`.
    pub fn as_list(&self) -> (r: Option<(&TagID, &Vec<TagPayload>)>)
        ensures
            match r {
                Some((id, v)) => self@ matches PayloadV::List(li, lv)
                    && li == *id && lv == payloads_view(v@),
                None => !(self@ is List),
            },
    {
        match self {
            TagPayload::List(id, v) => Some((id, v)),
            _ => None,
        }
    }

    /// The member tags, if this payload is a `Compound`.
    pub fn as_compound(&self) -> (r: Option<&Vec<Tag>>)
        ensures
            match r {
                Some(ts) => self@ matches PayloadV::Compound(tv)
                    && tv == tags_view(ts@),
                None => !(self@ is Compound),
            },
    {
        match self {
            TagPayload::Compound(ts) => Some(ts),
            _ => None,
        }
    }
}

impl TagPayload {
    /// An owned copy of this payload with the same view.
    #[verifier::loop_isolation(false)]
    pub fn duplicate(&self) -> (r: TagPayload)
        ensures
            r@ == self@,
        decreases *self,
    {
        match self {
            TagPayload::End => TagPayload::End,
            TagPayload::Byte(v) => TagPayload::Byte(*v),
            TagPayload::Short(v) => TagPayload::Short(*v),
            TagPayload::Int(v) => TagPayload::Int(*v),
            TagPayload::Long(v) => TagPayload::Long(*v),
            TagPayload::Float(v) => TagPayload::Float(*v),
            TagPayload::Double(v) => TagPayload::Double(*v),
            TagPayload::ByteArray(v) => TagPayload::ByteArray(Self::duplicate_all(v)),
            TagPayload::String(s) => TagPayload::String(s.clone()),
            TagPayload::List(id, v) => TagPayload::List(*id, Self::duplicate_all(v)),
            TagPayload::Compound(ts) => {
                let mut out: Vec<Tag> = Vec::new();
                let mut i: usize = 0;
                while i < ts.len()
                    invariant
                        i <= ts@.len(),
                        tags_view(out@) == tags_view(ts@).take(i as int),
                    decreases ts@.len() - i,
                {
                    let ghost pre_vec = out@;
                    let ghost pre = tags_view(out@);
                    let d = ts[i].duplicate();
                    let ghost dv = d@;
                    out.push(d);
                    proof {
                        lemma_tags_view(ts@);
                        assert(out@.drop_last() =~= pre_vec);
                        assert(tags_view(out@).drop_last() =~= pre);
                        assert(tags_view(out@).last() == dv);
                        assert(tags_view(ts@).take(i + 1).drop_last() =~= tags_view(ts@).take(
                            i as int,
                        ));
                        assert(tags_view(out@) =~= tags_view(ts@).take(i + 1));
                    }
                    i = i + 1;
                }
                proof {
                    lemma_tags_view(ts@);
                    assert(tags_view(ts@).take(ts@.len() as int) =~= tags_view(ts@));
                }
                TagPayload::Compound(out)
            },
            TagPayload::IntArray(v) => TagPayload::IntArray(Self::duplicate_all(v)),
            TagPayload::LongArray(v) => TagPayload::LongArray(Self::duplicate_all(v)),
        }
    }

    /// Owned copies of every payload of a vector, with the same views.
    #[verifier::loop_isolation(false)]
    fn duplicate_all(v: &Vec<TagPayload>) -> (r: Vec<TagPayload>)
        ensures
            payloads_view(r@) == payloads_view(v@),
        decreases *v,
    {
        let mut out: Vec<TagPayload> = Vec::new();
        let mut i: usize = 0;
        while i < v.len()
            invariant
                i <= v@.len(),
                payloads_view(out@) == payloads_view(v@).take(i as int),
            decreases v@.len() - i,
        {
            let ghost pre_vec = out@;
            let ghost pre = payloads_view(out@);
            let d = v[i].duplicate();
            let ghost dv = d@;
            out.push(d);
            proof {
                lemma_payloads_view(v@);
                assert(out@.drop_last() =~= pre_vec);
                assert(payloads_view(out@).drop_last() =~= pre);
                assert(payloads_view(out@).last() == dv);
                assert(payloads_view(v@).take(i + 1).drop_last() =~= payloads_view(v@).take(
                    i as int,
                ));
                assert(payloads_view(out@) =~= payloads_view(v@).take(i + 1));
            }
            i = i + 1;
        }
        proof {
            lemma_payloads_view(v@);
            assert(payloads_view(v@).take(v@.len() as int) =~= payloads_view(v@));
        }
        out
    }
}

impl Tag {
    /// An owned copy of this tag with the same view.
    pub fn duplicate(&self) -> (r: Tag)
        ensures
            r@ == self@,
        decreases *self,
    {
        Tag { tag_id: self.tag_id, name: self.name.clone(), payload: self.payload.duplicate() }
    }

    /// Whether this tag's kind contains further nodes.
    pub fn is_container(&self) -> (r: bool)
        ensures
            r == self@.id.spec_is_container(),
    {
        self.tag_id.is_container()
    }
}

} // verus!
