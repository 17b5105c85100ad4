//! Path-addressed traversal and mutation: a node deep inside a tree is
//! addressed by a sequence of compound-member names and array indices, read
//! with [`traverse`] and replaced with [`set`], with defined failure modes
//! and no rebuilding of the rest of the tree.

use vstd::prelude::*;

use crate::tag::{
    payload_view, payloads_view, tag_view, tags_view, PayloadV, Tag, TagID, TagPayload, TagV,
};

verus! {

broadcast use
    vstd::seq::axiom_seq_index_decreases,
    vstd::seq::axiom_seq_subrange_decreases,
    vstd::std_specs::vec::axiom_vec_decreases_to_view,
    crate::tag::lemma_payloads_view,
    crate::tag::lemma_tags_view;

/// One step of a path: descend into the named member of a compound, or
/// into the indexed element of an array or list.
#[derive(Debug, Clone, PartialEq)]
pub enum TagTraversal {
    Compound(String),
    Array(i32),
}

/// The mathematical view of a step.
pub enum TravV {
    Compound(Seq<char>),
    Array(i32),
}

impl View for TagTraversal {
    type V = TravV;

    open spec fn view(&self) -> TravV {
        match self {
            TagTraversal::Compound(name) => TravV::Compound(name@),
            TagTraversal::Array(idx) => TravV::Array(*idx),
        }
    }
}

/// The views of a sequence of steps, element by element.
pub open spec fn travs_view(path: Seq<TagTraversal>) -> Seq<TravV>
    decreases path,
{
    if path.len() == 0 {
        Seq::empty()
    } else {
        travs_view(path.drop_last()).push(path.last()@)
    }
}

/// `travs_view` maps the sequence pointwise.
pub broadcast proof fn lemma_travs_view(path: Seq<TagTraversal>)
    ensures
        (#[trigger] travs_view(path)).len() == path.len(),
        forall|i: int| 0 <= i < path.len() ==> travs_view(path)[i] == path[i]@,
    decreases path.len(),
{
    if path.len() > 0 {
        lemma_travs_view(path.drop_last());
    }
}

/// A navigation failure: the named member was absent or a step did not fit
/// the node's shape (`Path`, carrying the attempted path), or an array index
/// was out of range (`Index`, carrying the index).
#[derive(Debug, PartialEq)]
pub enum Error {
    Path(Vec<TagTraversal>),
    Index(i32),
}

/// The mathematical view of a navigation failure.
pub enum ErrorV {
    Path(Seq<TravV>),
    Index(i32),
}

impl View for Error {
    type V = ErrorV;

    open spec fn view(&self) -> ErrorV {
        match self {
            Error::Path(path) => ErrorV::Path(travs_view(path@)),
            Error::Index(idx) => ErrorV::Index(*idx),
        }
    }
}

/// The node a traversal ends on, classified: a named tag or a bare payload,
/// each either a container (further descent is possible) or a leaf.
#[derive(Debug, Clone, Copy)]
pub enum TraversedTag<'a> {
    Tag(&'a Tag),
    Payload(&'a TagPayload),
    ContainedTag(&'a Tag),
    ContainedPayload(&'a TagPayload),
}

/// The mathematical view of a classified node.
pub enum TraversedV {
    Tag(TagV),
    Payload(PayloadV),
    ContainedTag(TagV),
    ContainedPayload(PayloadV),
}

impl<'a> View for TraversedTag<'a> {
    type V = TraversedV;

    open spec fn view(&self) -> TraversedV {
        match self {
            TraversedTag::Tag(t) => TraversedV::Tag(tag_view(**t)),
            TraversedTag::Payload(p) => TraversedV::Payload(payload_view(**p)),
            TraversedTag::ContainedTag(t) => TraversedV::ContainedTag(tag_view(**t)),
            TraversedTag::ContainedPayload(p) => TraversedV::ContainedPayload(payload_view(**p)),
        }
    }
}

impl<'a> TraversedTag<'a> {
    /// Whether the node can be descended into further.
    pub fn is_container(&self) -> (r: bool)
        ensures
            r == (self@ is Tag || self@ is Payload),
    {
        matches!(self, TraversedTag::Tag(_) | TraversedTag::Payload(_))
    }

    /// The named tag, if the node is one.
    pub fn get_tag(self) -> (r: Option<&'a Tag>)
        ensures
            match r {
                Some(t) => (self@ matches TraversedV::Tag(tv) && tv == t@) || (self@
                    matches TraversedV::ContainedTag(tv) && tv == t@),
                None => self@ is Payload || self@ is ContainedPayload,
            },
    {
        match self {
            TraversedTag::ContainedTag(t) => Some(t),
            TraversedTag::Tag(t) => Some(t),
            _ => None,
        }
    }

    /// The payload at the node, whether it is a named tag or a bare
    /// payload.
    pub fn get_payload(self) -> (r: &'a TagPayload)
        ensures
            match self@ {
                TraversedV::Tag(tv) => r@ == tv.payload,
                TraversedV::ContainedTag(tv) => r@ == tv.payload,
                TraversedV::Payload(pv) => r@ == pv,
                TraversedV::ContainedPayload(pv) => r@ == pv,
            },
    {
        match self {
            TraversedTag::Payload(p) => p,
            TraversedTag::ContainedPayload(p) => p,
            TraversedTag::Tag(t) => &t.payload,
            TraversedTag::ContainedTag(t) => &t.payload,
        }
    }
}

/// The index of the first member tag with the given name, if any.
pub open spec fn spec_find_idx(ts: Seq<TagV>, name: Seq<char>) -> Option<int>
    decreases ts.len(),
{
    if ts.len() == 0 {
        None
    } else if ts[0].name == name {
        Some(0)
    } else {
        match spec_find_idx(ts.drop_first(), name) {
            Some(i) => Some(i + 1),
            None => None,
        }
    }
}

/// The element sequence of an array or list payload, if it is one.
pub open spec fn spec_elements(p: PayloadV) -> Option<Seq<PayloadV>> {
    match p {
        PayloadV::ByteArray(v) => Some(v),
        PayloadV::IntArray(v) => Some(v),
        PayloadV::LongArray(v) => Some(v),
        PayloadV::List(_, v) => Some(v),
        _ => None,
    }
}

/// The same payload with its element sequence replaced.
pub open spec fn spec_with_elements(p: PayloadV, v: Seq<PayloadV>) -> PayloadV {
    match p {
        PayloadV::ByteArray(_) => PayloadV::ByteArray(v),
        PayloadV::IntArray(_) => PayloadV::IntArray(v),
        PayloadV::LongArray(_) => PayloadV::LongArray(v),
        PayloadV::List(id, _) => PayloadV::List(id, v),
        _ => p,
    }
}

/// The classification of the node a walk ends on.
pub open spec fn spec_classify(cur_tag: Option<TagV>, cur_payload: PayloadV) -> TraversedV {
    match cur_tag {
        Some(t) => if t.id.spec_is_container() {
            TraversedV::Tag(t)
        } else {
            TraversedV::ContainedTag(t)
        },
        None => if crate::tag::spec_payload_id(cur_payload).spec_is_container() {
            TraversedV::Payload(cur_payload)
        } else {
            TraversedV::ContainedPayload(cur_payload)
        },
    }
}

/// The walk that [`traverse`] performs: apply the steps left to right,
/// descending by member name through compounds and by index through arrays
/// and lists; classify what the last step lands on. A name that is absent,
/// or a step applied to a node of the wrong shape, fails with `Path`
/// carrying the full path; an index outside the element count fails with
/// `Index` carrying the index.
pub open spec fn spec_walk(
    steps: Seq<TravV>,
    cur_tag: Option<TagV>,
    cur_payload: PayloadV,
    full: Seq<TravV>,
) -> Result<TraversedV, ErrorV>
    decreases steps.len(),
{
    if steps.len() == 0 {
        Ok(spec_classify(cur_tag, cur_payload))
    } else {
        match steps[0] {
            TravV::Compound(name) => match cur_payload {
                PayloadV::Compound(ts) => match spec_find_idx(ts, name) {
                    Some(i) => spec_walk(
                        steps.drop_first(),
                        Some(ts[i]),
                        ts[i].payload,
                        full,
                    ),
                    None => Err(ErrorV::Path(full)),
                },
                _ => Err(ErrorV::Path(full)),
            },
            TravV::Array(idx) => match spec_elements(cur_payload) {
                Some(v) => if 0 <= idx < v.len() {
                    spec_walk(steps.drop_first(), None, v[idx as int], full)
                } else {
                    Err(ErrorV::Index(idx))
                },
                None => Err(ErrorV::Path(full)),
            },
        }
    }
}

/// What [`traverse`] returns: the walk over the whole path, started at the
/// root tag.
pub open spec fn spec_traverse(path: Seq<TravV>, root: TagV) -> Result<TraversedV, ErrorV> {
    spec_walk(path, Some(root), root.payload, path)
}

/// The tree that [`set`] leaves behind: the identical walk, and at the
/// terminal location only the payload is replaced; every enclosing node
/// keeps its kind, name and siblings.
pub open spec fn spec_set_payload(
    steps: Seq<TravV>,
    cur: PayloadV,
    new: PayloadV,
    full: Seq<TravV>,
) -> Result<PayloadV, ErrorV>
    decreases steps.len(),
{
    if steps.len() == 0 {
        Ok(new)
    } else {
        match steps[0] {
            TravV::Compound(name) => match cur {
                PayloadV::Compound(ts) => match spec_find_idx(ts, name) {
                    Some(i) => match spec_set_payload(
                        steps.drop_first(),
                        ts[i].payload,
                        new,
                        full,
                    ) {
                        Ok(p2) => Ok(
                            PayloadV::Compound(
                                ts.update(
                                    i,
                                    TagV { id: ts[i].id, name: ts[i].name, payload: p2 },
                                ),
                            ),
                        ),
                        Err(e) => Err(e),
                    },
                    None => Err(ErrorV::Path(full)),
                },
                _ => Err(ErrorV::Path(full)),
            },
            TravV::Array(idx) => match spec_elements(cur) {
                Some(v) => if 0 <= idx < v.len() {
                    match spec_set_payload(steps.drop_first(), v[idx as int], new, full) {
                        Ok(p2) => Ok(spec_with_elements(cur, v.update(idx as int, p2))),
                        Err(e) => Err(e),
                    }
                } else {
                    Err(ErrorV::Index(idx))
                },
                None => Err(ErrorV::Path(full)),
            },
        }
    }
}

/// [`set`] on a whole tree: the root keeps its kind and name.
pub open spec fn spec_set_tag(path: Seq<TravV>, root: TagV, new: PayloadV) -> Result<
    TagV,
    ErrorV,
> {
    match spec_set_payload(path, root.payload, new, path) {
        Ok(p2) => Ok(TagV { id: root.id, name: root.name, payload: p2 }),
        Err(e) => Err(e),
    }
}

/// An owned copy of a path, for carrying in an error.
fn clone_path(path: &[TagTraversal]) -> (r: Vec<TagTraversal>)
    ensures
        travs_view(r@) == travs_view(path@),
{
    broadcast use lemma_travs_view;

    let mut r: Vec<TagTraversal> = Vec::new();
    let mut j: usize = 0;
    while j < path.len()
        invariant
            j <= path@.len(),
            r@.len() == j,
            forall|i: int| 0 <= i < j ==> r@[i]@ == path@[i]@,
        decreases path@.len() - j,
    {
        let step = match &path[j] {
            TagTraversal::Compound(name) => TagTraversal::Compound(name.clone()),
            TagTraversal::Array(idx) => TagTraversal::Array(*idx),
        };
        r.push(step);
        j = j + 1;
    }
    proof {
        assert(travs_view(r@) =~= travs_view(path@));
    }
    r
}

/// The element vector of an array or list payload, if it is one.
fn elements(p: &TagPayload) -> (r: Option<&Vec<TagPayload>>)
    ensures
        match r {
            Some(v) => spec_elements(p@) == Some(payloads_view(v@)),
            None => spec_elements(p@) is None,
        },
{
    match p {
        TagPayload::ByteArray(v) => Some(v),
        TagPayload::IntArray(v) => Some(v),
        TagPayload::LongArray(v) => Some(v),
        TagPayload::List(_, v) => Some(v),
        _ => None,
    }
}

/// The index of the first member tag with the given name, if any.
fn find_member(ts: &Vec<Tag>, name: &String) -> (r: Option<usize>)
    ensures
        match r {
            Some(j) => j < ts@.len() && spec_find_idx(tags_view(ts@), name@) == Some(j as int),
            None => spec_find_idx(tags_view(ts@), name@) is None,
        },
{
    let ghost tv = tags_view(ts@);
    proof {
        assert(tv.skip(0) =~= tv);
    }
    let mut j: usize = 0;
    while j < ts.len()
        invariant
            j <= ts@.len(),
            tv == tags_view(ts@),
            spec_find_idx(tv, name@) == match spec_find_idx(tv.skip(j as int), name@) {
                Some(i) => Some(i + j),
                None => None::<int>,
            },
        decreases ts@.len() - j,
    {
        if ts[j].name == *name {
            proof {
                assert(tv.skip(j as int)[0] == tv[j as int]);
            }
            return Some(j);
        }
        proof {
            assert(tv.skip(j as int)[0] == tv[j as int]);
            assert(tv.skip(j as int).drop_first() =~= tv.skip(j + 1));
        }
        j = j + 1;
    }
    proof {
        assert(tv.skip(ts@.len() as int) =~= Seq::<TagV>::empty());
    }
    None
}

/// Walks the remaining steps from the current node.
fn walk<'a>(
    path: &[TagTraversal],
    i: usize,
    cur_tag: Option<&'a Tag>,
    cur_payload: &'a TagPayload,
) -> (r: Result<TraversedTag<'a>, Error>)
    requires
        i <= path@.len(),
        cur_tag matches Some(t) ==> payload_view(*cur_payload) == t@.payload,
    ensures
        ({
            let expected = spec_walk(
                travs_view(path@).skip(i as int),
                match cur_tag {
                    Some(t) => Some(t@),
                    None => None,
                },
                cur_payload@,
                travs_view(path@),
            );
            match r {
                Ok(tt) => expected == Ok::<TraversedV, ErrorV>(tt@),
                Err(e) => expected == Err::<TraversedV, ErrorV>(e@),
            }
        }),
    decreases path@.len() - i, 0int,
{
    broadcast use lemma_travs_view;

    let ghost steps = travs_view(path@).skip(i as int);
    if i == path.len() {
        proof {
            assert(steps.len() == 0);
        }
        match cur_tag {
            Some(t) => {
                if t.is_container() {
                    Ok(TraversedTag::Tag(t))
                } else {
                    Ok(TraversedTag::ContainedTag(t))
                }
            },
            None => {
                let id = TagID::of_payload(cur_payload);
                if id.is_container() {
                    Ok(TraversedTag::Payload(cur_payload))
                } else {
                    Ok(TraversedTag::ContainedPayload(cur_payload))
                }
            },
        }
    } else {
        proof {
            assert(steps[0] == path@[i as int]@);
            assert(steps.drop_first() =~= travs_view(path@).skip(i + 1));
        }
        match &path[i] {
            TagTraversal::Compound(name) => match cur_payload {
                TagPayload::Compound(ts) => match find_member(ts, name) {
                    Some(j) => {
                        proof {
                            assert(tags_view(ts@)[j as int] == tag_view(ts@[j as int]));
                        }
                        walk(path, i + 1, Some(&ts[j]), &ts[j].payload)
                    },
                    None => Err(Error::Path(clone_path(path))),
                },
                _ => Err(Error::Path(clone_path(path))),
            },
            TagTraversal::Array(idx) => match elements(cur_payload) {
                Some(v) => {
                    if *idx < 0 || *idx as usize >= v.len() {
                        Err(Error::Index(*idx))
                    } else {
                        proof {
                            assert(payloads_view(v@)[*idx as int] == payload_view(
                                v@[*idx as int],
                            ));
                        }
                        walk(path, i + 1, None, &v[*idx as usize])
                    }
                },
                None => Err(Error::Path(clone_path(path))),
            },
        }
    }
}

/// Addresses the node the path names, starting at the root tag, and returns
/// it classified as a container or leaf, named tag or bare payload. An
/// absent member name or a step of the wrong shape fails with
/// `Error::Path`; an index outside the element count fails with
/// `Error::Index`, exactly as [`spec_traverse`] lays down.
pub fn traverse<'a>(path: &[TagTraversal], root: &'a Tag) -> (r: Result<TraversedTag<'a>, Error>)
    ensures
        match r {
            Ok(tt) => spec_traverse(travs_view(path@), root@) == Ok::<TraversedV, ErrorV>(tt@),
            Err(e) => spec_traverse(travs_view(path@), root@) == Err::<TraversedV, ErrorV>(e@),
        },
{
    proof {
        assert(travs_view(path@).skip(0) =~= travs_view(path@));
    }
    walk(path, 0, Some(root), &root.payload)
}

/// Replaces the payload at the addressed node, walking exactly as
/// [`traverse`] does.
fn set_payload(
    p: &mut TagPayload,
    path: &[TagTraversal],
    i: usize,
    new: TagPayload,
) -> (r: Result<(), Error>)
    requires
        i <= path@.len(),
    ensures
        ({
            let expected = spec_set_payload(
                travs_view(path@).skip(i as int),
                old(p)@,
                new@,
                travs_view(path@),
            );
            match r {
                Ok(()) => expected == Ok::<PayloadV, ErrorV>(final(p)@),
                Err(e) => expected == Err::<PayloadV, ErrorV>(e@) && final(p)@ == old(p)@,
            }
        }),
    decreases path@.len() - i, 0int,
{
    broadcast use lemma_travs_view;

    let ghost steps = travs_view(path@).skip(i as int);
    if i == path.len() {
        proof {
            assert(steps.len() == 0);
        }
        *p = new;
        Ok(())
    } else {
        proof {
            assert(steps[0] == path@[i as int]@);
            assert(steps.drop_first() =~= travs_view(path@).skip(i + 1));
        }
        match &path[i] {
            TagTraversal::Compound(name) => match p {
                TagPayload::Compound(ts) => match find_member(ts, name) {
                    Some(j) => {
                        let ghost ts_pre = ts@;
                        let mut member = ts.remove(j);
                        let res = set_payload(&mut member.payload, path, i + 1, new);
                        let ghost member_now = member;
                        ts.insert(j, member);
                        proof {
                            assert(tags_view(ts_pre)[j as int] == tag_view(ts_pre[j as int]));
                            if res is Ok {
                                assert(ts@ =~= ts_pre.update(j as int, member_now));
                                assert(tags_view(ts@) =~= tags_view(ts_pre).update(
                                    j as int,
                                    tag_view(member_now),
                                ));
                            } else {
                                assert(ts@ =~= ts_pre.update(j as int, member_now));
                                assert(tag_view(member_now) == tag_view(ts_pre[j as int]));
                                assert(tags_view(ts@) =~= tags_view(ts_pre));
                            }
                        }
                        match res {
                            Ok(()) => Ok(()),
                            Err(e) => Err(e),
                        }
                    },
                    None => Err(Error::Path(clone_path(path))),
                },
                _ => Err(Error::Path(clone_path(path))),
            },
            TagTraversal::Array(idx) => {
                let ix = *idx;
                match p {
                    TagPayload::ByteArray(v) => set_in_elems(v, ix, path, i + 1, new),
                    TagPayload::IntArray(v) => set_in_elems(v, ix, path, i + 1, new),
                    TagPayload::LongArray(v) => set_in_elems(v, ix, path, i + 1, new),
                    TagPayload::List(_, v) => set_in_elems(v, ix, path, i + 1, new),
                    _ => Err(Error::Path(clone_path(path))),
                }
            },
        }
    }
}

/// Replaces the payload addressed by the rest of the path inside the
/// indexed element of an array or list.
fn set_in_elems(
    v: &mut Vec<TagPayload>,
    idx: i32,
    path: &[TagTraversal],
    i1: usize,
    new: TagPayload,
) -> (r: Result<(), Error>)
    requires
        1 <= i1 <= path@.len(),
    ensures
        ({
            let rest = travs_view(path@).skip(i1 as int);
            let full = travs_view(path@);
            match r {
                Ok(()) => 0 <= idx < old(v)@.len() && ({
                    let sub = spec_set_payload(
                        rest,
                        payloads_view(old(v)@)[idx as int],
                        new@,
                        full,
                    );
                    &&& sub is Ok
                    &&& payloads_view(final(v)@) == payloads_view(old(v)@).update(
                        idx as int,
                        sub->Ok_0,
                    )
                }),
                Err(e) => payloads_view(final(v)@) == payloads_view(old(v)@) && if 0 <= idx
                    < old(v)@.len() {
                    spec_set_payload(rest, payloads_view(old(v)@)[idx as int], new@, full)
                        == Err::<PayloadV, ErrorV>(e@)
                } else {
                    e@ == ErrorV::Index(idx)
                },
            }
        }),
    decreases path@.len() - i1, 1int,
{
    if idx < 0 || idx as usize >= v.len() {
        return Err(Error::Index(idx));
    }
    let j = idx as usize;
    let ghost v_pre = v@;
    let mut elem = v.remove(j);
    let res = set_payload(&mut elem, path, i1, new);
    let ghost elem_now = elem;
    v.insert(j, elem);
    proof {
        assert(payloads_view(v_pre)[j as int] == payload_view(v_pre[j as int]));
        assert(v@ =~= v_pre.update(j as int, elem_now));
        if res is Ok {
            assert(payloads_view(v@) =~= payloads_view(v_pre).update(
                j as int,
                payload_view(elem_now),
            ));
        } else {
            assert(payload_view(elem_now) == payload_view(v_pre[j as int]));
            assert(payloads_view(v@) =~= payloads_view(v_pre));
        }
    }
    match res {
        Ok(()) => Ok(()),
        Err(e) => Err(e),
    }
}

/// Replaces the payload at the node the path names, and only that payload;
/// on an invalid path the tree is unchanged and the same error that
/// [`traverse`] would give is returned. The replacement payload's shape is
/// the caller's responsibility: a mismatched element breaks a container's
/// homogeneity for later encodes.
pub fn set(path: &[TagTraversal], root: &mut Tag, new: TagPayload) -> (r: Result<(), Error>)
    ensures
        match r {
            Ok(()) => spec_set_tag(travs_view(path@), old(root)@, new@) == Ok::<TagV, ErrorV>(
                final(root)@,
            ),
            Err(e) => spec_set_tag(travs_view(path@), old(root)@, new@) == Err::<TagV, ErrorV>(
                e@,
            ) && final(root)@ == old(root)@,
        },
{
    proof {
        assert(travs_view(path@).skip(0) =~= travs_view(path@));
    }
    set_payload(&mut root.payload, path, 0, new)
}

} // verus!
