//! Checks that a document follows the rich-text schema.

use vstd::prelude::*;
use crate::doc::{Attrs, AttrsV, Doc, DocElement};
use crate::schema::{attrs_track, has_tag, str_is, track_parents, RtfSchema, RtfTrack};

verus! {

/// Why a document does not follow the schema.
#[derive(PartialEq, Eq, Structural, Clone, Copy, Debug)]
pub enum ValidateError {
    /// A `bullet` group has no content.
    EmptyBullet,
    /// A group stands under a group of a kind it may not stand under.
    IncorrectParent,
    /// A group stands at top level though its kind may not.
    IncorrectRootParent,
    /// A run of characters is empty.
    EmptyChars,
    /// Characters stand in a group that holds no text.
    CharOutsideBlock,
    /// Characters stand at top level.
    CharInRoot,
}

impl ValidateError {
    /// The error, in words.
    pub fn message(&self) -> (r: &'static str)
        ensures
            r@ == match self {
                ValidateError::EmptyBullet => "Expected non-empty bullet"@,
                ValidateError::IncorrectParent => "Block has incorrect parent"@,
                ValidateError::IncorrectRootParent => "Root block has incorrect parent"@,
                ValidateError::EmptyChars => "Empty char string"@,
                ValidateError::CharOutsideBlock => "Char found outside block"@,
                ValidateError::CharInRoot => "Found char in root"@,
            },
    {
        match self {
            ValidateError::EmptyBullet => "Expected non-empty bullet",
            ValidateError::IncorrectParent => "Block has incorrect parent",
            ValidateError::IncorrectRootParent => "Root block has incorrect parent",
            ValidateError::EmptyChars => "Empty char string",
            ValidateError::CharOutsideBlock => "Char found outside block",
            ValidateError::CharInRoot => "Found char in root",
        }
    }
}

/// The schema knows the kind of a group with these attributes.
pub open spec fn known(a: AttrsV) -> bool {
    has_tag(a) && attrs_track(a) is Some
}

/// Checking the element under `parent` only ever asks the schema about
/// groups that carry a tag it knows: every group the check reaches has a
/// tag, and the kinds of a group and of its parent are known wherever the
/// check compares them.
pub open spec fn elem_safe(parent: Option<AttrsV>, e: DocElement) -> bool
    decreases e,
{
    match e {
        DocElement::DocGroup(a, c) => has_tag(a@) && ((a@["tag"@] == "bullet"@ && c@.len() == 0) || (
        span_safe(Some(a@), c@) && (check_span(Some(a@), c@) is Err || (known(a@) && (parent matches Some(
            p,
        ) ==> known(p)))))),
        DocElement::DocChars(s) => s@.len() == 0 || (parent matches Some(p) ==> known(p)),
    }
}

/// Checking the span under `parent` only ever asks the schema about groups
/// that carry a tag it knows (up to the first failure).
pub open spec fn span_safe(parent: Option<AttrsV>, s: Seq<DocElement>) -> bool
    decreases s,
{
    if s.len() == 0 {
        true
    } else {
        span_safe(parent, s.drop_last()) && (check_span(parent, s.drop_last()) is Err || elem_safe(
            parent,
            s.last(),
        ))
    }
}

/// The verdict on one element, under a parent with attributes `parent`
/// (`None` at top level).
pub open spec fn check_elem(parent: Option<AttrsV>, e: DocElement) -> Result<(), ValidateError>
    decreases e,
{
    match e {
        DocElement::DocGroup(a, c) => {
            if a@["tag"@] == "bullet"@ && c@.len() == 0 {
                Err(ValidateError::EmptyBullet)
            } else {
                match check_span(Some(a@), c@) {
                    Err(err) => Err(err),
                    Ok(_) => match parent {
                        Some(p) => if track_parents(attrs_track(a@)->0).contains(
                            attrs_track(p)->0,
                        ) {
                            Ok(())
                        } else {
                            Err(ValidateError::IncorrectParent)
                        },
                        None => {
                            let k = attrs_track(a@)->0;
                            if k == RtfTrack::Blocks || k == RtfTrack::BlockQuotes || k
                                == RtfTrack::BlockObjects {
                                Ok(())
                            } else {
                                Err(ValidateError::IncorrectRootParent)
                            }
                        },
                    },
                }
            }
        },
        DocElement::DocChars(s) => {
            if s@.len() == 0 {
                Err(ValidateError::EmptyChars)
            } else {
                match parent {
                    Some(p) => if attrs_track(p)->0 == RtfTrack::Blocks {
                        Ok(())
                    } else {
                        Err(ValidateError::CharOutsideBlock)
                    },
                    None => Err(ValidateError::CharInRoot),
                }
            }
        },
    }
}

/// The verdict on a span: that of its first element that fails, in order.
pub open spec fn check_span(parent: Option<AttrsV>, s: Seq<DocElement>) -> Result<(), ValidateError>
    decreases s,
{
    if s.len() == 0 {
        Ok(())
    } else {
        match check_span(parent, s.drop_last()) {
            Err(err) => Err(err),
            Ok(_) => check_elem(parent, s.last()),
        }
    }
}

/// The element follows the schema under a parent with attributes `parent`
/// (`None` at top level): a run of characters is non-empty and stands
/// directly in a text block; a group is not an empty `bullet`, its content
/// follows the schema under it, and its kind may stand under its parent's
/// kind (or at top level).
pub open spec fn elem_valid(parent: Option<AttrsV>, e: DocElement) -> bool
    decreases e,
{
    match e {
        DocElement::DocChars(s) => s@.len() > 0 && match parent {
            Some(p) => attrs_track(p)->0 == RtfTrack::Blocks,
            None => false,
        },
        DocElement::DocGroup(a, c) => {
            &&& !(a@["tag"@] == "bullet"@ && c@.len() == 0)
            &&& span_valid(Some(a@), c@)
            &&& match parent {
                Some(p) => track_parents(attrs_track(a@)->0).contains(attrs_track(p)->0),
                None => {
                    let k = attrs_track(a@)->0;
                    k == RtfTrack::Blocks || k == RtfTrack::BlockQuotes || k == RtfTrack::BlockObjects
                },
            }
        },
    }
}

/// Every element of the span follows the schema under `parent`.
pub open spec fn span_valid(parent: Option<AttrsV>, s: Seq<DocElement>) -> bool
    decreases s,
{
    s.len() == 0 || (span_valid(parent, s.drop_last()) && elem_valid(parent, s.last()))
}

/// A span follows the schema exactly when each of its elements does.
pub proof fn lemma_span_valid_each(parent: Option<AttrsV>, s: Seq<DocElement>)
    ensures
        span_valid(parent, s) <==> forall|i: int| 0 <= i < s.len() ==> #[trigger] elem_valid(parent, s[i]),
    decreases s.len(),
{
    if s.len() > 0 {
        let d = s.drop_last();
        lemma_span_valid_each(parent, d);
        if span_valid(parent, s) {
            assert forall|i: int| 0 <= i < s.len() implies #[trigger] elem_valid(parent, s[i]) by {
                if i < d.len() {
                    assert(d[i] == s[i]);
                    assert(elem_valid(parent, d[i]));
                }
            }
        }
        if forall|i: int| 0 <= i < s.len() ==> #[trigger] elem_valid(parent, s[i]) {
            assert forall|i: int| 0 <= i < d.len() implies #[trigger] elem_valid(parent, d[i]) by {
                assert(d[i] == s[i]);
                assert(elem_valid(parent, s[i]));
            }
            assert(elem_valid(parent, s[s.len() - 1]));
        }
    }
}

/// The verdict on an element is `Ok` exactly when it follows the schema.
pub proof fn lemma_check_elem_valid(parent: Option<AttrsV>, e: DocElement)
    ensures
        check_elem(parent, e) is Ok <==> elem_valid(parent, e),
    decreases e,
{
    match e {
        DocElement::DocGroup(a, c) => {
            lemma_check_span_valid(Some(a@), c@);
        },
        DocElement::DocChars(_) => {},
    }
}

/// The verdict on a span is `Ok` exactly when it follows the schema.
pub proof fn lemma_check_span_valid(parent: Option<AttrsV>, s: Seq<DocElement>)
    ensures
        check_span(parent, s) is Ok <==> span_valid(parent, s),
    decreases s,
{
    if s.len() > 0 {
        lemma_check_span_valid(parent, s.drop_last());
        lemma_check_elem_valid(parent, s.last());
    }
}

/// Lists nest: a non-empty list item (`bullet`) whose content follows the
/// schema follows it at top level and inside another list item; so does a
/// text block (`p`) whose content follows the schema, inside a list item.
pub proof fn law_lists_nest(parent: AttrsV, e: DocElement)
    requires
        parent.contains_key("tag"@),
        parent["tag"@] == "bullet"@,
    ensures
        e matches DocElement::DocGroup(a, c) ==> a@["tag"@] == "bullet"@ && c@.len() > 0 && span_valid(
            Some(a@),
            c@,
        ) ==> elem_valid(Some(parent), e) && elem_valid(None, e),
        e matches DocElement::DocGroup(a, c) ==> a@["tag"@] == "p"@ && span_valid(Some(a@), c@)
            ==> elem_valid(Some(parent), e) && elem_valid(None, e),
{
    crate::schema::law_tag_tracks();
    crate::schema::law_track_parents(RtfTrack::BlockQuotes, RtfTrack::BlockQuotes);
    crate::schema::law_track_parents(RtfTrack::Blocks, RtfTrack::BlockQuotes);
    reveal_strlit("p");
    reveal_strlit("bullet");
    assert("p"@.len() != "bullet"@.len());
}

/// The attributes of the groups that enclose the first failure of the
/// element, from the element itself inward (empty when the element fails by
/// itself rather than inside its content).
pub open spec fn elem_err_path(e: DocElement) -> Seq<AttrsV>
    decreases e,
{
    match e {
        DocElement::DocGroup(a, c) => {
            if a@["tag"@] == "bullet"@ && c@.len() == 0 {
                Seq::empty()
            } else if check_span(Some(a@), c@) is Err {
                seq![a@] + span_err_path(Some(a@), c@)
            } else {
                Seq::empty()
            }
        },
        DocElement::DocChars(_) => Seq::empty(),
    }
}

/// The attributes of the groups that enclose the first failure of the span.
pub open spec fn span_err_path(parent: Option<AttrsV>, s: Seq<DocElement>) -> Seq<AttrsV>
    decreases s,
{
    if s.len() == 0 {
        Seq::empty()
    } else if check_span(parent, s.drop_last()) is Err {
        span_err_path(parent, s.drop_last())
    } else {
        elem_err_path(s.last())
    }
}

proof fn lemma_span_safe(parent: Option<AttrsV>, s: Seq<DocElement>, i: int)
    requires
        span_safe(parent, s),
        0 <= i < s.len(),
        check_span(parent, s.take(i)) is Ok,
    ensures
        elem_safe(parent, s[i]),
    decreases s.len(),
{
    if i < s.len() - 1 {
        assert(s.drop_last().take(i) =~= s.take(i));
        lemma_span_safe(parent, s.drop_last(), i);
    } else {
        assert(s.take(i) =~= s.drop_last());
    }
}

proof fn lemma_check_span_err(parent: Option<AttrsV>, s: Seq<DocElement>, j: int)
    requires
        0 <= j <= s.len(),
        check_span(parent, s.take(j)) is Err,
    ensures
        check_span(parent, s) == check_span(parent, s.take(j)),
        span_err_path(parent, s) == span_err_path(parent, s.take(j)),
    decreases s.len() - j,
{
    if j < s.len() {
        assert(s.take(j + 1).drop_last() =~= s.take(j));
        lemma_check_span_err(parent, s, j + 1);
    } else {
        assert(s.take(j) =~= s);
    }
}

/// The attributes of the groups that enclose the current span, outermost first.
pub open spec fn attrs_stack_view(s: Seq<Attrs>) -> Seq<AttrsV>
    decreases s.len(),
{
    if s.len() == 0 {
        Seq::empty()
    } else {
        attrs_stack_view(s.drop_last()).push(s.last()@)
    }
}

/// The innermost enclosing group's attributes, if any.
pub open spec fn stack_parent(s: Seq<AttrsV>) -> Option<AttrsV> {
    if s.len() == 0 {
        None
    } else {
        Some(s.last())
    }
}

/// What validation keeps while it walks a document.
pub struct ValidateContext {
    stack: Vec<Attrs>,
}

impl ValidateContext {
    /// The attributes of the enclosing groups, outermost first.
    pub closed spec fn stack(&self) -> Seq<AttrsV> {
        attrs_stack_view(self.stack@)
    }

    /// A context at top level.
    pub fn new() -> (r: ValidateContext)
        ensures
            r.stack() == Seq::<AttrsV>::empty(),
    {
        ValidateContext { stack: Vec::new() }
    }

    fn push(&mut self, a: Attrs)
        ensures
            final(self).stack() == old(self).stack().push(a@),
    {
        let ghost before = self.stack@;
        self.stack.push(a);
        assert(self.stack@.drop_last() =~= before);
    }

    fn pop(&mut self)
        requires
            old(self).stack@.len() > 0,
        ensures
            final(self).stack() == old(self).stack().drop_last(),
            final(self).stack@.len() == old(self).stack@.len() - 1,
    {
        let ghost before = self.stack@;
        let _ = self.stack.pop();
        assert(before.drop_last() =~= self.stack@);
    }

    fn last(&self) -> (r: Option<&Attrs>)
        ensures
            r is None <==> self.stack().len() == 0,
            r matches Some(a) ==> a@ == self.stack().last(),
            self.stack().len() == self.stack@.len(),
    {
        proof {
            lemma_attrs_stack_len(self.stack@);
        }
        if self.stack.len() == 0 {
            None
        } else {
            Some(&self.stack[self.stack.len() - 1])
        }
    }
}

proof fn lemma_attrs_stack_len(s: Seq<Attrs>)
    ensures
        attrs_stack_view(s).len() == s.len(),
    decreases s.len(),
{
    if s.len() > 0 {
        lemma_attrs_stack_len(s.drop_last());
    }
}

fn contains_track(v: &Vec<RtfTrack>, k: RtfTrack) -> (r: bool)
    ensures
        r == v@.contains(k),
{
    let mut i: usize = 0;
    while i < v.len()
        invariant
            0 <= i <= v@.len(),
            forall|j: int| 0 <= j < i ==> v@[j] != k,
        decreases v@.len() - i,
    {
        if v[i] == k {
            return true;
        }
        i += 1;
    }
    false
}

/// Checks a span against the schema, under the groups of `ctx`; answers
/// the first failure, in document order.
pub fn validate_doc_span(ctx: &mut ValidateContext, span: &Vec<DocElement>) -> (r: Result<
    (),
    ValidateError,
>)
    requires
        span_safe(stack_parent(old(ctx).stack()), span@),
    ensures
        r == check_span(stack_parent(old(ctx).stack()), span@),
        r is Ok <==> span_valid(stack_parent(old(ctx).stack()), span@),
        r is Ok ==> final(ctx).stack() == old(ctx).stack(),
        r is Err ==> final(ctx).stack() == old(ctx).stack() + span_err_path(
            stack_parent(old(ctx).stack()),
            span@,
        ),
    decreases span@,
{
    let ghost parent = stack_parent(ctx.stack());
    let ghost s0 = ctx.stack();
    proof {
        lemma_check_span_valid(parent, span@);
    }
    let mut i: usize = 0;
    while i < span.len()
        invariant
            0 <= i <= span@.len(),
            span_safe(parent, span@),
            check_span(parent, span@) is Ok <==> span_valid(parent, span@),
            ctx.stack() == s0,
            s0 == old(ctx).stack(),
            parent == stack_parent(s0),
            check_span(parent, span@.take(i as int)) == Ok::<(), ValidateError>(()),
        decreases span@.len() - i,
    {
        proof {
            lemma_span_safe(parent, span@, i as int);
            assert(span@.take(i + 1).drop_last() =~= span@.take(i as int));
            assert(span@.take(i + 1).last() == span@[i as int]);
        }
        let res = validate_elem(ctx, &span[i]);
        if res.is_err() {
            proof {
                lemma_check_span_err(parent, span@, i + 1);
            }
            return res;
        }
        assert(ctx.stack() =~= s0);
        i += 1;
    }
    assert(span@.take(span@.len() as int) =~= span@);
    Ok(())
}

fn validate_elem(ctx: &mut ValidateContext, elem: &DocElement) -> (r: Result<(), ValidateError>)
    requires
        elem_safe(stack_parent(old(ctx).stack()), *elem),
    ensures
        r == check_elem(stack_parent(old(ctx).stack()), *elem),
        r is Ok ==> final(ctx).stack() == old(ctx).stack(),
        r is Err ==> final(ctx).stack() == old(ctx).stack() + elem_err_path(*elem),
    decreases *elem, 0nat,
{
    let ghost s0 = ctx.stack();
    match elem {
        DocElement::DocGroup(attrs, children) => {
            let tag = attrs.get("tag").unwrap();
            if str_is(tag, "bullet") && children.len() == 0 {
                assert(ctx.stack() =~= s0 + elem_err_path(*elem));
                return Err(ValidateError::EmptyBullet);
            }
            ctx.push(attrs.clone());
            proof {
                let ev: DocElement = *elem;
                assert(decreases_to!(ev => ev->DocGroup_1));
            }
            let res = validate_doc_span(ctx, children);
            if res.is_err() {
                proof {
                    assert(s0.push(attrs@) + span_err_path(Some(attrs@), children@) =~= s0
                        + elem_err_path(*elem));
                }
                return res;
            }
            proof {
                lemma_attrs_stack_len(ctx.stack@);
                assert(s0.push(attrs@).drop_last() =~= s0);
            }
            ctx.pop();
            let cur_type = RtfSchema::track_type_from_attrs(attrs).unwrap();
            assert(ctx.stack() =~= s0 + elem_err_path(*elem));
            match ctx.last() {
                Some(parent) => {
                    let parent_type = RtfSchema::track_type_from_attrs(parent).unwrap();
                    if contains_track(&cur_type.parents(), parent_type) {
                        Ok(())
                    } else {
                        Err(ValidateError::IncorrectParent)
                    }
                },
                None => {
                    if cur_type.allowed_in_root() {
                        Ok(())
                    } else {
                        Err(ValidateError::IncorrectRootParent)
                    }
                },
            }
        },
        DocElement::DocChars(text) => {
            assert(ctx.stack() =~= s0 + elem_err_path(*elem));
            if text.as_str().unicode_len() == 0 {
                return Err(ValidateError::EmptyChars);
            }
            match ctx.last() {
                Some(block) => {
                    let block_type = RtfSchema::track_type_from_attrs(block).unwrap();
                    if block_type.supports_text() {
                        Ok(())
                    } else {
                        Err(ValidateError::CharOutsideBlock)
                    }
                },
                None => Err(ValidateError::CharInRoot),
            }
        },
    }
}

/// Checking a whole document is checking its top-level span from a fresh
/// context, which has no enclosing group; so an empty document is valid.
pub proof fn law_validate_doc_from_fresh_context(s: Seq<DocElement>)
    ensures
        stack_parent(Seq::<AttrsV>::empty()) == None::<AttrsV>,
        check_span(stack_parent(Seq::<AttrsV>::empty()), s) == check_span(None, s),
        span_safe(stack_parent(Seq::<AttrsV>::empty()), s) == span_safe(None, s),
        check_span(None, Seq::<DocElement>::empty()) == Ok::<(), ValidateError>(()),
{
}

/// Checks a whole document against the schema; answers the first failure,
/// in document order.
pub fn validate_doc(doc: &Doc) -> (r: Result<(), ValidateError>)
    requires
        span_safe(None, doc.0@),
    ensures
        r == check_span(None, doc.0@),
        r is Ok <==> span_valid(None, doc.0@),
        r is Ok <==> forall|i: int| 0 <= i < doc.0@.len() ==> #[trigger] elem_valid(None, doc.0@[i]),
{
    proof {
        lemma_check_span_valid(None, doc.0@);
        lemma_span_valid_each(None, doc.0@);
    }
    let mut ctx = ValidateContext::new();
    validate_doc_span(&mut ctx, &doc.0)
}

} // verus!
