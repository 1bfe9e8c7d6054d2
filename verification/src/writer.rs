//! Operations on documents, and writers that build them step by step.
//!
//! An operation is a pair of spans: a deletion span, which walks the old
//! document skipping, entering, or deleting what it meets, and an insertion
//! span, which walks the result skipping, entering, or inserting.

use vstd::prelude::*;
use crate::doc::{Attrs, AttrsV};

verus! {

/// One step of a deletion span.
#[derive(Debug, PartialEq)]
pub enum DelElement {
    /// Keep this many units.
    DelSkip(usize),
    /// Keep the group, and walk its content with the inner span.
    DelWithGroup(Vec<DelElement>),
    /// Delete this many characters.
    DelChars(usize),
    /// Delete the group, walking its content with the inner span.
    DelGroup(Vec<DelElement>),
}

/// One step of an insertion span.
#[derive(Debug, PartialEq)]
pub enum AddElement {
    /// Keep this many units.
    AddSkip(usize),
    /// Keep the group, and walk its content with the inner span.
    AddWithGroup(Vec<AddElement>),
    /// Insert these characters.
    AddChars(String),
    /// Insert a group with these attributes around what the inner span walks.
    AddGroup(Attrs, Vec<AddElement>),
}

pub type DelSpan = Vec<DelElement>;

pub type AddSpan = Vec<AddElement>;

/// An operation: a deletion span followed by an insertion span.
pub type Op = (DelSpan, AddSpan);

/// The mathematical model of a deletion step.
pub enum Del {
    Skip(nat),
    WithGroup(Seq<Del>),
    Chars(nat),
    Group(Seq<Del>),
}

/// The mathematical model of an insertion step.
pub enum Add {
    Skip(nat),
    WithGroup(Seq<Add>),
    Chars(Seq<char>),
    Group(AttrsV, Seq<Add>),
}

pub open spec fn del_view(e: DelElement) -> Del
    decreases e,
{
    match e {
        DelElement::DelSkip(n) => Del::Skip(n as nat),
        DelElement::DelWithGroup(s) => Del::WithGroup(del_span_view(s@)),
        DelElement::DelChars(n) => Del::Chars(n as nat),
        DelElement::DelGroup(s) => Del::Group(del_span_view(s@)),
    }
}

pub open spec fn del_span_view(s: Seq<DelElement>) -> Seq<Del>
    decreases s,
{
    if s.len() == 0 {
        Seq::empty()
    } else {
        del_span_view(s.drop_last()).push(del_view(s.last()))
    }
}

pub open spec fn add_view(e: AddElement) -> Add
    decreases e,
{
    match e {
        AddElement::AddSkip(n) => Add::Skip(n as nat),
        AddElement::AddWithGroup(s) => Add::WithGroup(add_span_view(s@)),
        AddElement::AddChars(s) => Add::Chars(s@),
        AddElement::AddGroup(a, s) => Add::Group(a@, add_span_view(s@)),
    }
}

pub open spec fn add_span_view(s: Seq<AddElement>) -> Seq<Add>
    decreases s,
{
    if s.len() == 0 {
        Seq::empty()
    } else {
        add_span_view(s.drop_last()).push(add_view(s.last()))
    }
}

pub open spec fn del_stack_view(s: Seq<Vec<DelElement>>) -> Seq<Seq<Del>>
    decreases s.len(),
{
    if s.len() == 0 {
        Seq::empty()
    } else {
        del_stack_view(s.drop_last()).push(del_span_view(s.last()@))
    }
}

pub open spec fn add_stack_view(s: Seq<Vec<AddElement>>) -> Seq<Seq<Add>>
    decreases s.len(),
{
    if s.len() == 0 {
        Seq::empty()
    } else {
        add_stack_view(s.drop_last()).push(add_span_view(s.last()@))
    }
}

/// The model of an operation.
pub open spec fn op_view(op: Op) -> (Seq<Del>, Seq<Add>) {
    (del_span_view(op.0@), add_span_view(op.1@))
}

/// Appends a deletion step, merging it into a preceding step of the same
/// counting kind; a count of zero adds nothing.
pub open spec fn del_place(past: Seq<Del>, e: Del) -> Seq<Del> {
    match e {
        Del::Skip(n) => if n == 0 {
            past
        } else if past.len() > 0 && past.last() is Skip {
            past.drop_last().push(Del::Skip(past.last()->Skip_0 + n))
        } else {
            past.push(e)
        },
        Del::Chars(n) => if n == 0 {
            past
        } else if past.len() > 0 && past.last() is Chars {
            past.drop_last().push(Del::Chars(past.last()->Chars_0 + n))
        } else {
            past.push(e)
        },
        _ => past.push(e),
    }
}

/// Appends an insertion step, merging it into a preceding step of the same
/// counting kind; a count of zero or an empty text adds nothing.
pub open spec fn add_place(past: Seq<Add>, e: Add) -> Seq<Add> {
    match e {
        Add::Skip(n) => if n == 0 {
            past
        } else if past.len() > 0 && past.last() is Skip {
            past.drop_last().push(Add::Skip(past.last()->Skip_0 + n))
        } else {
            past.push(e)
        },
        Add::Chars(s) => if s.len() == 0 {
            past
        } else if past.len() > 0 && past.last() is Chars {
            past.drop_last().push(Add::Chars(past.last()->Chars_0 + s))
        } else {
            past.push(e)
        },
        _ => past.push(e),
    }
}

/// A merge of counts stays within `usize`.
pub open spec fn del_fits(past: Seq<Del>, e: Del) -> bool {
    match e {
        Del::Skip(n) => past.len() > 0 && past.last() is Skip ==> past.last()->Skip_0 + n
            <= usize::MAX,
        Del::Chars(n) => past.len() > 0 && past.last() is Chars ==> past.last()->Chars_0 + n
            <= usize::MAX,
        _ => true,
    }
}

pub open spec fn add_fits(past: Seq<Add>, e: Add) -> bool {
    match e {
        Add::Skip(n) => past.len() > 0 && past.last() is Skip ==> past.last()->Skip_0 + n
            <= usize::MAX,
        _ => true,
    }
}

/// The state of a deletion writer: the finished steps of the current
/// level, and those of each enclosing level.
pub struct DelState {
    pub past: Seq<Del>,
    pub stack: Seq<Seq<Del>>,
}

pub struct AddState {
    pub past: Seq<Add>,
    pub stack: Seq<Seq<Add>>,
}

impl DelState {
    pub open spec fn place(self, e: Del) -> DelState {
        DelState { past: del_place(self.past, e), stack: self.stack }
    }

    pub open spec fn begin(self) -> DelState {
        DelState { past: Seq::empty(), stack: self.stack.push(self.past) }
    }

    pub open spec fn exit(self) -> DelState {
        DelState {
            past: del_place(self.stack.last(), Del::WithGroup(self.past)),
            stack: self.stack.drop_last(),
        }
    }

    pub open spec fn close(self) -> DelState {
        DelState {
            past: del_place(self.stack.last(), Del::Group(self.past)),
            stack: self.stack.drop_last(),
        }
    }

    pub open spec fn exit_all(self) -> DelState
        decreases self.stack.len(),
    {
        if self.stack.len() == 0 {
            self
        } else {
            self.exit().exit_all()
        }
    }
}

impl AddState {
    pub open spec fn place(self, e: Add) -> AddState {
        AddState { past: add_place(self.past, e), stack: self.stack }
    }

    pub open spec fn begin(self) -> AddState {
        AddState { past: Seq::empty(), stack: self.stack.push(self.past) }
    }

    pub open spec fn exit(self) -> AddState {
        AddState {
            past: add_place(self.stack.last(), Add::WithGroup(self.past)),
            stack: self.stack.drop_last(),
        }
    }

    pub open spec fn close(self, a: AttrsV) -> AddState {
        AddState {
            past: add_place(self.stack.last(), Add::Group(a, self.past)),
            stack: self.stack.drop_last(),
        }
    }

    pub open spec fn exit_all(self) -> AddState
        decreases self.stack.len(),
    {
        if self.stack.len() == 0 {
            self
        } else {
            self.exit().exit_all()
        }
    }
}

proof fn lemma_del_span_push(s: Seq<DelElement>, e: DelElement)
    ensures
        del_span_view(s.push(e)) == del_span_view(s).push(del_view(e)),
{
    assert(s.push(e).drop_last() =~= s);
}

proof fn lemma_add_span_push(s: Seq<AddElement>, e: AddElement)
    ensures
        add_span_view(s.push(e)) == add_span_view(s).push(add_view(e)),
{
    assert(s.push(e).drop_last() =~= s);
}

proof fn lemma_del_stack_push(s: Seq<Vec<DelElement>>, e: Vec<DelElement>)
    ensures
        del_stack_view(s.push(e)) == del_stack_view(s).push(del_span_view(e@)),
{
    assert(s.push(e).drop_last() =~= s);
}

proof fn lemma_add_stack_push(s: Seq<Vec<AddElement>>, e: Vec<AddElement>)
    ensures
        add_stack_view(s.push(e)) == add_stack_view(s).push(add_span_view(e@)),
{
    assert(s.push(e).drop_last() =~= s);
}

proof fn lemma_del_stack_len(s: Seq<Vec<DelElement>>)
    ensures
        del_stack_view(s).len() == s.len(),
    decreases s.len(),
{
    if s.len() > 0 {
        lemma_del_stack_len(s.drop_last());
    }
}

proof fn lemma_add_stack_len(s: Seq<Vec<AddElement>>)
    ensures
        add_stack_view(s).len() == s.len(),
    decreases s.len(),
{
    if s.len() > 0 {
        lemma_add_stack_len(s.drop_last());
    }
}

proof fn lemma_del_span_len(s: Seq<DelElement>)
    ensures
        del_span_view(s).len() == s.len(),
    decreases s.len(),
{
    if s.len() > 0 {
        lemma_del_span_len(s.drop_last());
    }
}

proof fn lemma_add_span_len(s: Seq<AddElement>)
    ensures
        add_span_view(s).len() == s.len(),
    decreases s.len(),
{
    if s.len() > 0 {
        lemma_add_span_len(s.drop_last());
    }
}

/// Appends a deletion step to a span, merging counts as `del_place` says.
fn del_span_place(past: &mut Vec<DelElement>, e: DelElement)
    requires
        del_fits(del_span_view(old(past)@), del_view(e)),
    ensures
        del_span_view(final(past)@) == del_place(del_span_view(old(past)@), del_view(e)),
{
    proof {
        lemma_del_span_len(past@);
    }
    let ghost before = past@;
    match e {
        DelElement::DelSkip(n) => {
            if n == 0 {
                return ;
            }
            let merged = match past.last() {
                Some(DelElement::DelSkip(m)) => Some(*m),
                _ => None,
            };
            match merged {
                Some(m) => {
                    assert(before.drop_last().push(before.last()) =~= before);
                    let _ = past.pop();
                    proof {
                        lemma_del_span_push(past@, DelElement::DelSkip(m));
                    }
                    let ghost mid = past@;
                    past.push(DelElement::DelSkip(m + n));
                    proof {
                        lemma_del_span_push(mid, DelElement::DelSkip((m + n) as usize));
                    }
                },
                None => {
                    past.push(DelElement::DelSkip(n));
                    proof {
                        lemma_del_span_push(before, DelElement::DelSkip(n));
                    }
                },
            }
        },
        DelElement::DelChars(n) => {
            if n == 0 {
                return ;
            }
            let merged = match past.last() {
                Some(DelElement::DelChars(m)) => Some(*m),
                _ => None,
            };
            match merged {
                Some(m) => {
                    assert(before.drop_last().push(before.last()) =~= before);
                    let _ = past.pop();
                    proof {
                        lemma_del_span_push(past@, DelElement::DelChars(m));
                    }
                    let ghost mid = past@;
                    past.push(DelElement::DelChars(m + n));
                    proof {
                        lemma_del_span_push(mid, DelElement::DelChars((m + n) as usize));
                    }
                },
                None => {
                    past.push(DelElement::DelChars(n));
                    proof {
                        lemma_del_span_push(before, DelElement::DelChars(n));
                    }
                },
            }
        },
        other => {
            past.push(other);
            proof {
                lemma_del_span_push(before, other);
            }
        },
    }
}


/// Appends an insertion step to a span, merging counts and texts as
/// `add_place` says.
fn add_span_place(past: &mut Vec<AddElement>, e: AddElement)
    requires
        add_fits(add_span_view(old(past)@), add_view(e)),
    ensures
        add_span_view(final(past)@) == add_place(add_span_view(old(past)@), add_view(e)),
{
    proof {
        lemma_add_span_len(past@);
    }
    let ghost before = past@;
    match e {
        AddElement::AddSkip(n) => {
            if n == 0 {
                return ;
            }
            let merged = match past.last() {
                Some(AddElement::AddSkip(m)) => Some(*m),
                _ => None,
            };
            match merged {
                Some(m) => {
                    assert(before.drop_last().push(before.last()) =~= before);
                    let _ = past.pop();
                    proof {
                        lemma_add_span_push(past@, AddElement::AddSkip(m));
                    }
                    let ghost mid = past@;
                    past.push(AddElement::AddSkip(m + n));
                    proof {
                        lemma_add_span_push(mid, AddElement::AddSkip((m + n) as usize));
                    }
                },
                None => {
                    past.push(AddElement::AddSkip(n));
                    proof {
                        lemma_add_span_push(before, AddElement::AddSkip(n));
                    }
                },
            }
        },
        AddElement::AddChars(text) => {
            if text.as_str().unicode_len() == 0 {
                return ;
            }
            let mergeable = match past.last() {
                Some(AddElement::AddChars(_)) => true,
                _ => false,
            };
            if mergeable {
                assert(before.drop_last().push(before.last()) =~= before);
                let last = past.pop();
                match last {
                    Some(AddElement::AddChars(prefix)) => {
                        proof {
                            lemma_add_span_push(past@, AddElement::AddChars(prefix));
                        }
                        let ghost mid = past@;
                        let joined = prefix.concat(text.as_str());
                        past.push(AddElement::AddChars(joined));
                        proof {
                            lemma_add_span_push(mid, AddElement::AddChars(joined));
                        }
                    },
                    _ => {},
                }
            } else {
                let ghost ev = AddElement::AddChars(text);
                past.push(AddElement::AddChars(text));
                proof {
                    lemma_add_span_push(before, ev);
                }
            }
        },
        other => {
            past.push(other);
            proof {
                lemma_add_span_push(before, other);
            }
        },
    }
}

/// Builds a deletion span step by step.
#[derive(Debug)]
pub struct DelWriter {
    past: Vec<DelElement>,
    stack: Vec<Vec<DelElement>>,
}

impl View for DelWriter {
    type V = DelState;

    closed spec fn view(&self) -> DelState {
        DelState { past: del_span_view(self.past@), stack: del_stack_view(self.stack@) }
    }
}

impl DelWriter {
    /// A writer with nothing written.
    pub fn new() -> (r: DelWriter)
        ensures
            r@ == (DelState { past: Seq::empty(), stack: Seq::empty() }),
    {
        DelWriter { past: Vec::new(), stack: Vec::new() }
    }

    /// Appends a step at the current level.
    pub fn place(&mut self, e: DelElement)
        requires
            del_fits(old(self)@.past, del_view(e)),
        ensures
            final(self)@ == old(self)@.place(del_view(e)),
    {
        del_span_place(&mut self.past, e);
    }

    /// Keeps `n` units.
    pub fn skip(&mut self, n: usize)
        requires
            del_fits(old(self)@.past, Del::Skip(n as nat)),
        ensures
            final(self)@ == old(self)@.place(Del::Skip(n as nat)),
    {
        self.place(DelElement::DelSkip(n));
    }

    /// Deletes `n` characters.
    pub fn chars(&mut self, n: usize)
        requires
            del_fits(old(self)@.past, Del::Chars(n as nat)),
        ensures
            final(self)@ == old(self)@.place(Del::Chars(n as nat)),
    {
        self.place(DelElement::DelChars(n));
    }

    /// Deletes a group, walking its content with `span`.
    pub fn group(&mut self, span: DelSpan)
        ensures
            final(self)@ == old(self)@.place(Del::Group(del_span_view(span@))),
    {
        self.place(DelElement::DelGroup(span));
    }

    /// Starts a new level, inside a group.
    pub fn begin(&mut self)
        ensures
            final(self)@ == old(self)@.begin(),
    {
        let mut fresh: Vec<DelElement> = Vec::new();
        std::mem::swap(&mut fresh, &mut self.past);
        let ghost before = self.stack@;
        self.stack.push(fresh);
        proof {
            lemma_del_stack_push(before, fresh);
        }
    }

    /// Ends the current level, keeping the group it was in.
    pub fn exit(&mut self)
        requires
            old(self)@.stack.len() > 0,
        ensures
            final(self)@ == old(self)@.exit(),
    {
        self.finish(false);
    }

    /// Ends the current level, deleting the group it was in.
    pub fn close(&mut self)
        requires
            old(self)@.stack.len() > 0,
        ensures
            final(self)@ == old(self)@.close(),
    {
        self.finish(true);
    }

    fn finish(&mut self, delete: bool)
        requires
            old(self)@.stack.len() > 0,
        ensures
            final(self)@ == if delete {
                old(self)@.close()
            } else {
                old(self)@.exit()
            },
    {
        proof {
            lemma_del_stack_len(self.stack@);
            assert(self.stack@.drop_last().push(self.stack@.last()) =~= self.stack@);
            lemma_del_stack_push(self.stack@.drop_last(), self.stack@.last());
        }
        let ghost sv = del_stack_view(self.stack@);
        let mut outer = self.stack.pop().unwrap();
        assert(del_stack_view(self.stack@) =~= sv.drop_last());
        let mut inner: Vec<DelElement> = Vec::new();
        std::mem::swap(&mut inner, &mut self.past);
        let e = if delete {
            DelElement::DelGroup(inner)
        } else {
            DelElement::DelWithGroup(inner)
        };
        del_span_place(&mut outer, e);
        self.past = outer;
    }

    /// Ends every open level.
    pub fn exit_all(&mut self)
        ensures
            final(self)@ == old(self)@.exit_all(),
    {
        proof {
            lemma_del_stack_len(self.stack@);
        }
        while self.stack.len() > 0
            invariant
                self@.exit_all() == old(self)@.exit_all(),
                del_stack_view(self.stack@).len() == self.stack@.len(),
            decreases self.stack@.len(),
        {
            self.exit();
            proof {
                lemma_del_stack_len(self.stack@);
            }
        }
    }

    /// The finished span; every level must have ended.
    pub fn result(self) -> (r: DelSpan)
        requires
            self@.stack.len() == 0,
        ensures
            del_span_view(r@) == self@.past,
    {
        self.past
    }
}

/// Builds an insertion span step by step.
#[derive(Debug)]
pub struct AddWriter {
    past: Vec<AddElement>,
    stack: Vec<Vec<AddElement>>,
}

impl View for AddWriter {
    type V = AddState;

    closed spec fn view(&self) -> AddState {
        AddState { past: add_span_view(self.past@), stack: add_stack_view(self.stack@) }
    }
}

impl AddWriter {
    /// A writer with nothing written.
    pub fn new() -> (r: AddWriter)
        ensures
            r@ == (AddState { past: Seq::empty(), stack: Seq::empty() }),
    {
        AddWriter { past: Vec::new(), stack: Vec::new() }
    }

    /// Appends a step at the current level.
    pub fn place(&mut self, e: AddElement)
        requires
            add_fits(old(self)@.past, add_view(e)),
        ensures
            final(self)@ == old(self)@.place(add_view(e)),
    {
        add_span_place(&mut self.past, e);
    }

    /// Keeps `n` units.
    pub fn skip(&mut self, n: usize)
        requires
            add_fits(old(self)@.past, Add::Skip(n as nat)),
        ensures
            final(self)@ == old(self)@.place(Add::Skip(n as nat)),
    {
        self.place(AddElement::AddSkip(n));
    }

    /// Inserts the characters of `text`.
    pub fn chars(&mut self, text: &str)
        ensures
            final(self)@ == old(self)@.place(Add::Chars(text@)),
    {
        self.place(AddElement::AddChars(text.to_owned()));
    }

    /// Inserts a group with attributes `attrs` around what `span` walks.
    pub fn group(&mut self, attrs: Attrs, span: AddSpan)
        ensures
            final(self)@ == old(self)@.place(Add::Group(attrs@, add_span_view(span@))),
    {
        self.place(AddElement::AddGroup(attrs, span));
    }

    /// Starts a new level, inside a group.
    pub fn begin(&mut self)
        ensures
            final(self)@ == old(self)@.begin(),
    {
        let mut fresh: Vec<AddElement> = Vec::new();
        std::mem::swap(&mut fresh, &mut self.past);
        let ghost before = self.stack@;
        self.stack.push(fresh);
        proof {
            lemma_add_stack_push(before, fresh);
        }
    }

    /// Ends the current level, keeping the group it was in.
    pub fn exit(&mut self)
        requires
            old(self)@.stack.len() > 0,
        ensures
            final(self)@ == old(self)@.exit(),
    {
        proof {
            lemma_add_stack_len(self.stack@);
            assert(self.stack@.drop_last().push(self.stack@.last()) =~= self.stack@);
            lemma_add_stack_push(self.stack@.drop_last(), self.stack@.last());
        }
        let ghost sv = add_stack_view(self.stack@);
        let mut outer = self.stack.pop().unwrap();
        assert(add_stack_view(self.stack@) =~= sv.drop_last());
        let mut inner: Vec<AddElement> = Vec::new();
        std::mem::swap(&mut inner, &mut self.past);
        add_span_place(&mut outer, AddElement::AddWithGroup(inner));
        self.past = outer;
    }

    /// Ends the current level, inserting a group with attributes `attrs`
    /// around what it walked.
    pub fn close(&mut self, attrs: Attrs)
        requires
            old(self)@.stack.len() > 0,
        ensures
            final(self)@ == old(self)@.close(attrs@),
    {
        proof {
            lemma_add_stack_len(self.stack@);
            assert(self.stack@.drop_last().push(self.stack@.last()) =~= self.stack@);
            lemma_add_stack_push(self.stack@.drop_last(), self.stack@.last());
        }
        let ghost sv = add_stack_view(self.stack@);
        let mut outer = self.stack.pop().unwrap();
        assert(add_stack_view(self.stack@) =~= sv.drop_last());
        let mut inner: Vec<AddElement> = Vec::new();
        std::mem::swap(&mut inner, &mut self.past);
        add_span_place(&mut outer, AddElement::AddGroup(attrs, inner));
        self.past = outer;
    }

    /// Ends every open level.
    pub fn exit_all(&mut self)
        ensures
            final(self)@ == old(self)@.exit_all(),
    {
        proof {
            lemma_add_stack_len(self.stack@);
        }
        while self.stack.len() > 0
            invariant
                self@.exit_all() == old(self)@.exit_all(),
                add_stack_view(self.stack@).len() == self.stack@.len(),
            decreases self.stack@.len(),
        {
            self.exit();
            proof {
                lemma_add_stack_len(self.stack@);
            }
        }
    }

    /// The finished span; every level must have ended.
    pub fn result(self) -> (r: AddSpan)
        requires
            self@.stack.len() == 0,
        ensures
            add_span_view(r@) == self@.past,
    {
        self.past
    }
}

/// A pair of writers that build an operation together.
#[derive(Debug)]
pub struct OpWriter {
    pub del: DelWriter,
    pub add: AddWriter,
}

impl OpWriter {
    /// The finished operation; every level of both writers must have ended.
    pub fn result(self) -> (r: Op)
        requires
            self.del@.stack.len() == 0,
            self.add@.stack.len() == 0,
        ensures
            op_view(r) == (self.del@.past, self.add@.past),
    {
        (self.del.result(), self.add.result())
    }
}


/// A span of the single step `e`.
pub fn del_single(e: DelElement) -> (r: DelSpan)
    ensures
        del_span_view(r@) == seq![del_view(e)],
{
    let mut v: Vec<DelElement> = Vec::new();
    let ghost ev = del_view(e);
    proof {
        lemma_del_span_push(v@, e);
        assert(del_span_view(v@) =~= Seq::<Del>::empty());
    }
    v.push(e);
    assert(del_span_view(v@) =~= seq![ev]);
    v
}

/// A span of the single step `e`.
pub fn add_single(e: AddElement) -> (r: AddSpan)
    ensures
        add_span_view(r@) == seq![add_view(e)],
{
    let mut v: Vec<AddElement> = Vec::new();
    let ghost ev = add_view(e);
    proof {
        lemma_add_span_push(v@, e);
        assert(add_span_view(v@) =~= Seq::<Add>::empty());
    }
    v.push(e);
    assert(add_span_view(v@) =~= seq![ev]);
    v
}

/// Ending every level leaves none open.
pub proof fn lemma_del_exit_all(w: DelState)
    ensures
        w.exit_all().stack.len() == 0,
    decreases w.stack.len(),
{
    if w.stack.len() > 0 {
        lemma_del_exit_all(w.exit());
    }
}

/// Ending every level leaves none open.
pub proof fn lemma_add_exit_all(w: AddState)
    ensures
        w.exit_all().stack.len() == 0,
    decreases w.stack.len(),
{
    if w.stack.len() > 0 {
        lemma_add_exit_all(w.exit());
    }
}

/// The deletion steps remove nothing: each one skips, or descends into a
/// group and removes nothing there.
pub open spec fn del_keeps(s: Seq<Del>) -> bool
    decreases s,
{
    if s.len() == 0 {
        true
    } else {
        del_keeps(s.drop_last()) && del_step_keeps(s.last())
    }
}

/// The deletion step removes nothing.
pub open spec fn del_step_keeps(e: Del) -> bool
    decreases e,
{
    match e {
        Del::Skip(_) => true,
        Del::WithGroup(c) => del_keeps(c),
        _ => false,
    }
}

/// The insertion steps insert nothing: each one skips, or descends into a
/// group and inserts nothing there.
pub open spec fn add_keeps(s: Seq<Add>) -> bool
    decreases s,
{
    if s.len() == 0 {
        true
    } else {
        add_keeps(s.drop_last()) && add_step_keeps(s.last())
    }
}

/// The insertion step inserts nothing.
pub open spec fn add_step_keeps(e: Add) -> bool
    decreases e,
{
    match e {
        Add::Skip(_) => true,
        Add::WithGroup(c) => add_keeps(c),
        _ => false,
    }
}

impl DelState {
    /// Neither the finished steps nor any open level remove anything.
    pub open spec fn keeps(self) -> bool {
        &&& del_keeps(self.past)
        &&& forall|i: int| 0 <= i < self.stack.len() ==> #[trigger] del_keeps(self.stack[i])
    }
}

impl AddState {
    /// Neither the finished steps nor any open level insert anything.
    pub open spec fn keeps(self) -> bool {
        &&& add_keeps(self.past)
        &&& forall|i: int| 0 <= i < self.stack.len() ==> #[trigger] add_keeps(self.stack[i])
    }
}

/// Placing a skip, beginning a level and ending a level keep a deletion
/// writer that removes nothing so.
pub proof fn lemma_del_keeps_steps(w: DelState, n: nat)
    requires
        w.keeps(),
    ensures
        w.place(Del::Skip(n)).keeps(),
        w.begin().keeps(),
        w.stack.len() > 0 ==> w.exit().keeps(),
{
    let p = w.past;
    if n > 0 && p.len() > 0 && p.last() is Skip {
        let q = p.drop_last().push(Del::Skip(p.last()->Skip_0 + n));
        assert(q.drop_last() =~= p.drop_last());
        assert(del_keeps(p.drop_last()));
        assert(del_step_keeps(q.last()));
        assert(del_keeps(q));
        assert(w.place(Del::Skip(n)).past == q);
    } else if n > 0 {
        let q = p.push(Del::Skip(n));
        assert(q.drop_last() =~= p);
        assert(del_step_keeps(q.last()));
        assert(del_keeps(q));
        assert(w.place(Del::Skip(n)).past == q);
    }
    let b = w.begin();
    assert(b.past =~= Seq::<Del>::empty());
    assert forall|i: int| 0 <= i < b.stack.len() implies #[trigger] del_keeps(b.stack[i]) by {
        if i < w.stack.len() {
            assert(b.stack[i] == w.stack[i]);
        }
    }
    if w.stack.len() > 0 {
        let top = w.stack.last();
        assert(del_keeps(w.stack[w.stack.len() - 1]));
        assert(top.push(Del::WithGroup(p)).drop_last() =~= top);
        assert(del_step_keeps(Del::WithGroup(p)));
        let x = w.exit();
        assert forall|i: int| 0 <= i < x.stack.len() implies #[trigger] del_keeps(x.stack[i]) by {
            assert(x.stack[i] == w.stack[i]);
        }
    }
}

/// Placing a skip, beginning a level and ending a level keep an insertion
/// writer that inserts nothing so.
pub proof fn lemma_add_keeps_steps(w: AddState, n: nat)
    requires
        w.keeps(),
    ensures
        w.place(Add::Skip(n)).keeps(),
        w.begin().keeps(),
        w.stack.len() > 0 ==> w.exit().keeps(),
{
    let p = w.past;
    if n > 0 && p.len() > 0 && p.last() is Skip {
        let q = p.drop_last().push(Add::Skip(p.last()->Skip_0 + n));
        assert(q.drop_last() =~= p.drop_last());
        assert(add_keeps(p.drop_last()));
        assert(add_step_keeps(q.last()));
        assert(add_keeps(q));
        assert(w.place(Add::Skip(n)).past == q);
    } else if n > 0 {
        let q = p.push(Add::Skip(n));
        assert(q.drop_last() =~= p);
        assert(add_step_keeps(q.last()));
        assert(add_keeps(q));
        assert(w.place(Add::Skip(n)).past == q);
    }
    let b = w.begin();
    assert(b.past =~= Seq::<Add>::empty());
    assert forall|i: int| 0 <= i < b.stack.len() implies #[trigger] add_keeps(b.stack[i]) by {
        if i < w.stack.len() {
            assert(b.stack[i] == w.stack[i]);
        }
    }
    if w.stack.len() > 0 {
        let top = w.stack.last();
        assert(add_keeps(w.stack[w.stack.len() - 1]));
        assert(top.push(Add::WithGroup(p)).drop_last() =~= top);
        assert(add_step_keeps(Add::WithGroup(p)));
        let x = w.exit();
        assert forall|i: int| 0 <= i < x.stack.len() implies #[trigger] add_keeps(x.stack[i]) by {
            assert(x.stack[i] == w.stack[i]);
        }
    }
}

/// Ending every level of a writer that removes nothing leaves finished
/// steps that remove nothing.
pub proof fn lemma_del_keeps_exit_all(w: DelState)
    requires
        w.keeps(),
    ensures
        del_keeps(w.exit_all().past),
    decreases w.stack.len(),
{
    if w.stack.len() > 0 {
        lemma_del_keeps_steps(w, 0);
        lemma_del_keeps_exit_all(w.exit());
    }
}

/// Ending every level of a writer that inserts nothing leaves finished
/// steps that insert nothing.
pub proof fn lemma_add_keeps_exit_all(w: AddState)
    requires
        w.keeps(),
    ensures
        add_keeps(w.exit_all().past),
    decreases w.stack.len(),
{
    if w.stack.len() > 0 {
        lemma_add_keeps_steps(w, 0);
        lemma_add_keeps_exit_all(w.exit());
    }
}

} // verus!
