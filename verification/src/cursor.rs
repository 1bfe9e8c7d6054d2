//! Cursor spans: a description of a position in a document, as a walk of
//! skips and group entries that ends at the cursor.

use vstd::prelude::*;

verus! {

/// One step of a cursor span.
#[derive(Debug, PartialEq)]
pub enum CurElement {
    /// Skip this many units.
    CurSkip(usize),
    /// Enter a group and walk its content with the inner span.
    CurWithGroup(Vec<CurElement>),
    /// The cursor stands before this group.
    CurGroup,
    /// The cursor stands before this character.
    CurChar,
}

pub type CurSpan = Vec<CurElement>;

/// One token of a cursor span's stream.
#[derive(PartialEq, Eq, Structural, Clone, Copy, Debug)]
pub enum CurToken {
    Skip(usize),
    Open,
    Close,
    Group,
    Char,
}

/// The token stream of a cursor element.
pub open spec fn flat_cur_elem(e: CurElement) -> Seq<CurToken>
    decreases e,
{
    match e {
        CurElement::CurSkip(n) => seq![CurToken::Skip(n)],
        CurElement::CurWithGroup(s) => seq![CurToken::Open] + flat_cur_span(s@) + seq![CurToken::Close],
        CurElement::CurGroup => seq![CurToken::Group],
        CurElement::CurChar => seq![CurToken::Char],
    }
}

/// The token stream of a cursor span.
pub open spec fn flat_cur_span(s: Seq<CurElement>) -> Seq<CurToken>
    decreases s,
{
    if s.len() == 0 {
        Seq::empty()
    } else {
        flat_cur_span(s.drop_last()) + flat_cur_elem(s.last())
    }
}

fn flatten_cur(e: &CurElement, out: &mut Vec<CurToken>)
    ensures
        final(out)@ == old(out)@ + flat_cur_elem(*e),
    decreases e,
{
    match e {
        CurElement::CurSkip(n) => out.push(CurToken::Skip(*n)),
        CurElement::CurGroup => out.push(CurToken::Group),
        CurElement::CurChar => out.push(CurToken::Char),
        CurElement::CurWithGroup(span) => {
            let ghost start = out@;
            out.push(CurToken::Open);
            proof {
                let ev: CurElement = *e;
                assert(decreases_to!(ev => ev->CurWithGroup_0));
            }
            let mut i: usize = 0;
            while i < span.len()
                invariant
                    0 <= i <= span@.len(),
                    out@ == start + seq![CurToken::Open] + flat_cur_span(span@.take(i as int)),
                    decreases_to!(*e => *span),
                decreases span@.len() - i,
            {
                proof {
                    broadcast use vstd::std_specs::vec::axiom_vec_index_decreases;
                    assert(decreases_to!(*span => span[i as int]));
                    assert(span@.take(i + 1).drop_last() =~= span@.take(i as int));
                }
                flatten_cur(&span[i], out);
                i += 1;
            }
            assert(span@.take(span@.len() as int) =~= span@);
            out.push(CurToken::Close);
            assert(out@ =~= start + flat_cur_elem(*e));
        },
    }
}

/// A position in a cursor span's token stream.
pub struct CurStepper {
    tokens: Vec<CurToken>,
    pos: usize,
}

impl CurStepper {
    /// The token stream of the cursor span.
    pub closed spec fn tokens(&self) -> Seq<CurToken> {
        self.tokens@
    }

    /// The position in that stream.
    pub closed spec fn pos(&self) -> int {
        self.pos as int
    }

    pub open spec fn wf(&self) -> bool {
        0 <= self.pos() <= self.tokens().len()
    }

    /// A stepper at the start of `span`.
    pub fn new(span: &CurSpan) -> (r: CurStepper)
        ensures
            r.wf(),
            r.tokens() == flat_cur_span(span@),
            r.pos() == 0,
    {
        let mut toks: Vec<CurToken> = Vec::new();
        let mut i: usize = 0;
        while i < span.len()
            invariant
                0 <= i <= span@.len(),
                toks@ == flat_cur_span(span@.take(i as int)),
            decreases span@.len() - i,
        {
            proof {
                assert(span@.take(i + 1).drop_last() =~= span@.take(i as int));
            }
            flatten_cur(&span[i], &mut toks);
            i += 1;
        }
        assert(span@.take(span@.len() as int) =~= span@);
        CurStepper { tokens: toks, pos: 0 }
    }

    /// The token at the stepper, if any.
    pub fn peek(&self) -> (r: Option<&CurToken>)
        requires
            self.wf(),
        ensures
            r is None <==> self.pos() == self.tokens().len(),
            r matches Some(tok) ==> *tok == self.tokens()[self.pos()],
    {
        if self.pos < self.tokens.len() {
            Some(&self.tokens[self.pos])
        } else {
            None
        }
    }

    /// Moves past the token at the stepper (a skip).
    pub fn next(&mut self)
        requires
            old(self).wf(),
            old(self).pos() < old(self).tokens().len(),
        ensures
            final(self).wf(),
            final(self).tokens() == old(self).tokens(),
            final(self).pos() == old(self).pos() + 1,
    {
        proof {
            broadcast use vstd::std_specs::vec::axiom_spec_len;
            assert(self.tokens@.len() == self.tokens.len());
        }
        self.pos = self.pos + 1;
    }

    /// Moves into the group at the stepper.
    pub fn enter(&mut self)
        requires
            old(self).wf(),
            old(self).pos() < old(self).tokens().len(),
            old(self).tokens()[old(self).pos()] == CurToken::Open,
        ensures
            final(self).wf(),
            final(self).tokens() == old(self).tokens(),
            final(self).pos() == old(self).pos() + 1,
    {
        proof {
            broadcast use vstd::std_specs::vec::axiom_spec_len;
            assert(self.tokens@.len() == self.tokens.len());
        }
        self.pos = self.pos + 1;
    }

    /// Moves out of the current group.
    pub fn exit(&mut self)
        requires
            old(self).wf(),
            old(self).pos() < old(self).tokens().len(),
            old(self).tokens()[old(self).pos()] == CurToken::Close,
        ensures
            final(self).wf(),
            final(self).tokens() == old(self).tokens(),
            final(self).pos() == old(self).pos() + 1,
    {
        proof {
            broadcast use vstd::std_specs::vec::axiom_spec_len;
            assert(self.tokens@.len() == self.tokens.len());
        }
        self.pos = self.pos + 1;
    }

    /// The stepper is at the end of the span.
    pub fn is_done(&self) -> (r: bool)
        requires
            self.wf(),
        ensures
            r == (self.pos() == self.tokens().len()),
    {
        self.pos == self.tokens.len()
    }
}

} // verus!
