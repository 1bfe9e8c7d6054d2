//! A cursor over a document, kept as an index into the document's token stream.

use vstd::prelude::*;
use crate::doc::{
    balanced, canon_elem, canon_span, chars_tokens, depth, flat_elem, flat_span, lemma_chars_tokens, lemma_flat_span_balanced,
    lemma_flat_span_push, Attrs, DocElement, Token,
};
use crate::tokens::{
    char_run_end, char_run_start, elem_end, elem_start, is_char, is_close, is_open, lemma_char_run_end,
    lemma_char_run_start, lemma_depth_step, lemma_group_bounds, lemma_group_from_open, lemma_next_unit,
    lemma_span_end, lemma_depth_bound, lemma_chars_depth, lemma_span_units_bound, next_unit, open_attrs, skip_units, span_end, span_end_from, span_start,
    span_start_from, span_units,
};

verus! {

/// One token of a document, as stored by a stepper.
#[derive(Debug)]
pub enum DocToken {
    Open(Attrs),
    Char(char),
    Close,
}

impl View for DocToken {
    type V = Token;

    open spec fn view(&self) -> Token {
        match self {
            DocToken::Open(a) => Token::Open(a@),
            DocToken::Char(c) => Token::Char(*c as int),
            DocToken::Close => Token::Close,
        }
    }
}

/// The tokens that a vector of stored tokens stands for.
pub open spec fn toks_view(s: Seq<DocToken>) -> Seq<Token>
    decreases s.len(),
{
    if s.len() == 0 {
        Seq::empty()
    } else {
        toks_view(s.drop_last()).push(s.last()@)
    }
}

pub proof fn lemma_toks_view(s: Seq<DocToken>)
    ensures
        toks_view(s).len() == s.len(),
        forall|i: int| 0 <= i < s.len() ==> #[trigger] toks_view(s)[i] == s[i]@,
    decreases s.len(),
{
    if s.len() > 0 {
        lemma_toks_view(s.drop_last());
    }
}

proof fn lemma_toks_view_push(s: Seq<DocToken>, t: DocToken)
    ensures
        toks_view(s.push(t)) == toks_view(s).push(t@),
{
    assert(s.push(t).drop_last() =~= s);
}

/// Appends the tokens of `e` to `out`.
fn flatten_elem(e: &DocElement, out: &mut Vec<DocToken>)
    ensures
        toks_view(final(out)@) == toks_view(old(out)@) + flat_elem(*e),
    decreases e,
{
    match e {
        DocElement::DocChars(s) => {
            let ghost start = toks_view(out@);
            for c in it: s.as_str().chars()
                invariant
                    it.seq() == s@,
                    toks_view(out@) == start + chars_tokens(it.seq().take(it.index() as int)),
            {
                let ghost before = out@;
                proof {
                    lemma_toks_view_push(before, DocToken::Char(c));
                    assert(it.seq().take(it.index() + 1).drop_last() =~= it.seq().take(
                        it.index() as int,
                    ));
                }
                out.push(DocToken::Char(c));
            }
            assert(s@.take(s@.len() as int) =~= s@);
        },
        DocElement::DocGroup(a, span) => {
            let ghost start = toks_view(out@);
            let ghost before = out@;
            let open = DocToken::Open(a.clone());
            proof {
                lemma_toks_view_push(before, open);
            }
            out.push(open);
            proof {
                let ev: DocElement = *e;
                assert(decreases_to!(ev => ev->DocGroup_1));
            }
            let mut i: usize = 0;
            while i < span.len()
                invariant
                    0 <= i <= span@.len(),
                    toks_view(out@) == start + seq![Token::Open(a@)] + flat_span(span@.take(i as int)),
                    decreases_to!(*e => *span),
                decreases span@.len() - i,
            {
                proof {
                    broadcast use vstd::std_specs::vec::axiom_vec_index_decreases;
                    assert(decreases_to!(*span => span[i as int]));
                    assert(span@.take(i + 1).drop_last() =~= span@.take(i as int));
                }
                flatten_elem(&span[i], out);
                i += 1;
            }
            assert(span@.take(span@.len() as int) =~= span@);
            let ghost mid = out@;
            proof {
                lemma_toks_view_push(mid, DocToken::Close);
            }
            out.push(DocToken::Close);
            assert(toks_view(out@) =~= start + flat_elem(*e));
        },
    }
}

/// The index of the close token that ends the span containing `p`
/// (the length of the stream at top level).
fn find_span_end(toks: &Vec<DocToken>, p: usize) -> (r: usize)
    requires
        p <= toks@.len(),
    ensures
        r == span_end(toks_view(toks@), p as int),
{
    let ghost t = toks_view(toks@);
    let ghost d = depth(t, p as int);
    proof {
        lemma_toks_view(toks@);
    }
    let mut q = p;
    let mut rel: usize = 0;
    while q < toks.len()
        invariant
            p <= q <= toks@.len(),
            t == toks_view(toks@),
            t.len() == toks@.len(),
            forall|i: int| 0 <= i < t.len() ==> #[trigger] t[i] == toks@[i]@,
            d == depth(t, p as int),
            rel <= q - p,
            depth(t, q as int) == d + rel,
            span_end_from(t, d, q as int) == span_end(t, p as int),
        decreases toks@.len() - q,
    {
        proof {
            lemma_depth_step(t, q as int);
        }
        match &toks[q] {
            DocToken::Close => {
                if rel == 0 {
                    return q;
                }
                rel = rel - 1;
            },
            DocToken::Open(_) => {
                rel = rel + 1;
            },
            DocToken::Char(_) => {},
        }
        q = q + 1;
    }
    q
}

/// The position right after the open token of the group containing `q`
/// (0 at top level).
fn find_span_start(toks: &Vec<DocToken>, q: usize) -> (r: usize)
    requires
        q <= toks@.len(),
    ensures
        r == span_start(toks_view(toks@), q as int),
{
    let ghost t = toks_view(toks@);
    let ghost d = depth(t, q as int);
    proof {
        lemma_toks_view(toks@);
    }
    let mut r = q;
    let mut rel: usize = 0;
    while r > 0
        invariant
            r <= q <= toks@.len(),
            t == toks_view(toks@),
            t.len() == toks@.len(),
            forall|i: int| 0 <= i < t.len() ==> #[trigger] t[i] == toks@[i]@,
            d == depth(t, q as int),
            rel <= q - r,
            depth(t, r as int) == d + rel,
            span_start_from(t, d, r as int) == span_start(t, q as int),
        decreases r,
    {
        proof {
            lemma_depth_step(t, r - 1);
        }
        match &toks[r - 1] {
            DocToken::Open(_) => {
                if rel == 0 {
                    return r;
                }
                rel = rel - 1;
            },
            DocToken::Close => {
                rel = rel + 1;
            },
            DocToken::Char(_) => {},
        }
        r = r - 1;
    }
    0
}

/// The end of the run of characters starting at `p`.
fn find_char_run_end(toks: &Vec<DocToken>, p: usize) -> (r: usize)
    requires
        p <= toks@.len(),
    ensures
        r == char_run_end(toks_view(toks@), p as int),
{
    proof {
        lemma_toks_view(toks@);
    }
    let ghost t = toks_view(toks@);
    let mut j = p;
    while j < toks.len() && toks[j].is_char()
        invariant
            p <= j <= toks@.len(),
            t == toks_view(toks@),
            t.len() == toks@.len(),
            forall|i: int| 0 <= i < t.len() ==> #[trigger] t[i] == toks@[i]@,
            char_run_end(t, j as int) == char_run_end(t, p as int),
        decreases toks@.len() - j,
    {
        j = j + 1;
    }
    j
}

/// The start of the run of characters ending at `p`.
fn find_char_run_start(toks: &Vec<DocToken>, p: usize) -> (r: usize)
    requires
        p <= toks@.len(),
    ensures
        r == char_run_start(toks_view(toks@), p as int),
{
    proof {
        lemma_toks_view(toks@);
    }
    let ghost t = toks_view(toks@);
    let mut j = p;
    while j > 0 && toks[j - 1].is_char()
        invariant
            j <= p <= toks@.len(),
            t == toks_view(toks@),
            t.len() == toks@.len(),
            forall|i: int| 0 <= i < t.len() ==> #[trigger] t[i] == toks@[i]@,
            char_run_start(t, j as int) == char_run_start(t, p as int),
        decreases j,
    {
        j = j - 1;
    }
    j
}

/// The characters of the tokens in `[from, to)`, all of which are characters.
fn collect_chars(toks: &Vec<DocToken>, from: usize, to: usize) -> (r: String)
    requires
        from <= to <= toks@.len(),
        forall|x: int| from <= x < to ==> #[trigger] is_char(toks_view(toks@), x),
    ensures
        chars_tokens(r@) == toks_view(toks@).subrange(from as int, to as int),
{
    proof {
        lemma_toks_view(toks@);
    }
    let ghost t = toks_view(toks@);
    let mut s = String::new();
    let mut j = from;
    while j < to
        invariant
            from <= j <= to <= toks@.len(),
            t == toks_view(toks@),
            t.len() == toks@.len(),
            forall|i: int| 0 <= i < t.len() ==> #[trigger] t[i] == toks@[i]@,
            forall|x: int| from <= x < to ==> #[trigger] is_char(t, x),
            chars_tokens(s@) == t.subrange(from as int, j as int),
        decreases to - j,
    {
        assert(is_char(t, j as int));
        match &toks[j] {
            DocToken::Char(c) => {
                let ghost before = s@;
                push_char(&mut s, *c);
                assert(s@.drop_last() =~= before);
                assert(t.subrange(from as int, j + 1) =~= t.subrange(from as int, j as int).push(
                    t[j as int],
                ));
            },
            _ => {},
        }
        j = j + 1;
    }
    s
}

/// Appends a character to a string (std's `String::push`).
#[verifier::external_body]
pub fn push_char(s: &mut String, c: char)
    ensures
        final(s)@ == old(s)@.push(c),
{
    s.push(c);
}

/// Rebuilds the elements of the span that starts at `lo`, inside a group.
fn parse_span(toks: &Vec<DocToken>, lo: usize) -> (r: (Vec<DocElement>, usize))
    requires
        lo <= toks@.len(),
        balanced(toks_view(toks@)),
        depth(toks_view(toks@), lo as int) >= 1,
    ensures
        r.1 == span_end(toks_view(toks@), lo as int),
        r.1 < toks@.len(),
        flat_span(r.0@) == toks_view(toks@).subrange(lo as int, r.1 as int),
        canon_span(r.0@),
    decreases toks@.len() - lo,
{
    proof {
        lemma_toks_view(toks@);
    }
    let ghost t = toks_view(toks@);
    let ghost d = depth(t, lo as int);
    proof {
        lemma_span_end(t, lo as int);
    }
    let ghost e = span_end(t, lo as int);
    let mut out: Vec<DocElement> = Vec::new();
    let mut j = lo;
    while j < toks.len() && !toks[j].is_close()
        invariant
            lo <= j <= e,
            e == span_end(t, lo as int),
            e < toks@.len(),
            t == toks_view(toks@),
            t.len() == toks@.len(),
            forall|i: int| 0 <= i < t.len() ==> #[trigger] t[i] == toks@[i]@,
            balanced(t),
            d == depth(t, lo as int),
            d >= 1,
            depth(t, j as int) == d,
            forall|x: int| lo <= x < e ==> !(#[trigger] is_close(t, x) && depth(t, x) == d),
            e < t.len() ==> is_close(t, e) && depth(t, e) == d,
            flat_span(out@) == t.subrange(lo as int, j as int),
            canon_span(out@),
            out@.len() > 0 && out@.last() is DocChars ==> !is_char(t, j as int),
        decreases toks@.len() - j,
    {
        if toks[j].is_char() {
            let k = find_char_run_end(toks, j);
            proof {
                lemma_char_run_end(t, j as int);
                if e < k {
                    assert(is_char(t, e));
                }
            }
            let s = collect_chars(toks, j, k);
            let ghost before = out@;
            let el = DocElement::DocChars(s);
            proof {
                assert(is_char(t, j as int));
                assert(char_run_end(t, j as int) == char_run_end(t, j + 1));
                lemma_char_run_end(t, j + 1);
                lemma_chars_tokens(s@);
                assert(s@.len() > 0);
                assert(canon_elem(el));
                assert(before.push(el).drop_last() =~= before);
                lemma_flat_span_push(before, el);
                assert(t.subrange(lo as int, k as int) =~= t.subrange(lo as int, j as int)
                    + t.subrange(j as int, k as int));
            }
            out.push(el);
            j = k;
        } else {
            assert(is_open(t, j as int));
            proof {
                lemma_group_from_open(t, j as int);
                lemma_depth_step(t, j as int);
            }
            let (children, c) = parse_span(toks, j + 1);
            proof {
                if e <= c {
                    assert(depth(t, e) > d || e == j);
                }
            }
            let attrs = match &toks[j] {
                DocToken::Open(a) => a.clone(),
                _ => Attrs::new(),
            };
            let ghost before = out@;
            let el = DocElement::DocGroup(attrs, children);
            proof {
                assert(canon_elem(el));
                assert(before.push(el).drop_last() =~= before);
                lemma_flat_span_push(before, el);
                assert(flat_elem(el) =~= t.subrange(j as int, c + 1));
                assert(t.subrange(lo as int, c + 1) =~= t.subrange(lo as int, j as int)
                    + t.subrange(j as int, c + 1));
            }
            out.push(el);
            j = c + 1;
        }
    }
    assert(is_close(t, j as int));
    (out, j)
}

impl DocToken {
    pub fn is_char(&self) -> (r: bool)
        ensures
            r == self@ is Char,
    {
        match self {
            DocToken::Char(_) => true,
            _ => false,
        }
    }

    pub fn is_close(&self) -> (r: bool)
        ensures
            r == self@ is Close,
    {
        match self {
            DocToken::Close => true,
            _ => false,
        }
    }

    pub fn is_open(&self) -> (r: bool)
        ensures
            r == self@ is Open,
    {
        match self {
            DocToken::Open(_) => true,
            _ => false,
        }
    }

}

impl Clone for DocToken {
    /// A copy of this token.
    fn clone(&self) -> (r: DocToken)
        ensures
            r@ == self@,
    {
        match self {
            DocToken::Open(a) => DocToken::Open(a.clone()),
            DocToken::Char(c) => DocToken::Char(*c),
            DocToken::Close => DocToken::Close,
        }
    }
}


/// A cursor in a document. Its position is an index into the document's
/// token stream: position `p` lies right before token `p`.
#[derive(Debug)]
pub struct DocStepper {
    tokens: Vec<DocToken>,
    pos: usize,
    level: usize,
}

impl DocStepper {
    /// The token stream of the document this cursor walks.
    pub closed spec fn tokens(&self) -> Seq<Token> {
        toks_view(self.tokens@)
    }

    /// The cursor's position in the token stream.
    pub closed spec fn pos(&self) -> int {
        self.pos as int
    }

    pub closed spec fn level_ok(&self) -> bool {
        &&& self.tokens@.len() == self.tokens().len()
        &&& self.tokens@.len() <= usize::MAX
        &&& self.level == depth(self.tokens(), self.pos as int)
    }

    /// Well-formedness: the stream is balanced and the position lies within it.
    pub open spec fn wf(&self) -> bool {
        &&& balanced(self.tokens())
        &&& 0 <= self.pos() <= self.tokens().len()
        &&& self.level_ok()
    }

    /// A cursor at the start of the span `span`.
    pub fn new(span: &Vec<DocElement>) -> (r: DocStepper)
        ensures
            r.wf(),
            r.tokens() == flat_span(span@),
            r.pos() == 0,
    {
        let mut toks: Vec<DocToken> = Vec::new();
        let mut i: usize = 0;
        while i < span.len()
            invariant
                0 <= i <= span@.len(),
                toks_view(toks@) == flat_span(span@.take(i as int)),
            decreases span@.len() - i,
        {
            proof {
                assert(span@.take(i + 1).drop_last() =~= span@.take(i as int));
            }
            flatten_elem(&span[i], &mut toks);
            i += 1;
        }
        assert(span@.take(span@.len() as int) =~= span@);
        proof {
            lemma_flat_span_balanced(span@);
            lemma_toks_view(toks@);
            broadcast use vstd::std_specs::vec::axiom_spec_len;
            assert(toks@.len() == toks.len());
        }
        DocStepper { tokens: toks, pos: 0, level: 0 }
    }

    /// The cursor's position in the token stream.
    pub fn position(&self) -> (r: usize)
        ensures
            r == self.pos(),
    {
        self.pos
    }

    /// The element right after the cursor: a whole group, or the run of
    /// characters that follows; `None` at the end of a group or of the document.
    pub fn head(&self) -> (r: Option<DocElement>)
        requires
            self.wf(),
        ensures
            r is None <==> (self.pos() == self.tokens().len() || is_close(self.tokens(), self.pos())),
            (r matches Some(DocElement::DocChars(_))) <==> is_char(self.tokens(), self.pos()),
            (r matches Some(DocElement::DocGroup(_, _))) <==> is_open(self.tokens(), self.pos()),
            r matches Some(e) ==> flat_elem(e) == self.tokens().subrange(
                self.pos(),
                elem_end(self.tokens(), self.pos()),
            ) && canon_elem(e),
            r matches Some(DocElement::DocGroup(a, _)) ==> a@ == open_attrs(
                self.tokens(),
                self.pos(),
            ),
    {
        let ghost t = self.tokens();
        proof {
            lemma_toks_view(self.tokens@);
        }
        let p = self.pos;
        if p >= self.tokens.len() {
            return None;
        }
        match &self.tokens[p] {
            DocToken::Close => None,
            DocToken::Char(_) => {
                let k = find_char_run_end(&self.tokens, p);
                proof {
                    lemma_char_run_end(t, p as int);
                }
                let s = collect_chars(&self.tokens, p, k);
                Some(DocElement::DocChars(s))
            },
            DocToken::Open(a) => {
                assert(is_open(t, p as int));
                proof {
                    lemma_group_from_open(t, p as int);
                    lemma_depth_step(t, p as int);
                }
                let (children, c) = parse_span(&self.tokens, p + 1);
                let el = DocElement::DocGroup(a.clone(), children);
                assert(flat_elem(el) =~= t.subrange(p as int, c + 1));
                Some(el)
            },
        }
    }

    /// The element right before the cursor: a whole group, or the run of
    /// characters that precedes; `None` at the start of a group or of the document.
    pub fn unhead(&self) -> (r: Option<DocElement>)
        requires
            self.wf(),
        ensures
            r is None <==> (self.pos() == 0 || is_open(self.tokens(), self.pos() - 1)),
            (r matches Some(DocElement::DocChars(_))) <==> is_char(self.tokens(), self.pos() - 1),
            (r matches Some(DocElement::DocGroup(_, _))) <==> is_close(self.tokens(), self.pos() - 1),
            r matches Some(e) ==> flat_elem(e) == self.tokens().subrange(
                elem_start(self.tokens(), self.pos()),
                self.pos(),
            ) && canon_elem(e),
    {
        let ghost t = self.tokens();
        proof {
            lemma_toks_view(self.tokens@);
        }
        let p = self.pos;
        if p == 0 {
            return None;
        }
        match &self.tokens[p - 1] {
            DocToken::Open(_) => None,
            DocToken::Char(_) => {
                let k = find_char_run_start(&self.tokens, p);
                proof {
                    lemma_char_run_start(t, p as int);
                }
                let s = collect_chars(&self.tokens, k, p);
                Some(DocElement::DocChars(s))
            },
            DocToken::Close => {
                assert(is_close(t, p - 1));
                proof {
                    lemma_group_bounds(t, p - 1);
                    lemma_depth_step(t, p - 1);
                    lemma_span_end(t, span_start(t, p - 1));
                }
                let s = find_span_start(&self.tokens, p - 1);
                let (children, c) = parse_span(&self.tokens, s);
                let attrs = match &self.tokens[s - 1] {
                    DocToken::Open(a) => a.clone(),
                    _ => Attrs::new(),
                };
                let el = DocElement::DocGroup(attrs, children);
                assert(flat_elem(el) =~= t.subrange(s - 1, p as int));
                Some(el)
            },
        }
    }

    /// Moves forward over `n` units of the current span: a character counts
    /// one, and so does a whole group.
    pub fn skip(&mut self, n: usize)
        requires
            old(self).wf(),
            n <= span_units(old(self).tokens(), old(self).pos()),
        ensures
            final(self).wf(),
            final(self).tokens() == old(self).tokens(),
            final(self).pos() == skip_units(old(self).tokens(), old(self).pos(), n as nat),
    {
        let ghost t = self.tokens();
        let ghost p0 = self.pos();
        proof {
            lemma_toks_view(self.tokens@);
        }
        let mut rem = n;
        while rem > 0
            invariant
                self.wf(),
                self.tokens() == t,
                self.tokens@.len() == t.len(),
                forall|i: int| 0 <= i < t.len() ==> #[trigger] t[i] == self.tokens@[i]@,
                rem <= span_units(t, self.pos()),
                skip_units(t, p0, n as nat) == skip_units(t, self.pos(), rem as nat),
            decreases rem,
        {
            let p = self.pos;
            proof {
                lemma_next_unit(t, p as int);
                lemma_span_end(t, p as int);
            }
            let next = if self.tokens[p].is_open() {
                find_span_end(&self.tokens, p + 1) + 1
            } else {
                p + 1
            };
            self.pos = next;
            rem = rem - 1;
        }
    }

    /// Moves back over the `n` characters before the cursor.
    pub fn unskip(&mut self, n: usize)
        requires
            old(self).wf(),
            n <= old(self).pos(),
            forall|x: int|
                old(self).pos() - n <= x < old(self).pos() ==> #[trigger] is_char(old(self).tokens(), x),
        ensures
            final(self).wf(),
            final(self).tokens() == old(self).tokens(),
            final(self).pos() == old(self).pos() - n,
    {
        proof {
            lemma_chars_depth(self.tokens(), self.pos() - n, self.pos());
        }
        self.pos = self.pos - n;
    }

    /// Moves into the group right after the cursor.
    pub fn enter(&mut self)
        requires
            old(self).wf(),
            is_open(old(self).tokens(), old(self).pos()),
        ensures
            final(self).wf(),
            final(self).tokens() == old(self).tokens(),
            final(self).pos() == old(self).pos() + 1,
    {
        proof {
            lemma_depth_step(self.tokens(), self.pos());
            lemma_depth_bound(self.tokens(), self.pos());
        }
        self.pos = self.pos + 1;
        self.level = self.level + 1;
    }

    /// Moves out of the current group, past its end.
    pub fn exit(&mut self)
        requires
            old(self).wf(),
            is_close(old(self).tokens(), old(self).pos()),
        ensures
            final(self).wf(),
            final(self).tokens() == old(self).tokens(),
            final(self).pos() == old(self).pos() + 1,
    {
        proof {
            lemma_depth_step(self.tokens(), self.pos());
            assert(depth(self.tokens(), self.pos() + 1) >= 0);
        }
        self.pos = self.pos + 1;
        self.level = self.level - 1;
    }

    /// Moves out of the current group, back before its start.
    pub fn unenter(&mut self)
        requires
            old(self).wf(),
            is_open(old(self).tokens(), old(self).pos() - 1),
        ensures
            final(self).wf(),
            final(self).tokens() == old(self).tokens(),
            final(self).pos() == old(self).pos() - 1,
    {
        proof {
            lemma_depth_step(self.tokens(), self.pos() - 1);
            assert(depth(self.tokens(), self.pos() - 1) >= 0);
        }
        self.pos = self.pos - 1;
        self.level = self.level - 1;
    }

    /// Moves into the group right before the cursor, to its end.
    pub fn unexit(&mut self)
        requires
            old(self).wf(),
            is_close(old(self).tokens(), old(self).pos() - 1),
        ensures
            final(self).wf(),
            final(self).tokens() == old(self).tokens(),
            final(self).pos() == old(self).pos() - 1,
    {
        proof {
            lemma_depth_step(self.tokens(), self.pos() - 1);
            lemma_depth_bound(self.tokens(), self.pos() - 1);
        }
        self.pos = self.pos - 1;
        self.level = self.level + 1;
    }

    /// The cursor is at the end of the document.
    pub fn is_done(&self) -> (r: bool)
        requires
            self.wf(),
        ensures
            r == (self.pos() == self.tokens().len()),
    {
        self.pos == self.tokens.len()
    }

    /// The cursor is at the top level of the document, inside no group.
    pub fn at_top(&self) -> (r: bool)
        requires
            self.wf(),
        ensures
            r == (depth(self.tokens(), self.pos()) == 0),
    {
        self.level == 0
    }

    /// How many units (characters and whole groups) follow the cursor in the
    /// current span.
    pub fn skip_len(&self) -> (r: usize)
        requires
            self.wf(),
        ensures
            r == span_units(self.tokens(), self.pos()),
    {
        let ghost t = self.tokens();
        proof {
            lemma_toks_view(self.tokens@);
            lemma_span_units_bound(t, self.pos());
        }
        let mut q = self.pos;
        let mut count: usize = 0;
        while q < self.tokens.len() && !self.tokens[q].is_close()
            invariant
                self.wf(),
                t == self.tokens(),
                self.tokens@.len() == t.len(),
                forall|i: int| 0 <= i < t.len() ==> #[trigger] t[i] == self.tokens@[i]@,
                self.pos() <= q <= t.len(),
                count + span_units(t, q as int) == span_units(t, self.pos()),
                span_units(t, self.pos()) <= t.len() - self.pos(),
            decreases t.len() - q,
        {
            proof {
                lemma_next_unit(t, q as int);
                lemma_span_end(t, q as int);
                lemma_span_units_bound(t, next_unit(t, q as int));
            }
            q = if self.tokens[q].is_open() {
                find_span_end(&self.tokens, q + 1) + 1
            } else {
                q + 1
            };
            count = count + 1;
        }
        count
    }

    /// The token right after the cursor, if any.
    pub fn peek(&self) -> (r: Option<&DocToken>)
        requires
            self.wf(),
        ensures
            r is None <==> self.pos() == self.tokens().len(),
            r matches Some(tok) ==> tok@ == self.tokens()[self.pos()],
    {
        proof {
            lemma_toks_view(self.tokens@);
        }
        if self.pos < self.tokens.len() {
            Some(&self.tokens[self.pos])
        } else {
            None
        }
    }

    /// The token right before the cursor, if any.
    pub fn peek_back(&self) -> (r: Option<&DocToken>)
        requires
            self.wf(),
        ensures
            r is None <==> self.pos() == 0,
            r matches Some(tok) ==> tok@ == self.tokens()[self.pos() - 1],
    {
        proof {
            lemma_toks_view(self.tokens@);
        }
        if self.pos > 0 {
            Some(&self.tokens[self.pos - 1])
        } else {
            None
        }
    }

    /// The number of characters in the run that starts at the cursor.
    pub fn char_run_len(&self) -> (r: usize)
        requires
            self.wf(),
        ensures
            r == char_run_end(self.tokens(), self.pos()) - self.pos(),
    {
        proof {
            lemma_char_run_end(self.tokens(), self.pos());
        }
        let e = find_char_run_end(&self.tokens, self.pos);
        e - self.pos
    }

    /// A cursor over the same document, at its start.
    pub fn rewound(&self) -> (r: DocStepper)
        requires
            self.wf(),
        ensures
            r.wf(),
            r.tokens() == self.tokens(),
            r.pos() == 0,
    {
        let mut r = self.clone();
        r.pos = 0;
        r.level = 0;
        r
    }

    /// Both cursors stand at the same position.
    pub fn same_place(&self, other: &DocStepper) -> (r: bool)
        ensures
            r == (self.pos() == other.pos()),
    {
        self.pos == other.pos
    }
}

impl Clone for DocStepper {
    /// A copy of this cursor.
    fn clone(&self) -> (r: DocStepper)
        ensures
            r.tokens() == self.tokens(),
            r.pos() == self.pos(),
            r.wf() == self.wf(),
    {
        proof {
            lemma_toks_view(self.tokens@);
        }
        let mut toks: Vec<DocToken> = Vec::new();
        let mut i: usize = 0;
        while i < self.tokens.len()
            invariant
                0 <= i <= self.tokens@.len(),
                toks@.len() == i,
                forall|j: int| 0 <= j < i ==> #[trigger] toks@[j]@ == self.tokens@[j]@,
            decreases self.tokens@.len() - i,
        {
            toks.push(self.tokens[i].clone());
            i += 1;
        }
        proof {
            lemma_toks_view(toks@);
            assert(toks_view(toks@) =~= toks_view(self.tokens@));
        }
        DocStepper { tokens: toks, pos: self.pos, level: self.level }
    }
}

} // verus!
