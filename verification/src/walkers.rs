//! Caret-aware walking over a document: steppers that count caret
//! positions, and a walker that moves between characters and blocks.

use vstd::prelude::*;
use crate::doc::{
    balanced, depth, flat_span, law_token_count, span_chars, span_groups, Attrs, AttrsV, Doc, DocElement, Token,
};
use crate::schema::{attrs_track, has_tag, str_is, RtfSchema, RtfTrack};
use crate::stepper::{DocStepper, DocToken};
use crate::cursor::{flat_cur_span, CurSpan, CurStepper, CurToken};
use crate::writer::{
    add_keeps, del_keeps, lemma_add_keeps_exit_all, lemma_add_keeps_steps, lemma_del_keeps_exit_all,
    lemma_del_keeps_steps, Add, AddElement, AddState, AddWriter, Del, DelElement, DelState, DelWriter, OpWriter,
};
use crate::tokens::{
    char_run_end, is_char, is_close, is_open, skip_units, span_units, lemma_char_run_end, lemma_depth_step, lemma_skip_chars,
    lemma_span_start, open_attrs, span_start, span_start_from,
};

verus! {

/// The group is a text block.
pub open spec fn block_attrs(a: AttrsV) -> bool {
    attrs_track(a) == Some(RtfTrack::Blocks)
}

/// The group is a block without text.
pub open spec fn block_object_attrs(a: AttrsV) -> bool {
    attrs_track(a) == Some(RtfTrack::BlockObjects)
}

/// The group opening at `i`, if one does, carries a `tag`.
pub open spec fn tagged_at(t: Seq<Token>, i: int) -> bool {
    is_open(t, i) ==> has_tag(open_attrs(t, i))
}

/// Every group that opens in `[lo, hi)` carries a `tag`.
pub open spec fn tagged_between(t: Seq<Token>, lo: int, hi: int) -> bool {
    forall|i: int| lo <= i < hi ==> #[trigger] tagged_at(t, i)
}

/// Every group that opens before `hi` carries a `tag`, and every caret group
/// among them names its `client`: what the search for a caret reads.
pub open spec fn tags_ok_before(t: Seq<Token>, hi: int) -> bool {
    forall|i: int|
        0 <= i < hi && #[trigger] is_open(t, i) ==> has_tag(open_attrs(t, i)) && (open_attrs(t, i)["tag"@]
            == "caret"@ ==> open_attrs(t, i).contains_key("client"@))
}

/// How far the search for the caret of `client` reads the stream: up to and
/// including that caret, or the whole stream where there is none.
pub open spec fn caret_search_end(t: Seq<Token>, client: Seq<char>, focus: bool) -> int {
    match first_caret(t, client, focus, 0) {
        Some(c) => c + 1,
        None => t.len() as int,
    }
}

/// A caret may stand at `p`: right after a character, or at the start of a text block.
pub open spec fn valid_caret(t: Seq<Token>, p: int) -> bool {
    p > 0 && (is_char(t, p - 1) || (is_open(t, p - 1) && block_attrs(open_attrs(t, p - 1))))
}

/// A caret stands right after a character, or at the very start of a text
/// block (`p`, `h1`..`h6`, `pre`, `html`), and nowhere else: never at the
/// start of a list item, a rule or a caret, nor right after a group ends.
pub proof fn law_caret_positions(t: Seq<Token>, p: int)
    ensures
        valid_caret(t, p) ==> p > 0 && (is_char(t, p - 1) || (is_open(t, p - 1) && attrs_track(
            open_attrs(t, p - 1),
        ) == Some(RtfTrack::Blocks))),
        p > 0 && is_char(t, p - 1) ==> valid_caret(t, p),
        p > 0 && is_open(t, p - 1) && attrs_track(open_attrs(t, p - 1)) == Some(RtfTrack::Blocks)
            ==> valid_caret(t, p),
        p > 0 && is_open(t, p - 1) && (open_attrs(t, p - 1)["tag"@] == "p"@ || open_attrs(t, p - 1)["tag"@]
            == "h1"@ || open_attrs(t, p - 1)["tag"@] == "pre"@) ==> valid_caret(t, p),
        is_open(t, p - 1) && (open_attrs(t, p - 1)["tag"@] == "bullet"@ || open_attrs(t, p - 1)["tag"@]
            == "hr"@ || open_attrs(t, p - 1)["tag"@] == "caret"@) ==> !valid_caret(t, p),
        is_close(t, p - 1) ==> !valid_caret(t, p),
{
    reveal_strlit("p");
    reveal_strlit("h1");
    reveal_strlit("h2");
    reveal_strlit("h3");
    reveal_strlit("h4");
    reveal_strlit("h5");
    reveal_strlit("h6");
    reveal_strlit("pre");
    reveal_strlit("html");
    reveal_strlit("bullet");
    reveal_strlit("hr");
    reveal_strlit("caret");
    assert("bullet"@.len() != "p"@.len());
    assert("bullet"@ != "p"@);
    assert("bullet"@.len() != "h1"@.len());
    assert("bullet"@ != "h1"@);
    assert("bullet"@.len() != "h2"@.len());
    assert("bullet"@ != "h2"@);
    assert("bullet"@.len() != "h3"@.len());
    assert("bullet"@ != "h3"@);
    assert("bullet"@.len() != "h4"@.len());
    assert("bullet"@ != "h4"@);
    assert("bullet"@.len() != "h5"@.len());
    assert("bullet"@ != "h5"@);
    assert("bullet"@.len() != "h6"@.len());
    assert("bullet"@ != "h6"@);
    assert("bullet"@.len() != "pre"@.len());
    assert("bullet"@ != "pre"@);
    assert("bullet"@.len() != "html"@.len());
    assert("bullet"@ != "html"@);
    assert("hr"@.len() != "p"@.len());
    assert("hr"@ != "p"@);
    assert("hr"@[1] != "h1"@[1]);
    assert("hr"@ != "h1"@);
    assert("hr"@[1] != "h2"@[1]);
    assert("hr"@ != "h2"@);
    assert("hr"@[1] != "h3"@[1]);
    assert("hr"@ != "h3"@);
    assert("hr"@[1] != "h4"@[1]);
    assert("hr"@ != "h4"@);
    assert("hr"@[1] != "h5"@[1]);
    assert("hr"@ != "h5"@);
    assert("hr"@[1] != "h6"@[1]);
    assert("hr"@ != "h6"@);
    assert("hr"@.len() != "pre"@.len());
    assert("hr"@ != "pre"@);
    assert("hr"@.len() != "html"@.len());
    assert("hr"@ != "html"@);
    assert("caret"@.len() != "p"@.len());
    assert("caret"@ != "p"@);
    assert("caret"@.len() != "h1"@.len());
    assert("caret"@ != "h1"@);
    assert("caret"@.len() != "h2"@.len());
    assert("caret"@ != "h2"@);
    assert("caret"@.len() != "h3"@.len());
    assert("caret"@ != "h3"@);
    assert("caret"@.len() != "h4"@.len());
    assert("caret"@ != "h4"@);
    assert("caret"@.len() != "h5"@.len());
    assert("caret"@ != "h5"@);
    assert("caret"@.len() != "h6"@.len());
    assert("caret"@ != "h6"@);
    assert("caret"@.len() != "pre"@.len());
    assert("caret"@ != "pre"@);
    assert("caret"@.len() != "html"@.len());
    assert("caret"@ != "html"@);
}

/// One if a caret may stand at `p`, else zero.
pub open spec fn caret_delta(t: Seq<Token>, p: int) -> int {
    if valid_caret(t, p) {
        1
    } else {
        0
    }
}

/// How many positions in `1..=p` a caret may stand at.
pub open spec fn carets_upto(t: Seq<Token>, p: int) -> int
    decreases p,
{
    if p <= 0 {
        0
    } else {
        carets_upto(t, p - 1) + if valid_caret(t, p) {
            1int
        } else {
            0int
        }
    }
}

/// The boolean that a string spells (`"true"` or `"false"`).
pub open spec fn parse_bool_spec(s: Seq<char>) -> Option<bool> {
    if s == "true"@ {
        Some(true)
    } else if s == "false"@ {
        Some(false)
    } else {
        None
    }
}

/// The `focus` flag of a caret; a caret without one is not focused.
pub open spec fn focus_flag(a: AttrsV) -> Option<bool> {
    if a.contains_key("focus"@) {
        parse_bool_spec(a["focus"@])
    } else {
        Some(false)
    }
}

/// The group is the caret of `client` with the given focus.
pub open spec fn caret_match(a: AttrsV, client: Option<Seq<char>>, focus: bool) -> bool {
    &&& a["tag"@] == "caret"@
    &&& client matches Some(id) && a["client"@] == id
    &&& focus_flag(a) == Some(focus)
}

/// A caret's focus is read as `str::parse::<bool>` reads it: `"true"` and
/// `"false"` give that flag, a caret without one is unfocused, and any other
/// text gives no flag, so that caret matches no search. A caret of `id`
/// whose focus is `"false"` or absent is the unfocused caret of `id`, and
/// one whose focus is `"true"` is the focused one.
pub proof fn law_focus_flag(a: AttrsV, id: Seq<char>)
    ensures
        !a.contains_key("focus"@) ==> focus_flag(a) == Some(false),
        a.contains_key("focus"@) && a["focus"@] == "false"@ ==> focus_flag(a) == Some(false),
        a.contains_key("focus"@) && a["focus"@] == "true"@ ==> focus_flag(a) == Some(true),
        a.contains_key("focus"@) && a["focus"@] != "true"@ && a["focus"@] != "false"@ ==> focus_flag(a)
            is None,
        a["tag"@] == "caret"@ && a["client"@] == id && (a.contains_key("focus"@) ==> a["focus"@]
            == "false"@) ==> caret_match(a, Some(id), false) && !caret_match(a, Some(id), true),
        a["tag"@] == "caret"@ && a["client"@] == id && a.contains_key("focus"@) && a["focus"@]
            == "true"@ ==> caret_match(a, Some(id), true) && !caret_match(a, Some(id), false),
        a["tag"@] != "caret"@ ==> !caret_match(a, Some(id), false) && !caret_match(a, Some(id), true),
        a["client"@] != id ==> !caret_match(a, Some(id), false) && !caret_match(a, Some(id), true),
        !caret_match(a, None, false) && !caret_match(a, None, true),
{
    reveal_strlit("true");
    reveal_strlit("false");
    assert("true"@.len() == 4 && "false"@.len() == 5);
    assert("true"@ != "false"@);
}

/// The first caret of `client` with the given focus at or after `p`.
pub open spec fn first_caret(t: Seq<Token>, client: Seq<char>, focus: bool, p: int) -> Option<int>
    decreases t.len() - p,
{
    if p < 0 || p >= t.len() {
        None
    } else if is_open(t, p) && caret_match(open_attrs(t, p), Some(client), focus) {
        Some(p)
    } else {
        first_caret(t, client, focus, p + 1)
    }
}

/// The first position at or after `p` where a caret may stand and which is
/// caret position number `target`.
pub open spec fn fwd_caret_search(t: Seq<Token>, p: int, target: int) -> Option<int>
    decreases t.len() - p,
{
    if p < 0 || p > t.len() {
        None
    } else if valid_caret(t, p) && carets_upto(t, p) - 1 == target {
        Some(p)
    } else if p == t.len() {
        None
    } else {
        fwd_caret_search(t, p + 1, target)
    }
}

/// The last position at or before `p` where a caret may stand and which is
/// caret position number `target`.
pub open spec fn bwd_caret_search(t: Seq<Token>, p: int, target: int) -> Option<int>
    decreases p,
{
    if p < 0 || p > t.len() {
        None
    } else if valid_caret(t, p) && carets_upto(t, p) - 1 == target {
        Some(p)
    } else if p == 0 {
        None
    } else {
        bwd_caret_search(t, p - 1, target)
    }
}

/// A text block, or (where `with_objects`) a block without text.
pub open spec fn block_like(a: AttrsV, with_objects: bool) -> bool {
    block_attrs(a) || (with_objects && block_object_attrs(a))
}

/// The start of the last block before `p`.
pub open spec fn last_block_before(t: Seq<Token>, p: int, with_objects: bool) -> Option<int>
    decreases p,
{
    if p <= 0 || p > t.len() {
        None
    } else if is_open(t, p - 1) && block_like(open_attrs(t, p - 1), with_objects) {
        Some(p - 1)
    } else {
        last_block_before(t, p - 1, with_objects)
    }
}

/// The start of the first text block after `p`.
pub open spec fn first_block_after(t: Seq<Token>, p: int) -> Option<int>
    decreases t.len() - p,
{
    if p < 0 || p + 1 >= t.len() {
        None
    } else if is_open(t, p + 1) && block_attrs(open_attrs(t, p + 1)) {
        Some(p + 1)
    } else {
        first_block_after(t, p + 1)
    }
}

/// A block found by `first_block_after` starts after `p`.
pub proof fn lemma_first_block_after(t: Seq<Token>, p: int)
    ensures
        first_block_after(t, p) matches Some(b) ==> p < b < t.len() && is_open(t, b)
            && block_attrs(open_attrs(t, b)),
    decreases t.len() - p,
{
    if 0 <= p && p + 1 < t.len() && !(is_open(t, p + 1) && block_attrs(open_attrs(t, p + 1))) {
        lemma_first_block_after(t, p + 1);
    }
}

/// A caret found by `first_caret` is a matching group at or after `p`.
pub proof fn lemma_first_caret(t: Seq<Token>, client: Seq<char>, focus: bool, p: int)
    requires
        0 <= p,
    ensures
        first_caret(t, client, focus, p) matches Some(c) ==> p <= c < t.len() && is_open(t, c)
            && caret_match(open_attrs(t, c), Some(client), focus),
    decreases t.len() - p,
{
    if p < t.len() && !(is_open(t, p) && caret_match(open_attrs(t, p), Some(client), focus)) {
        lemma_first_caret(t, client, focus, p + 1);
    }
}

/// A block found by `last_block_before` starts before `p`.
pub proof fn lemma_last_block_before(t: Seq<Token>, p: int, with_objects: bool)
    ensures
        last_block_before(t, p, with_objects) matches Some(b) ==> 0 <= b < p && is_open(t, b)
            && block_like(open_attrs(t, b), with_objects),
    decreases p,
{
    if 0 < p <= t.len() && !(is_open(t, p - 1) && block_like(open_attrs(t, p - 1), with_objects)) {
        lemma_last_block_before(t, p - 1, with_objects);
    }
}

pub proof fn lemma_carets_bound(t: Seq<Token>, p: int)
    requires
        0 <= p,
    ensures
        0 <= carets_upto(t, p) <= p,
    decreases p,
{
    if p > 0 {
        lemma_carets_bound(t, p - 1);
    }
}

/// Every position inside a run of characters can hold a caret.
proof fn lemma_carets_chars(t: Seq<Token>, p: int, n: int)
    requires
        0 <= p,
        0 <= n,
        p + n <= t.len(),
        forall|x: int| p <= x < p + n ==> #[trigger] is_char(t, x),
    ensures
        carets_upto(t, p + n) == carets_upto(t, p) + n,
        n > 0 ==> valid_caret(t, p + n),
    decreases n,
{
    if n > 0 {
        lemma_carets_chars(t, p, n - 1);
        assert(is_char(t, p + n - 1));
    }
}

proof fn lemma_first_caret_chars(t: Seq<Token>, client: Seq<char>, focus: bool, p: int, q: int)
    requires
        0 <= p <= q <= t.len(),
        forall|x: int| p <= x < q ==> #[trigger] is_char(t, x),
    ensures
        first_caret(t, client, focus, p) == first_caret(t, client, focus, q),
    decreases q - p,
{
    if p < q {
        assert(is_char(t, p));
        lemma_first_caret_chars(t, client, focus, p + 1, q);
    }
}

/// Whether the group is a text block.
pub fn is_block(attrs: &Attrs) -> (r: bool)
    requires
        has_tag(attrs@),
    ensures
        r == block_attrs(attrs@),
{
    match RtfSchema::track_type_from_attrs(attrs) {
        Some(RtfTrack::Blocks) => true,
        _ => false,
    }
}

/// Whether the group is a block without text.
pub fn is_block_object(attrs: &Attrs) -> (r: bool)
    requires
        has_tag(attrs@),
    ensures
        r == block_object_attrs(attrs@),
{
    match RtfSchema::track_type_from_attrs(attrs) {
        Some(RtfTrack::BlockObjects) => true,
        _ => false,
    }
}

/// The boolean that a string spells, as `str::parse::<bool>` reads it.
pub fn parse_bool(s: &String) -> (r: Option<bool>)
    ensures
        r == parse_bool_spec(s@),
{
    if str_is(s, "true") {
        Some(true)
    } else if str_is(s, "false") {
        Some(false)
    } else {
        None
    }
}

/// Whether the group is the caret of `client_id` with the given focus.
pub fn is_caret(attrs: &Attrs, client_id: Option<&str>, focus: bool) -> (r: bool)
    requires
        has_tag(attrs@),
        attrs@["tag"@] == "caret"@ && client_id is Some ==> attrs@.contains_key("client"@),
    ensures
        r == caret_match(attrs@, match client_id {
            Some(id) => Some(id@),
            None => None,
        }, focus),
{
    let tag = attrs.get("tag").unwrap();
    if !str_is(tag, "caret") {
        return false;
    }
    let client_ok = match client_id {
        Some(id) => str_is(attrs.get("client").unwrap(), id),
        None => false,
    };
    if !client_ok {
        return false;
    }
    let flag = match attrs.get("focus") {
        Some(v) => parse_bool(v),
        None => Some(false),
    };
    match flag {
        Some(x) => x == focus,
        None => false,
    }
}

/// Whether a caret may stand where the cursor is.
fn valid_caret_at(doc: &DocStepper) -> (r: bool)
    requires
        doc.wf(),
        tagged_at(doc.tokens(), doc.pos() - 1),
    ensures
        r == valid_caret(doc.tokens(), doc.pos()),
{
    match doc.peek_back() {
        Some(DocToken::Char(_)) => true,
        Some(DocToken::Open(attrs)) => {
            assert(is_open(doc.tokens(), doc.pos() - 1));
            is_block(attrs)
        },
        _ => false,
    }
}

/// A forward cursor that counts the positions where a caret may stand.
#[derive(Debug)]
pub struct CaretStepper {
    pub doc: DocStepper,
    caret_pos: isize,
}

impl CaretStepper {
    /// The cursor this stepper moves.
    pub closed spec fn cursor(&self) -> DocStepper {
        self.doc
    }

    /// The count of caret positions passed so far (starting from -1).
    pub closed spec fn caret(&self) -> int {
        self.caret_pos as int
    }

    /// A stepper that has passed no caret position yet.
    pub fn new(doc: DocStepper) -> (r: CaretStepper)
        ensures
            r.cursor() == doc,
            r.caret() == -1,
    {
        CaretStepper { doc, caret_pos: -1 }
    }

    /// The same position and count, walking backward.
    pub fn rev(self) -> (r: ReverseCaretStepper)
        ensures
            r.cursor() == self.cursor(),
            r.caret() == self.caret(),
    {
        ReverseCaretStepper { doc: self.doc, caret_pos: self.caret_pos }
    }

    /// The count of caret positions passed so far.
    pub fn caret_pos(&self) -> (r: isize)
        ensures
            r == self.caret(),
    {
        self.caret_pos
    }


    /// Whether a caret may stand at the current position.
    pub fn is_valid_caret_pos(&self) -> (r: bool)
        requires
            self.cursor().wf(),
            tagged_at(self.cursor().tokens(), self.cursor().pos() - 1),
        ensures
            r == valid_caret(self.cursor().tokens(), self.cursor().pos()),
    {
        valid_caret_at(&self.doc)
    }

    /// Moves over one whole element: a run of characters, the start of a
    /// group, or the end of a group; `None` at the end of the document. It
    /// ends where as many single steps (`next`) as it moves over tokens would
    /// end, with the count they would give (`walk_count`).
    fn skip_element(&mut self) -> (r: Option<()>)
        requires
            old(self).cursor().wf(),
            tagged_at(old(self).cursor().tokens(), old(self).cursor().pos()),
            old(self).caret() == carets_upto(old(self).cursor().tokens(), old(self).cursor().pos()) - 1,
            old(self).cursor().tokens().len() < isize::MAX,
        ensures
            final(self).cursor().wf(),
            final(self).cursor().tokens() == old(self).cursor().tokens(),
            final(self).caret() == carets_upto(final(self).cursor().tokens(), final(self).cursor().pos()) - 1,
            r is None <==> old(self).cursor().pos() == old(self).cursor().tokens().len(),
            r is None ==> final(self).cursor().pos() == old(self).cursor().pos(),
            r is Some ==> final(self).cursor().pos() > old(self).cursor().pos(),
            is_char(old(self).cursor().tokens(), old(self).cursor().pos()) ==> final(self).cursor().pos()
                == char_run_end(old(self).cursor().tokens(), old(self).cursor().pos()),
            !is_char(old(self).cursor().tokens(), old(self).cursor().pos()) && r is Some ==> final(self).cursor().pos() == old(self).cursor().pos() + 1,
            final(self).caret() == walk_count(
                old(self).cursor().tokens(),
                old(self).cursor().pos(),
                old(self).caret(),
                (final(self).cursor().pos() - old(self).cursor().pos()) as nat,
            ),
    {
        let ghost t = self.cursor().tokens();
        let ghost p = self.cursor().pos();
        proof {
            lemma_carets_bound(t, p);
        }
        let len: usize = match self.doc.peek() {
            Some(DocToken::Char(_)) => {
                let n = self.doc.char_run_len();
                proof {
                    lemma_char_run_end(t, p);
                    lemma_skip_chars(t, p, n as nat);
                    lemma_carets_chars(t, p, n as int);
                    lemma_carets_bound(t, p + n);
                    if n > 0 {
                        assert(is_char(t, p + n - 1));
                    }
                }
                self.doc.skip(n);
                n
            },
            Some(DocToken::Open(_)) => {
                self.doc.enter();
                1
            },
            _ => {
                if self.doc.is_done() {
                    return None;
                }
                self.doc.exit();
                1
            },
        };
        if valid_caret_at(&self.doc) {
            self.caret_pos = self.caret_pos + len as isize;
        }
        proof {
            lemma_walk_count(t, p, old(self).caret(), (self.cursor().pos() - p) as nat);
        }
        Some(())
    }

    /// Moves over one token; `None` at the end of the document.
    pub fn next(&mut self) -> (r: Option<()>)
        requires
            old(self).cursor().wf(),
            tagged_at(old(self).cursor().tokens(), old(self).cursor().pos()),
            valid_caret(old(self).cursor().tokens(), old(self).cursor().pos() + 1) ==> old(self).caret()
                < isize::MAX,
        ensures
            final(self).cursor().wf(),
            final(self).cursor().tokens() == old(self).cursor().tokens(),
            r is None <==> old(self).cursor().pos() == old(self).cursor().tokens().len(),
            r is None ==> final(self).cursor().pos() == old(self).cursor().pos() && final(self).caret() == old(self).caret(),
            r is Some ==> final(self).cursor().pos() == old(self).cursor().pos() + 1 && final(self).caret()
                == old(self).caret() + caret_delta(old(self).cursor().tokens(), old(self).cursor().pos() + 1),
    {
        let ghost t = self.cursor().tokens();
        let ghost p = self.cursor().pos();
        match self.doc.peek() {
            Some(DocToken::Char(_)) => {
                proof {
                    lemma_skip_chars(t, p, 1);
                }
                self.doc.skip(1);
            },
            Some(DocToken::Open(_)) => {
                self.doc.enter();
            },
            _ => {
                if self.doc.is_done() {
                    return None;
                }
                self.doc.exit();
            },
        }
        if valid_caret_at(&self.doc) {
            self.caret_pos = self.caret_pos + 1;
        }
        Some(())
    }
}

impl Clone for CaretStepper {
    /// A copy of this stepper.
    fn clone(&self) -> (r: CaretStepper)
        ensures
            r.cursor().tokens() == self.cursor().tokens(),
            r.cursor().pos() == self.cursor().pos(),
            r.cursor().wf() == self.cursor().wf(),
            r.caret() == self.caret(),
    {
        CaretStepper { doc: self.doc.clone(), caret_pos: self.caret_pos }
    }
}

/// A backward cursor that counts the positions where a caret may stand.
#[derive(Debug)]
pub struct ReverseCaretStepper {
    doc: DocStepper,
    caret_pos: isize,
}

impl ReverseCaretStepper {
    /// The cursor this stepper moves.
    pub closed spec fn cursor(&self) -> DocStepper {
        self.doc
    }

    /// The count of caret positions up to the current one (starting from -1).
    pub closed spec fn caret(&self) -> int {
        self.caret_pos as int
    }

    /// The same position and count, walking forward.
    pub fn rev(self) -> (r: CaretStepper)
        ensures
            r.cursor() == self.cursor(),
            r.caret() == self.caret(),
    {
        CaretStepper { doc: self.doc, caret_pos: self.caret_pos }
    }


    /// The count of caret positions up to the current one.
    pub fn caret_pos(&self) -> (r: isize)
        ensures
            r == self.caret(),
    {
        self.caret_pos
    }

    /// The cursor this stepper moves.
    pub fn doc(&self) -> (r: &DocStepper)
        ensures
            *r == self.cursor(),
    {
        &self.doc
    }

    /// Whether a caret may stand at the current position.
    pub fn is_valid_caret_pos(&self) -> (r: bool)
        requires
            self.cursor().wf(),
            tagged_at(self.cursor().tokens(), self.cursor().pos() - 1),
        ensures
            r == valid_caret(self.cursor().tokens(), self.cursor().pos()),
    {
        valid_caret_at(&self.doc)
    }

    /// Moves back over one token, first uncounting the current position
    /// where a caret may stand there; `None` at the start of the document.
    pub fn next(&mut self) -> (r: Option<()>)
        requires
            old(self).cursor().wf(),
            tagged_at(old(self).cursor().tokens(), old(self).cursor().pos() - 1),
            valid_caret(old(self).cursor().tokens(), old(self).cursor().pos()) ==> old(self).caret()
                > isize::MIN,
        ensures
            final(self).cursor().wf(),
            final(self).cursor().tokens() == old(self).cursor().tokens(),
            r is None <==> old(self).cursor().pos() == 0,
            r is None ==> final(self).cursor().pos() == 0 && final(self).caret() == old(self).caret(),
            r is Some ==> final(self).cursor().pos() == old(self).cursor().pos() - 1 && final(self).caret()
                == old(self).caret() - caret_delta(old(self).cursor().tokens(), old(self).cursor().pos()),
    {
        let ghost t = self.cursor().tokens();
        let ghost p = self.cursor().pos();
        if valid_caret_at(&self.doc) {
            self.caret_pos = self.caret_pos - 1;
        }
        match self.doc.peek_back() {
            Some(DocToken::Char(_)) => {
                self.doc.unskip(1);
            },
            Some(DocToken::Close) => {
                self.doc.unexit();
            },
            _ => {
                if self.doc.at_top() {
                    proof {
                        if p > 0 {
                            lemma_depth_step(t, p - 1);
                        }
                    }
                    return None;
                }
                self.doc.unenter();
            },
        }
        Some(())
    }
}


impl Clone for ReverseCaretStepper {
    /// A copy of this stepper.
    fn clone(&self) -> (r: ReverseCaretStepper)
        ensures
            r.cursor().tokens() == self.cursor().tokens(),
            r.cursor().pos() == self.cursor().pos(),
            r.cursor().wf() == self.cursor().wf(),
            r.caret() == self.caret(),
    {
        ReverseCaretStepper { doc: self.doc.clone(), caret_pos: self.caret_pos }
    }
}

/// The deletion writer that mirrors a walk from the start of the stream to
/// `p`: each character is kept, each group start begins a level, and each
/// group end ends one.
pub open spec fn del_replay(t: Seq<Token>, p: int) -> DelState
    decreases p,
{
    if p <= 0 {
        DelState { past: Seq::empty(), stack: Seq::empty() }
    } else {
        let w = del_replay(t, p - 1);
        match t[p - 1] {
            Token::Char(_) => w.place(Del::Skip(1)),
            Token::Open(_) => w.begin(),
            Token::Close => w.exit(),
        }
    }
}

/// The insertion writer that mirrors a walk from the start of the stream to `p`.
pub open spec fn add_replay(t: Seq<Token>, p: int) -> AddState
    decreases p,
{
    if p <= 0 {
        AddState { past: Seq::empty(), stack: Seq::empty() }
    } else {
        let w = add_replay(t, p - 1);
        match t[p - 1] {
            Token::Char(_) => w.place(Add::Skip(1)),
            Token::Open(_) => w.begin(),
            Token::Close => w.exit(),
        }
    }
}

/// The replayed writers have one open level per enclosing group, and the
/// count they are merging into stays below the position.
pub proof fn lemma_replay(t: Seq<Token>, p: int)
    requires
        balanced(t),
        0 <= p <= t.len(),
    ensures
        del_replay(t, p).stack.len() == depth(t, p),
        add_replay(t, p).stack.len() == depth(t, p),
        del_replay(t, p).past.len() > 0 && del_replay(t, p).past.last() is Skip
            ==> del_replay(t, p).past.last()->Skip_0 <= p,
        add_replay(t, p).past.len() > 0 && add_replay(t, p).past.last() is Skip
            ==> add_replay(t, p).past.last()->Skip_0 <= p,
        del_replay(t, p).past.len() > 0 ==> !(del_replay(t, p).past.last() is Chars),
    decreases p,
{
    if p > 0 {
        lemma_replay(t, p - 1);
        lemma_depth_step(t, p - 1);
        assert(depth(t, p) >= 0);
    }
}

proof fn lemma_replay_keeps(t: Seq<Token>, p: int)
    requires
        balanced(t),
        0 <= p <= t.len(),
    ensures
        del_replay(t, p).keeps(),
        add_replay(t, p).keeps(),
    decreases p,
{
    if p > 0 {
        lemma_replay_keeps(t, p - 1);
        lemma_replay(t, p - 1);
        lemma_depth_step(t, p - 1);
        assert(depth(t, p) >= 0);
        lemma_del_keeps_steps(del_replay(t, p - 1), 1);
        lemma_add_keeps_steps(add_replay(t, p - 1), 1);
    }
}

/// The writers that a walker hands out (`to_writer`), once every level is
/// ended, form an operation that removes and inserts nothing: it only skips
/// characters and descends into groups, so it leaves the walked document as
/// it was.
pub proof fn law_to_writer_changes_nothing(t: Seq<Token>, p: int)
    requires
        balanced(t),
        0 <= p <= t.len(),
    ensures
        del_keeps(del_replay(t, p).exit_all().past),
        add_keeps(add_replay(t, p).exit_all().past),
{
    lemma_replay_keeps(t, p);
    lemma_del_keeps_exit_all(del_replay(t, p));
    lemma_add_keeps_exit_all(add_replay(t, p));
}

/// Where the cursor span `c` (from its token `cp`) points in the document
/// stream `t` (from position `dp`): the position of the group or character
/// it ends at, or `None` if the span does not fit the document or never ends
/// at one.
pub open spec fn cursor_target(t: Seq<Token>, c: Seq<CurToken>, dp: int, cp: int) -> Option<int>
    decreases c.len() - cp,
{
    if cp < 0 || cp >= c.len() || dp < 0 || dp > t.len() {
        None
    } else {
        match c[cp] {
            CurToken::Group | CurToken::Char => Some(dp),
            CurToken::Skip(n) => if n <= span_units(t, dp) {
                cursor_target(t, c, skip_units(t, dp, n as nat), cp + 1)
            } else {
                None
            },
            CurToken::Open => if is_open(t, dp) {
                cursor_target(t, c, dp + 1, cp + 1)
            } else {
                None
            },
            CurToken::Close => if is_close(t, dp) {
                cursor_target(t, c, dp + 1, cp + 1)
            } else {
                None
            },
        }
    }
}

/// The last position at or before `p` where a caret may stand (0 if none).
pub open spec fn last_valid_upto(t: Seq<Token>, p: int) -> int
    decreases p,
{
    if p <= 0 {
        0
    } else if valid_caret(t, p) {
        p
    } else {
        last_valid_upto(t, p - 1)
    }
}

/// The first position after `r` where a caret may stand.
pub open spec fn first_valid_after(t: Seq<Token>, r: int) -> Option<int>
    decreases t.len() - r,
{
    if r < 0 || r >= t.len() {
        None
    } else if valid_caret(t, r + 1) {
        Some(r + 1)
    } else {
        first_valid_after(t, r + 1)
    }
}

/// Where a caret lands for a cursor at `p`: right after the character it
/// stands before, that is, the first caret position after the last one at
/// or before `p` (or that last one, at the end of the document).
pub open spec fn snap_caret(t: Seq<Token>, p: int) -> int {
    match first_valid_after(t, last_valid_upto(t, p)) {
        Some(q) => q,
        None => last_valid_upto(t, p),
    }
}

/// The count a forward caret stepper holds after `k` steps that start at
/// position `p` with count `c`: each step adds one where a caret may stand
/// at the position it reaches.
pub open spec fn walk_count(t: Seq<Token>, p: int, c: int, k: nat) -> int
    decreases k,
{
    if k == 0 {
        c
    } else {
        walk_count(t, p + 1, c + caret_delta(t, p + 1), (k - 1) as nat)
    }
}

proof fn lemma_walk_count(t: Seq<Token>, p: int, c: int, k: nat)
    requires
        0 <= p,
    ensures
        walk_count(t, p, c, k) == c + carets_upto(t, p + k) - carets_upto(t, p),
    decreases k,
{
    if k > 0 {
        lemma_walk_count(t, p + 1, c + caret_delta(t, p + 1), (k - 1) as nat);
    }
}

/// After `k` forward steps, a caret stepper has added to its count the
/// number of positions it reached where a caret may stand; so a stepper that
/// starts at the beginning of a document (count -1) holds, at position `k`,
/// the caret index of that position, never below -1, and two steppers at the
/// same position hold the same count.
pub proof fn law_walk_count(t: Seq<Token>, p: int, c: int, k: nat)
    requires
        0 <= p,
    ensures
        walk_count(t, p, c, k) == c + carets_upto(t, p + k) - carets_upto(t, p),
        walk_count(t, 0, -1, k) == carets_upto(t, k as int) - 1,
        walk_count(t, 0, -1, k) >= -1,
{
    lemma_walk_count(t, p, c, k);
    lemma_walk_count(t, 0, -1, k);
    lemma_carets_bound(t, k as int);
}

/// A forward walk over a span from its start answers `Some` on exactly as
/// many steps as the span has characters plus twice as many as it has groups,
/// and `None` on the step after: the stream has that many tokens and each
/// step moves over one. After `k` steps the count is the caret index of
/// position `k`.
pub proof fn law_walk_from_start(s: Seq<DocElement>, k: nat)
    ensures
        k < span_chars(s) + 2 * span_groups(s) <==> k < flat_span(s).len(),
        k == span_chars(s) + 2 * span_groups(s) <==> k == flat_span(s).len(),
        walk_count(flat_span(s), 0, -1, k) == carets_upto(flat_span(s), k as int) - 1,
{
    law_token_count(s);
    law_walk_count(flat_span(s), 0, -1, k);
}

/// A walker that stands on the caret position it is asked to go to stays
/// there: asking again does not move it.
pub proof fn law_goto_pos_stays(t: Seq<Token>, q: int, target: int)
    requires
        0 <= q <= t.len(),
        valid_caret(t, q),
        carets_upto(t, q) - 1 == target,
    ensures
        fwd_caret_search(t, q, target) == Some(q),
{
}

/// How far a walk to the cursor at `p` reads the stream: up to the caret
/// position it lands on, or to the end where it lands on the last one.
pub open spec fn snap_read_end(t: Seq<Token>, p: int) -> int {
    match first_valid_after(t, last_valid_upto(t, p)) {
        Some(q) => q,
        None => t.len() as int,
    }
}

/// Where a cursor lies is no earlier than where its walk starts.
proof fn lemma_cursor_target_after(t: Seq<Token>, c: Seq<CurToken>, dp: int, cp: int)
    requires
        balanced(t),
    ensures
        cursor_target(t, c, dp, cp) matches Some(x) ==> dp <= x <= t.len(),
    decreases c.len() - cp,
{
    if 0 <= cp < c.len() && 0 <= dp <= t.len() {
        match c[cp] {
            CurToken::Skip(n) => {
                if n <= span_units(t, dp) {
                    crate::tokens::lemma_skip_units_mono(t, dp, n as nat);
                    lemma_cursor_target_after(t, c, skip_units(t, dp, n as nat), cp + 1);
                }
            },
            CurToken::Open | CurToken::Close => {
                lemma_cursor_target_after(t, c, dp + 1, cp + 1);
            },
            _ => {},
        }
    }
}

/// A forward step of a caret stepper followed by a backward step (and a
/// backward step followed by a forward one) gives back the same position and
/// the same count: the count a step adds is the one the opposite step removes.
pub proof fn law_caret_steps_undo(t: Seq<Token>, p: int, k: int)
    requires
        0 <= p < t.len(),
    ensures
        (k + caret_delta(t, p + 1)) - caret_delta(t, p + 1) == k,
        (k - caret_delta(t, p + 1)) + caret_delta(t, p + 1) == k,
        carets_upto(t, p + 1) == carets_upto(t, p) + caret_delta(t, p + 1),
{
}

/// Caret numbers never decrease along the stream, and each position where a
/// caret may stand takes a number of its own.
pub proof fn lemma_carets_mono(t: Seq<Token>, p: int, q: int)
    requires
        0 <= p <= q,
    ensures
        carets_upto(t, p) <= carets_upto(t, q),
        p < q && valid_caret(t, q) ==> carets_upto(t, p) < carets_upto(t, q),
    decreases q - p,
{
    if p < q {
        lemma_carets_mono(t, p, q - 1);
    }
}

/// What `fwd_caret_search` finds is the first matching position.
pub proof fn lemma_fwd_caret_search(t: Seq<Token>, p: int, target: int)
    requires
        0 <= p <= t.len(),
    ensures
        fwd_caret_search(t, p, target) matches Some(q) ==> {
            &&& p <= q <= t.len()
            &&& valid_caret(t, q)
            &&& carets_upto(t, q) - 1 == target
            &&& forall|x: int|
                p <= x < q ==> !(#[trigger] valid_caret(t, x) && carets_upto(t, x) - 1 == target)
        },
        fwd_caret_search(t, p, target) is None ==> forall|x: int|
            p <= x <= t.len() ==> !(#[trigger] valid_caret(t, x) && carets_upto(t, x) - 1 == target),
    decreases t.len() - p,
{
    if !(valid_caret(t, p) && carets_upto(t, p) - 1 == target) && p < t.len() {
        lemma_fwd_caret_search(t, p + 1, target);
    }
}

/// What `bwd_caret_search` finds is the last matching position.
pub proof fn lemma_bwd_caret_search(t: Seq<Token>, p: int, target: int)
    requires
        0 <= p <= t.len(),
    ensures
        bwd_caret_search(t, p, target) matches Some(q) ==> {
            &&& 0 <= q <= p
            &&& valid_caret(t, q)
            &&& carets_upto(t, q) - 1 == target
            &&& forall|x: int|
                q < x <= p ==> !(#[trigger] valid_caret(t, x) && carets_upto(t, x) - 1 == target)
        },
    decreases p,
{
    if !(valid_caret(t, p) && carets_upto(t, p) - 1 == target) && p > 0 {
        lemma_bwd_caret_search(t, p - 1, target);
    }
}

proof fn lemma_bwd_skip(t: Seq<Token>, p: int, x: int, target: int)
    requires
        0 <= p <= x <= t.len(),
        forall|y: int| p < y <= x ==> !(#[trigger] valid_caret(t, y) && carets_upto(t, y) - 1 == target),
    ensures
        bwd_caret_search(t, x, target) == bwd_caret_search(t, p, target),
    decreases x - p,
{
    if p < x {
        assert(!(valid_caret(t, x) && carets_upto(t, x) - 1 == target));
        lemma_bwd_skip(t, p, x - 1, target);
    }
}

proof fn lemma_fwd_skip(t: Seq<Token>, x: int, p: int, target: int)
    requires
        0 <= x <= p <= t.len(),
        forall|y: int| x <= y < p ==> !(#[trigger] valid_caret(t, y) && carets_upto(t, y) - 1 == target),
    ensures
        fwd_caret_search(t, x, target) == fwd_caret_search(t, p, target),
    decreases p - x,
{
    if x < p {
        assert(!(valid_caret(t, x) && carets_upto(t, x) - 1 == target));
        lemma_fwd_skip(t, x + 1, p, target);
    }
}

/// Moving a walker that stands at a caret position one character right
/// (`next_char`) and then one left (`back_char`) returns it to where it stood.
pub proof fn law_right_then_left(t: Seq<Token>, p: int)
    requires
        0 <= p <= t.len(),
        valid_caret(t, p),
        fwd_caret_search(t, p, carets_upto(t, p)) is Some,
    ensures
        ({
            let q = fwd_caret_search(t, p, carets_upto(t, p))->0;
            bwd_caret_search(t, q, carets_upto(t, q) - 2) == Some(p)
        }),
{
    let k = carets_upto(t, p);
    lemma_fwd_caret_search(t, p, k);
    let q = fwd_caret_search(t, p, k)->0;
    assert(q > p);
    assert forall|y: int| p < y <= q implies !(#[trigger] valid_caret(t, y) && carets_upto(t, y)
        - 1 == k - 1) by {
        if valid_caret(t, y) && carets_upto(t, y) - 1 == k - 1 {
            lemma_carets_mono(t, p, y);
        }
    }
    lemma_bwd_skip(t, p, q, k - 1);
}

/// Moving a walker that stands at a caret position one character left
/// (`back_char`) and then one right (`next_char`) returns it to where it stood.
pub proof fn law_left_then_right(t: Seq<Token>, p: int)
    requires
        0 <= p <= t.len(),
        valid_caret(t, p),
        bwd_caret_search(t, p, carets_upto(t, p) - 2) is Some,
    ensures
        ({
            let q = bwd_caret_search(t, p, carets_upto(t, p) - 2)->0;
            fwd_caret_search(t, q, carets_upto(t, q)) == Some(p)
        }),
{
    let k = carets_upto(t, p);
    lemma_bwd_caret_search(t, p, k - 2);
    let q = bwd_caret_search(t, p, k - 2)->0;
    assert(q < p);
    assert forall|y: int| q <= y < p implies !(#[trigger] valid_caret(t, y) && carets_upto(t, y)
        - 1 == k - 1) by {
        if valid_caret(t, y) && carets_upto(t, y) - 1 == k - 1 {
            lemma_carets_mono(t, y, p);
        }
    }
    lemma_fwd_skip(t, q, p, k - 1);
}

proof fn lemma_last_valid_upto(t: Seq<Token>, p: int)
    requires
        0 <= p <= t.len(),
    ensures
        0 <= last_valid_upto(t, p) <= p,
        last_valid_upto(t, p) > 0 ==> valid_caret(t, last_valid_upto(t, p)),
        forall|y: int| last_valid_upto(t, p) < y <= p ==> !#[trigger] valid_caret(t, y),
    decreases p,
{
    if p > 0 && !valid_caret(t, p) {
        lemma_last_valid_upto(t, p - 1);
    }
}

proof fn lemma_first_valid_after(t: Seq<Token>, r: int)
    requires
        0 <= r <= t.len(),
    ensures
        first_valid_after(t, r) matches Some(q) ==> r < q <= t.len() && valid_caret(t, q),
        first_valid_after(t, r) is None ==> forall|y: int| r < y <= t.len() ==> !#[trigger] valid_caret(t, y),
    decreases t.len() - r,
{
    if r < t.len() && !valid_caret(t, r + 1) {
        lemma_first_valid_after(t, r + 1);
    }
}

proof fn lemma_first_valid_skip(t: Seq<Token>, r: int, x: int)
    requires
        0 <= r <= x <= t.len(),
        forall|y: int| r < y <= x ==> !#[trigger] valid_caret(t, y),
    ensures
        first_valid_after(t, r) == first_valid_after(t, x),
    decreases x - r,
{
    if r < x {
        assert(!valid_caret(t, r + 1));
        lemma_first_valid_skip(t, r + 1, x);
    }
}

/// A cursor that points at a character puts the walker immediately to the
/// right of that character.
pub proof fn law_cursor_on_char_lands_after_it(t: Seq<Token>, x: int)
    requires
        is_char(t, x),
    ensures
        snap_caret(t, x) == x + 1,
{
    lemma_last_valid_upto(t, x);
    lemma_first_valid_skip(t, last_valid_upto(t, x), x);
}

/// Wherever a cursor points, `to_cursor` lands the walker on a position
/// where a caret may stand, as long as the document has any.
pub proof fn law_snap_lands_on_caret(t: Seq<Token>, p: int, v: int)
    requires
        0 <= p <= t.len(),
        0 <= v <= t.len(),
        valid_caret(t, v),
    ensures
        valid_caret(t, snap_caret(t, p)),
        0 <= snap_caret(t, p) <= t.len(),
{
    lemma_last_valid_upto(t, p);
    let r = last_valid_upto(t, p);
    lemma_first_valid_after(t, r);
    if first_valid_after(t, r) is None && r == 0 {
        assert(!valid_caret(t, v));
    }
}

/// A caret-aware cursor over a document, used to find and move carets.
#[derive(Debug)]
pub struct Walker {
    original_doc: DocStepper,
    pub stepper: CaretStepper,
}

impl Walker {
    /// The token stream of the walked document.
    pub closed spec fn tokens(&self) -> Seq<Token> {
        self.stepper.cursor().tokens()
    }

    /// The walker's position in the token stream.
    pub closed spec fn pos(&self) -> int {
        self.stepper.cursor().pos()
    }

    /// The caret position the walker stands at: the number of positions in
    /// `1..=pos` where a caret may stand, less one.
    pub closed spec fn caret(&self) -> int {
        self.stepper.caret()
    }

    /// The walker's cursor.
    pub closed spec fn cursor(&self) -> DocStepper {
        self.stepper.cursor()
    }

    /// The walker's cursor is well formed.
    pub closed spec fn cursor_wf(&self) -> bool {
        self.stepper.cursor().wf()
    }

    /// The walker still walks the document it was made from, which it keeps.
    pub closed spec fn walks_source(&self) -> bool {
        &&& self.original_doc.wf()
        &&& self.original_doc.tokens() == self.stepper.doc.tokens()
    }

    /// Well-formedness: the walker walks the document it was made from, and
    /// the count of caret positions is exact.
    pub open spec fn wf(&self) -> bool {
        &&& self.cursor_wf()
        &&& self.walks_source()
        &&& self.tokens().len() < isize::MAX
        &&& self.caret() == carets_upto(self.tokens(), self.pos()) - 1
    }

    /// A walker at the start of `doc`.
    pub fn new(doc: &Doc) -> (r: Walker)
        requires
            flat_span(doc.0@).len() < isize::MAX,
        ensures
            r.wf(),
            r.tokens() == flat_span(doc.0@),
            r.pos() == 0,
    {
        Walker { original_doc: DocStepper::new(&doc.0), stepper: CaretStepper::new(DocStepper::new(&doc.0)) }
    }

    /// The walker's cursor.
    pub fn doc(&self) -> (r: &DocStepper)
        ensures
            *r == self.cursor(),
            r.tokens() == self.tokens(),
            r.pos() == self.pos(),
            self.wf() ==> r.wf(),
    {
        &self.stepper.doc
    }

    /// The caret position the walker stands at.
    pub fn caret_pos(&self) -> (r: isize)
        ensures
            r == self.caret(),
    {
        self.stepper.caret_pos()
    }

    /// The walker's cursor.
    pub fn stepper(&self) -> (r: &DocStepper)
        ensures
            *r == self.cursor(),
            r.tokens() == self.tokens(),
            r.pos() == self.pos(),
            self.wf() ==> r.wf(),
    {
        &self.stepper.doc
    }


    /// The walker at the caret position that the cursor span `cur` points to.
    pub fn to_cursor(doc: &Doc, cur: &CurSpan) -> (r: Walker)
        requires
            flat_span(doc.0@).len() < isize::MAX,
            cursor_target(flat_span(doc.0@), flat_cur_span(cur@), 0, 0) is Some,
            tagged_between(
                flat_span(doc.0@),
                0,
                snap_read_end(flat_span(doc.0@), cursor_target(flat_span(doc.0@), flat_cur_span(cur@), 0, 0)->0),
            ),
        ensures
            r.wf(),
            r.tokens() == flat_span(doc.0@),
            r.pos() == snap_caret(
                flat_span(doc.0@),
                cursor_target(flat_span(doc.0@), flat_cur_span(cur@), 0, 0)->0,
            ),
    {
        let ghost t = flat_span(doc.0@);
        let ghost c = flat_cur_span(cur@);
        let ghost target = cursor_target(t, c, 0, 0)->0;
        let ghost hi = snap_read_end(t, target);
        proof {
            crate::doc::lemma_flat_span_balanced(doc.0@);
            lemma_cursor_target_after(t, c, 0, 0);
            lemma_last_valid_upto(t, target);
            lemma_first_valid_after(t, last_valid_upto(t, target));
            assert(target <= hi);
        }
        let mut stepper = CaretStepper::new(DocStepper::new(&doc.0));
        let mut match_cur = CurStepper::new(cur);
        let mut match_doc = DocStepper::new(&doc.0);
        let mut matched = false;
        loop
            invariant_except_break
                stepper.cursor().wf(),
                stepper.cursor().tokens() == t,
                match_doc.wf(),
                match_doc.tokens() == t,
                match_cur.wf(),
                match_cur.tokens() == c,
                t.len() < isize::MAX,
                tagged_between(t, 0, hi),
                target <= hi,
                stepper.caret() == carets_upto(t, stepper.cursor().pos()) - 1,
                stepper.cursor().pos() == match_doc.pos(),
                cursor_target(t, c, match_doc.pos(), match_cur.pos()) == Some(target),
                !matched,
            ensures
                stepper.cursor().wf(),
                stepper.cursor().tokens() == t,
                stepper.caret() == carets_upto(t, stepper.cursor().pos()) - 1,
                matched,
                stepper.cursor().pos() == target,
            decreases c.len() - match_cur.pos(),
        {
            match match_cur.peek() {
                Some(CurToken::Group) | Some(CurToken::Char) => {
                    matched = true;
                    break ;
                },
                Some(CurToken::Skip(n)) => {
                    let n = *n;
                    proof {
                        crate::tokens::lemma_skip_units_mono(t, match_doc.pos(), n as nat);
                    }
                    match_cur.next();
                    match_doc.skip(n);
                },
                Some(CurToken::Open) => {
                    match_cur.enter();
                    match_doc.enter();
                },
                _ => {
                    if match_cur.is_done() {
                        break ;
                    }
                    match_cur.exit();
                    match_doc.exit();
                },
            }
            loop
                invariant_except_break
                    match_cur.wf(),
                    match_cur.tokens() == c,
                    cursor_target(t, c, match_doc.pos(), match_cur.pos()) == Some(target),
                    !matched,
                    stepper.cursor().wf(),
                    stepper.cursor().tokens() == t,
                    match_doc.wf(),
                    match_doc.tokens() == t,
                    t.len() < isize::MAX,
                    tagged_between(t, 0, hi),
                target <= hi,
                    stepper.caret() == carets_upto(t, stepper.cursor().pos()) - 1,
                    stepper.cursor().pos() <= match_doc.pos(),
                ensures
                    match_cur.wf(),
                    match_cur.tokens() == c,
                    cursor_target(t, c, match_doc.pos(), match_cur.pos()) == Some(target),
                    !matched,
                    stepper.cursor().wf(),
                    stepper.cursor().tokens() == t,
                    match_doc.wf(),
                    match_doc.tokens() == t,
                    stepper.caret() == carets_upto(t, stepper.cursor().pos()) - 1,
                    stepper.cursor().pos() == match_doc.pos(),
                decreases match_doc.pos() - stepper.cursor().pos(),
            {
                if match_doc.same_place(&stepper.doc) {
                    break ;
                }
                proof {
                    lemma_carets_bound(t, stepper.cursor().pos());
                    lemma_cursor_target_after(t, c, match_doc.pos(), match_cur.pos());
                    assert(tagged_at(t, stepper.cursor().pos()));
                }
                if stepper.next().is_none() {
                    break ;
                }
            }
        }
        // Snap to the last caret position at or before the cursor...
        let mut rstepper = stepper.rev();
        loop
            invariant_except_break
                rstepper.cursor().wf(),
                rstepper.cursor().tokens() == t,
                t.len() < isize::MAX,
                tagged_between(t, 0, hi),
                target <= hi,
                rstepper.caret() == carets_upto(t, rstepper.cursor().pos()) - 1,
                last_valid_upto(t, rstepper.cursor().pos()) == last_valid_upto(t, target),
                0 <= rstepper.cursor().pos() <= target,
            ensures
                rstepper.cursor().wf(),
                rstepper.cursor().tokens() == t,
                rstepper.caret() == carets_upto(t, rstepper.cursor().pos()) - 1,
                rstepper.cursor().pos() == last_valid_upto(t, target),
            decreases rstepper.cursor().pos(),
        {
            proof {
                lemma_carets_bound(t, rstepper.cursor().pos());
                if rstepper.cursor().pos() > 0 {
                    assert(tagged_at(t, rstepper.cursor().pos() - 1));
                }
            }
            if rstepper.is_valid_caret_pos() {
                break ;
            }
            if rstepper.next().is_none() {
                break ;
            }
        }
        let ghost r0 = rstepper.cursor().pos();
        // ... then move right by one whole character.
        let mut stepper = rstepper.clone().rev();
        loop
            invariant_except_break
                stepper.cursor().wf(),
                stepper.cursor().tokens() == t,
                t.len() < isize::MAX,
                tagged_between(t, 0, hi),
                target <= hi,
                stepper.caret() == carets_upto(t, stepper.cursor().pos()) - 1,
                0 <= r0 <= stepper.cursor().pos() <= t.len(),
                rstepper.cursor().wf(),
                rstepper.cursor().tokens() == t,
                rstepper.caret() == carets_upto(t, rstepper.cursor().pos()) - 1,
                rstepper.cursor().pos() == r0,
                r0 == last_valid_upto(t, target),
                first_valid_after(t, r0) == first_valid_after(t, stepper.cursor().pos()),
                stepper.cursor().pos() > r0 ==> !valid_caret(t, stepper.cursor().pos()),
                stepper.cursor().pos() <= hi,
                hi == snap_read_end(t, target),
            ensures
                stepper.cursor().pos() <= hi,
                stepper.cursor().wf(),
                stepper.cursor().tokens() == t,
                stepper.caret() == carets_upto(t, stepper.cursor().pos()) - 1,
                rstepper.cursor().wf(),
                rstepper.cursor().tokens() == t,
                rstepper.caret() == carets_upto(t, rstepper.cursor().pos()) - 1,
                rstepper.cursor().pos() == r0,
                r0 == last_valid_upto(t, target),
                r0 <= stepper.cursor().pos(),
                valid_caret(t, stepper.cursor().pos()) && stepper.cursor().pos() > r0
                    ==> first_valid_after(t, r0) == Some(stepper.cursor().pos()),
                !(valid_caret(t, stepper.cursor().pos()) && stepper.cursor().pos() > r0)
                    ==> first_valid_after(t, r0) is None,
            decreases t.len() - stepper.cursor().pos(),
        {
            proof {
                lemma_carets_bound(t, stepper.cursor().pos());
                lemma_first_valid_after(t, stepper.cursor().pos());
                if stepper.cursor().pos() < t.len() {
                    assert(stepper.cursor().pos() < hi);
                    assert(tagged_at(t, stepper.cursor().pos()));
                }
            }
            if stepper.next().is_none() {
                break ;
            }
            if stepper.is_valid_caret_pos() {
                break ;
            }
        }
        proof {
            if stepper.cursor().pos() > 0 {
                assert(tagged_at(t, stepper.cursor().pos() - 1));
            }
        }
        if !stepper.is_valid_caret_pos() {
            stepper = rstepper.rev();
        }
        Walker { original_doc: DocStepper::new(&doc.0), stepper }
    }

    /// Writers that keep everything from the start of the document up to the
    /// walker, with one open level per group that encloses the walker.
    pub fn to_writer(&self) -> (r: OpWriter)
        requires
            self.wf(),
        ensures
            r.del@ == del_replay(self.tokens(), self.pos()),
            r.add@ == add_replay(self.tokens(), self.pos()),
    {
        let ghost t = self.tokens();
        let ghost p = self.pos();
        let mut del = DelWriter::new();
        let mut add = AddWriter::new();
        let mut doc_stepper = self.original_doc.rewound();
        assert(del@ == del_replay(t, 0));
        assert(add@ == add_replay(t, 0));
        while !self.stepper.doc.same_place(&doc_stepper)
            invariant
                self.wf(),
                t == self.tokens(),
                p == self.pos(),
                doc_stepper.wf(),
                doc_stepper.tokens() == t,
                doc_stepper.pos() <= p,
                del@ == del_replay(t, doc_stepper.pos()),
                add@ == add_replay(t, doc_stepper.pos()),
            decreases p - doc_stepper.pos(),
        {
            let ghost q = doc_stepper.pos();
            proof {
                lemma_replay(t, q);
                lemma_depth_step(t, q);
            }
            match doc_stepper.peek() {
                Some(DocToken::Char(_)) => {
                    del.place(DelElement::DelSkip(1));
                    add.place(AddElement::AddSkip(1));
                    proof {
                        lemma_skip_chars(t, q, 1);
                    }
                    doc_stepper.skip(1);
                },
                Some(DocToken::Open(_)) => {
                    del.begin();
                    add.begin();
                    doc_stepper.enter();
                },
                _ => {
                    assert(is_close(t, q));
                    assert(depth(t, q + 1) >= 0);
                    del.exit();
                    add.exit();
                    doc_stepper.exit();
                },
            }
        }
        OpWriter { del, add }
    }

    /// Moves forward to the first position, from here on, that is caret
    /// position `target`; stays put and answers `false` if there is none.
    pub fn goto_pos(&mut self, target: isize) -> (r: bool)
        requires
            old(self).wf(),
            tagged_between(
                old(self).tokens(),
                if old(self).caret() == target {
                    old(self).pos() - 1
                } else {
                    old(self).pos()
                },
                match fwd_caret_search(old(self).tokens(), old(self).pos(), target as int) {
                    Some(e) => e,
                    None => old(self).tokens().len() as int,
                },
            ),
        ensures
            final(self).wf(),
            final(self).tokens() == old(self).tokens(),
            r == fwd_caret_search(old(self).tokens(), old(self).pos(), target as int) is Some,
            r ==> final(self).pos() == fwd_caret_search(
                old(self).tokens(),
                old(self).pos(),
                target as int,
            )->0,
            !r ==> final(self).pos() == old(self).pos(),
            r ==> final(self).caret() == target && valid_caret(final(self).tokens(), final(self).pos()),
    {
        let ghost t = self.tokens();
        let ghost p0 = self.pos();
        let ghost c0 = self.caret();
        let ghost hi = match fwd_caret_search(t, p0, target as int) {
            Some(e) => e,
            None => t.len() as int,
        };
        proof {
            lemma_fwd_caret_search(t, p0, target as int);
        }
        let mut stepper = self.stepper.clone();
        let mut matched = false;
        loop
            invariant_except_break
                stepper.cursor().wf(),
                stepper.cursor().tokens() == t,
                t.len() < isize::MAX,
                tagged_between(t, if c0 == target { p0 - 1 } else { p0 }, hi),
                c0 == carets_upto(t, p0) - 1,
                hi == match fwd_caret_search(t, p0, target as int) {
                    Some(e) => e,
                    None => t.len() as int,
                },
                stepper.cursor().pos() <= hi,
                stepper.caret() == carets_upto(t, stepper.cursor().pos()) - 1,
                p0 <= stepper.cursor().pos(),
                fwd_caret_search(t, p0, target as int) == fwd_caret_search(
                    t,
                    stepper.cursor().pos(),
                    target as int,
                ),
                !matched,
            ensures
                stepper.cursor().wf(),
                stepper.cursor().tokens() == t,
                stepper.caret() == carets_upto(t, stepper.cursor().pos()) - 1,
                matched ==> fwd_caret_search(t, p0, target as int) == Some(stepper.cursor().pos()),
                !matched ==> fwd_caret_search(t, p0, target as int) is None,
            decreases t.len() - stepper.cursor().pos(),
        {
            let ghost q = stepper.cursor().pos();
            proof {
                lemma_carets_bound(t, q);
                lemma_fwd_caret_search(t, q, target as int);
                if q > p0 || c0 == target as int {
                    assert(tagged_at(t, q - 1));
                }
            }
            if stepper.caret_pos() == target && stepper.is_valid_caret_pos() {
                matched = true;
                break ;
            }
            proof {
                if q < t.len() {
                    assert(tagged_at(t, q));
                }
            }
            if stepper.next().is_none() {
                break ;
            }
        }
        if matched {
            self.stepper = stepper;
        }
        matched
    }

    /// The walker at the first caret of `client_id` with the given focus.
    pub fn to_caret(doc: &Doc, client_id: &str, focus: bool) -> (r: Walker)
        requires
            flat_span(doc.0@).len() < isize::MAX,
            first_caret(flat_span(doc.0@), client_id@, focus, 0) is Some,
            tags_ok_before(flat_span(doc.0@), caret_search_end(flat_span(doc.0@), client_id@, focus)),
        ensures
            r.wf(),
            r.tokens() == flat_span(doc.0@),
            r.pos() == first_caret(flat_span(doc.0@), client_id@, focus, 0)->0,
            is_open(r.tokens(), r.pos()),
            caret_match(open_attrs(r.tokens(), r.pos()), Some(client_id@), focus),
    {
        proof {
            lemma_first_caret(flat_span(doc.0@), client_id@, focus, 0);
        }
        let ghost t = flat_span(doc.0@);
        let mut stepper = CaretStepper::new(DocStepper::new(&doc.0));
        loop
            invariant_except_break
                stepper.cursor().wf(),
                stepper.cursor().tokens() == t,
                t.len() < isize::MAX,
                tags_ok_before(t, caret_search_end(t, client_id@, focus)),
                stepper.caret() == carets_upto(t, stepper.cursor().pos()) - 1,
                first_caret(t, client_id@, focus, stepper.cursor().pos()) == first_caret(
                    t,
                    client_id@,
                    focus,
                    0,
                ),
                first_caret(t, client_id@, focus, 0) is Some,
            ensures
                stepper.cursor().wf(),
                stepper.cursor().tokens() == t,
                stepper.caret() == carets_upto(t, stepper.cursor().pos()) - 1,
                first_caret(t, client_id@, focus, 0) == Some(stepper.cursor().pos()),
            decreases t.len() - stepper.cursor().pos(),
        {
            let ghost p = stepper.cursor().pos();
            proof {
                lemma_first_caret(t, client_id@, focus, p);
            }
            if let Some(DocToken::Open(attrs)) = stepper.doc.peek() {
                assert(is_open(t, p));
                if is_caret(attrs, Some(client_id), focus) {
                    break ;
                }
            }
            proof {
                lemma_char_run_end(t, p);
                lemma_first_caret_chars(t, client_id@, focus, p, char_run_end(t, p));
            }
            if stepper.skip_element().is_none() {
                break ;
            }
        }
        Walker { original_doc: DocStepper::new(&doc.0), stepper }
    }

    /// The walker at the first caret of `client_id` with the given focus, if
    /// the document holds one.
    pub fn to_caret_safe(doc: &Doc, client_id: &str, focus: bool) -> (r: Option<Walker>)
        requires
            flat_span(doc.0@).len() < isize::MAX,
            tags_ok_before(flat_span(doc.0@), caret_search_end(flat_span(doc.0@), client_id@, focus)),
        ensures
            r is Some <==> first_caret(flat_span(doc.0@), client_id@, focus, 0) is Some,
            r matches Some(w) ==> w.wf() && w.tokens() == flat_span(doc.0@) && w.pos() == first_caret(
                flat_span(doc.0@),
                client_id@,
                focus,
                0,
            )->0,
    {
        let ghost t = flat_span(doc.0@);
        let mut stepper = CaretStepper::new(DocStepper::new(&doc.0));
        let mut matched = false;
        loop
            invariant_except_break
                stepper.cursor().wf(),
                stepper.cursor().tokens() == t,
                t.len() < isize::MAX,
                tags_ok_before(t, caret_search_end(t, client_id@, focus)),
                stepper.caret() == carets_upto(t, stepper.cursor().pos()) - 1,
                first_caret(t, client_id@, focus, stepper.cursor().pos()) == first_caret(
                    t,
                    client_id@,
                    focus,
                    0,
                ),
                !matched,
            ensures
                stepper.cursor().wf(),
                stepper.cursor().tokens() == t,
                stepper.caret() == carets_upto(t, stepper.cursor().pos()) - 1,
                matched ==> first_caret(t, client_id@, focus, 0) == Some(stepper.cursor().pos()),
                !matched ==> first_caret(t, client_id@, focus, 0) is None,
            decreases t.len() - stepper.cursor().pos(),
        {
            let ghost p = stepper.cursor().pos();
            proof {
                lemma_first_caret(t, client_id@, focus, p);
            }
            if let Some(DocToken::Open(attrs)) = stepper.doc.peek() {
                assert(is_open(t, p));
                if is_caret(attrs, Some(client_id), focus) {
                    matched = true;
                    break ;
                }
            }
            proof {
                lemma_carets_bound(t, p);
            }
            if stepper.next().is_none() {
                break ;
            }
        }
        if !matched {
            None
        } else {
            Some(Walker { original_doc: DocStepper::new(&doc.0), stepper })
        }
    }

    /// Moves back to the start of the group that contains the walker. At top
    /// level there is none: it answers `false` and leaves the walker at the
    /// start of the document.
    pub fn parent(&mut self) -> (r: bool)
        requires
            old(self).wf(),
            tagged_between(old(self).tokens(), span_start(old(self).tokens(), old(self).pos()) - 1, old(self).pos()),
        ensures
            final(self).wf(),
            final(self).tokens() == old(self).tokens(),
            r == (depth(old(self).tokens(), old(self).pos()) >= 1),
            r ==> final(self).pos() == span_start(old(self).tokens(), old(self).pos()) - 1,
            !r ==> final(self).pos() == 0,
    {
        let ghost t = self.tokens();
        let ghost p0 = self.pos();
        let ghost d0 = depth(t, p0);
        proof {
            lemma_span_start(t, p0);
            assert(d0 >= 0);
        }
        let mut taken = CaretStepper::new(DocStepper::new(&Vec::new()));
        std::mem::swap(&mut taken, &mut self.stepper);
        let mut rstepper = taken.rev();
        let mut count: usize = 1;
        while count > 0
            invariant_except_break
                rstepper.cursor().wf(),
                rstepper.cursor().tokens() == t,
                t.len() < isize::MAX,
                tagged_between(t, span_start(t, p0) - 1, p0),
                span_start(t, p0) - 1 <= rstepper.cursor().pos() <= p0,
                balanced(t),
                rstepper.caret() == carets_upto(t, rstepper.cursor().pos()) - 1,
                count == 1 + depth(t, rstepper.cursor().pos()) - d0,
                d0 >= 0,
                count > 0 ==> span_start_from(t, d0, rstepper.cursor().pos()) == span_start(t, p0),
                count == 0 ==> rstepper.cursor().pos() == span_start(t, p0) - 1 && d0 >= 1,
                0 <= p0 <= t.len(),
            ensures
                rstepper.cursor().wf(),
                rstepper.cursor().tokens() == t,
                rstepper.caret() == carets_upto(t, rstepper.cursor().pos()) - 1,
                count == 0 ==> rstepper.cursor().pos() == span_start(t, p0) - 1 && d0 >= 1,
                count != 0 ==> rstepper.cursor().pos() == 0 && span_start(t, p0) == 0,
            decreases rstepper.cursor().pos(),
        {
            let ghost q = rstepper.cursor().pos();
            proof {
                lemma_carets_bound(t, q);
                crate::tokens::lemma_depth_bound(t, q);
                crate::tokens::lemma_span_start_from(t, d0, q);
                if q > 0 {
                    assert(tagged_at(t, q - 1));
                }
            }
            if rstepper.next().is_none() {
                break ;
            }
            proof {
                lemma_depth_step(t, q - 1);
                crate::tokens::lemma_depth_bound(t, q - 1);
                assert(span_start_from(t, d0, q) == if is_open(t, q - 1) && depth(t, q) == d0 {
                    q
                } else {
                    span_start_from(t, d0, q - 1)
                });
            }
            match rstepper.doc().peek() {
                Some(DocToken::Open(_)) => {
                    count = count - 1;
                },
                Some(DocToken::Close) => {
                    count = count + 1;
                },
                _ => {},
            }
        }
        let matched = count == 0;
        self.stepper = rstepper.rev();
        matched
    }

    /// Moves back to the start of the last block before the walker (a text
    /// block, or also a block without text where `with_objects`).
    fn back_to_block(&mut self, with_objects: bool) -> (r: bool)
        requires
            old(self).wf(),
            tagged_between(
                old(self).tokens(),
                match last_block_before(old(self).tokens(), old(self).pos(), with_objects) {
                    Some(e) => e,
                    None => 0,
                },
                old(self).pos(),
            ),
        ensures
            final(self).wf(),
            final(self).tokens() == old(self).tokens(),
            r == last_block_before(old(self).tokens(), old(self).pos(), with_objects) is Some,
            r ==> final(self).pos() == last_block_before(
                old(self).tokens(),
                old(self).pos(),
                with_objects,
            )->0,
            !r ==> final(self).pos() == old(self).pos(),
    {
        let ghost t = self.tokens();
        let ghost p0 = self.pos();
        let mut rstepper = self.stepper.clone().rev();
        let ghost lo = match last_block_before(t, p0, with_objects) {
            Some(e) => e,
            None => 0,
        };
        proof {
            lemma_last_block_before(t, p0, with_objects);
        }
        let mut matched = false;
        loop
            invariant_except_break
                rstepper.cursor().wf(),
                rstepper.cursor().tokens() == t,
                t.len() < isize::MAX,
                tagged_between(t, lo, p0),
                lo == match last_block_before(t, p0, with_objects) {
                    Some(e) => e,
                    None => 0,
                },
                lo <= rstepper.cursor().pos() <= p0,
                rstepper.caret() == carets_upto(t, rstepper.cursor().pos()) - 1,
                last_block_before(t, p0, with_objects) == last_block_before(
                    t,
                    rstepper.cursor().pos(),
                    with_objects,
                ),
                !matched,
            ensures
                rstepper.cursor().wf(),
                rstepper.cursor().tokens() == t,
                rstepper.caret() == carets_upto(t, rstepper.cursor().pos()) - 1,
                matched ==> last_block_before(t, p0, with_objects) == Some(rstepper.cursor().pos()),
                !matched ==> last_block_before(t, p0, with_objects) is None,
            decreases rstepper.cursor().pos(),
        {
            let ghost q = rstepper.cursor().pos();
            proof {
                lemma_carets_bound(t, q);
                lemma_last_block_before(t, q, with_objects);
                if q > 0 {
                    assert(tagged_at(t, q - 1));
                }
            }
            if rstepper.next().is_none() {
                break ;
            }
            if let Some(DocToken::Open(attrs)) = rstepper.doc().peek() {
                assert(is_open(t, q - 1));
                if is_block(attrs) || (with_objects && is_block_object(attrs)) {
                    matched = true;
                    break ;
                }
            }
        }
        if matched {
            self.stepper = rstepper.rev();
        }
        matched
    }

    /// Moves back to the start of the last text block or block without text
    /// before the walker; stays put and answers `false` if there is none.
    pub fn back_block_or_block_object(&mut self) -> (r: bool)
        requires
            old(self).wf(),
            tagged_between(
                old(self).tokens(),
                match last_block_before(old(self).tokens(), old(self).pos(), true) {
                    Some(e) => e,
                    None => 0,
                },
                old(self).pos(),
            ),
        ensures
            final(self).wf(),
            final(self).tokens() == old(self).tokens(),
            r == last_block_before(old(self).tokens(), old(self).pos(), true) is Some,
            r ==> final(self).pos() == last_block_before(old(self).tokens(), old(self).pos(), true)->0,
            !r ==> final(self).pos() == old(self).pos(),
    {
        self.back_to_block(true)
    }

    /// Moves back to the start of the last text block before the walker;
    /// stays put and answers `false` if there is none.
    pub fn back_block(&mut self) -> (r: bool)
        requires
            old(self).wf(),
            tagged_between(
                old(self).tokens(),
                match last_block_before(old(self).tokens(), old(self).pos(), false) {
                    Some(e) => e,
                    None => 0,
                },
                old(self).pos(),
            ),
        ensures
            final(self).wf(),
            final(self).tokens() == old(self).tokens(),
            r == last_block_before(old(self).tokens(), old(self).pos(), false) is Some,
            r ==> final(self).pos() == last_block_before(old(self).tokens(), old(self).pos(), false)->0,
            !r ==> final(self).pos() == old(self).pos(),
    {
        self.back_to_block(false)
    }

    /// Moves forward to the start of the next text block; stays put and
    /// answers `false` if there is none.
    pub fn next_block(&mut self) -> (r: bool)
        requires
            old(self).wf(),
            tagged_between(
                old(self).tokens(),
                old(self).pos(),
                match first_block_after(old(self).tokens(), old(self).pos()) {
                    Some(e) => e + 1,
                    None => old(self).tokens().len() as int,
                },
            ),
        ensures
            final(self).wf(),
            final(self).tokens() == old(self).tokens(),
            r == first_block_after(old(self).tokens(), old(self).pos()) is Some,
            r ==> final(self).pos() == first_block_after(old(self).tokens(), old(self).pos())->0,
            !r ==> final(self).pos() == old(self).pos(),
    {
        let ghost t = self.tokens();
        let ghost p0 = self.pos();
        let ghost hi = match first_block_after(t, p0) {
            Some(e) => e + 1,
            None => t.len() as int,
        };
        proof {
            lemma_first_block_after(t, p0);
        }
        let mut stepper = self.stepper.clone();
        let mut matched = false;
        loop
            invariant_except_break
                stepper.cursor().wf(),
                stepper.cursor().tokens() == t,
                t.len() < isize::MAX,
                tagged_between(t, p0, hi),
                hi == match first_block_after(t, p0) {
                    Some(e) => e + 1,
                    None => t.len() as int,
                },
                p0 <= stepper.cursor().pos() <= hi,
                stepper.caret() == carets_upto(t, stepper.cursor().pos()) - 1,
                first_block_after(t, p0) == first_block_after(t, stepper.cursor().pos()),
                !matched,
            ensures
                stepper.cursor().wf(),
                stepper.cursor().tokens() == t,
                stepper.caret() == carets_upto(t, stepper.cursor().pos()) - 1,
                matched ==> first_block_after(t, p0) == Some(stepper.cursor().pos()),
                !matched ==> first_block_after(t, p0) is None,
            decreases t.len() - stepper.cursor().pos(),
        {
            let ghost q = stepper.cursor().pos();
            proof {
                lemma_carets_bound(t, q);
                lemma_first_block_after(t, q);
                if q < t.len() {
                    assert(tagged_at(t, q));
                }
                if q + 1 < t.len() {
                    assert(tagged_at(t, q + 1));
                }
            }
            if stepper.next().is_none() {
                break ;
            }
            if let Some(DocToken::Open(attrs)) = stepper.doc.peek() {
                assert(is_open(t, q + 1));
                if is_block(attrs) {
                    matched = true;
                    break ;
                }
            }
        }
        if matched {
            self.stepper = stepper;
        }
        matched
    }

    /// Moves forward to the next caret position; stays put at the end.
    pub fn next_char(&mut self) -> (r: &mut Walker)
        requires
            old(self).wf(),
            tagged_between(
                old(self).tokens(),
                old(self).pos(),
                match fwd_caret_search(old(self).tokens(), old(self).pos(), old(self).caret() + 1) {
                    Some(e) => e,
                    None => old(self).tokens().len() as int,
                },
            ),
        ensures
            *final(self) == *final(r),
            r.wf(),
            r.tokens() == old(self).tokens(),
            r.pos() == match fwd_caret_search(
                old(self).tokens(),
                old(self).pos(),
                old(self).caret() + 1,
            ) {
                Some(q) => q,
                None => old(self).pos(),
            },
    {
        proof {
            lemma_carets_bound(self.tokens(), self.pos());
        }
        let target = self.stepper.caret_pos() + 1;
        let _ = self.goto_pos(target);
        self
    }

    /// Moves back to the previous caret position; stays put at the start.
    pub fn back_char(&mut self) -> (r: &mut Walker)
        requires
            old(self).wf(),
            tagged_between(
                old(self).tokens(),
                match bwd_caret_search(old(self).tokens(), old(self).pos(), old(self).caret() - 1) {
                    Some(e) => e - 1,
                    None => 0,
                },
                old(self).pos(),
            ),
        ensures
            *final(self) == *final(r),
            r.wf(),
            r.tokens() == old(self).tokens(),
            r.pos() == match bwd_caret_search(
                old(self).tokens(),
                old(self).pos(),
                old(self).caret() - 1,
            ) {
                Some(q) => q,
                None => old(self).pos(),
            },
    {
        let ghost t = self.tokens();
        let ghost p0 = self.pos();
        proof {
            lemma_carets_bound(t, p0);
        }
        let mut rstepper = self.stepper.clone().rev();
        let target = rstepper.caret_pos() - 1;
        let ghost lo = match bwd_caret_search(t, p0, target as int) {
            Some(e) => e - 1,
            None => 0,
        };
        proof {
            lemma_bwd_caret_search(t, p0, target as int);
        }
        let mut matched = false;
        loop
            invariant_except_break
                rstepper.cursor().wf(),
                rstepper.cursor().tokens() == t,
                t.len() < isize::MAX,
                tagged_between(t, lo, p0),
                lo == match bwd_caret_search(t, p0, target as int) {
                    Some(e) => e - 1,
                    None => 0,
                },
                lo <= rstepper.cursor().pos() <= p0,
                rstepper.caret() == carets_upto(t, rstepper.cursor().pos()) - 1,
                bwd_caret_search(t, p0, target as int) == bwd_caret_search(
                    t,
                    rstepper.cursor().pos(),
                    target as int,
                ),
                !matched,
            ensures
                rstepper.cursor().wf(),
                rstepper.cursor().tokens() == t,
                rstepper.caret() == carets_upto(t, rstepper.cursor().pos()) - 1,
                matched ==> bwd_caret_search(t, p0, target as int) == Some(rstepper.cursor().pos()),
                !matched ==> bwd_caret_search(t, p0, target as int) is None,
            decreases rstepper.cursor().pos(),
        {
            let ghost q = rstepper.cursor().pos();
            proof {
                lemma_carets_bound(t, q);
                lemma_bwd_caret_search(t, q, target as int);
                if q > 0 {
                    assert(tagged_at(t, q - 1));
                }
            }
            if rstepper.caret_pos() == target && rstepper.is_valid_caret_pos() {
                matched = true;
                break ;
            }
            if rstepper.next().is_none() {
                break ;
            }
        }
        if matched {
            self.stepper = rstepper.rev();
        }
        self
    }
}

impl Clone for Walker {
    /// A copy of this walker.
    fn clone(&self) -> (r: Walker)
        ensures
            r.tokens() == self.tokens(),
            r.pos() == self.pos(),
            r.caret() == self.caret(),
            r.wf() == self.wf(),
    {
        Walker { original_doc: self.original_doc.clone(), stepper: self.stepper.clone() }
    }
}

} // verus!
