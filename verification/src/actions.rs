//! Editing actions: the operations that a client's keystrokes produce,
//! computed at the client's caret.

use vstd::prelude::*;
use crate::doc::{depth, flat_span, Attrs, AttrsV, Doc, Token};
use crate::cursor::{flat_cur_span, CurSpan};
use crate::stepper::{push_char, DocStepper, DocToken};
use crate::tokens::{is_char, is_open, open_attrs, span_units};
use crate::walkers::{
    add_replay, bwd_caret_search, caret_search_end, carets_upto, cursor_target, del_replay,
    first_caret, fwd_caret_search, last_block_before, lemma_carets_bound, lemma_replay, snap_caret,
    snap_read_end, tagged_between, tags_ok_before, block_attrs, Walker,
};
use crate::writer::{
    add_single, del_single, lemma_add_exit_all, lemma_del_exit_all, op_view, Add, AddElement, Del, DelElement, Op,
};

verus! {

/// A client's view of the document it edits.
pub struct ActionContext {
    pub doc: Doc,
    pub client_id: String,
}

/// The token stream of the context's document.
pub open spec fn ctx_tokens(ctx: &ActionContext) -> Seq<Token> {
    flat_span(ctx.doc.0@)
}

/// The document can be walked, and holds the client's (unfocused) caret;
/// every group up to that caret carries a tag, and every caret among them
/// names its client.
pub open spec fn ctx_ready(ctx: &ActionContext) -> bool {
    &&& ctx_tokens(ctx).len() < isize::MAX
    &&& first_caret(ctx_tokens(ctx), ctx.client_id@, false, 0) is Some
    &&& tags_ok_before(ctx_tokens(ctx), caret_search_end(ctx_tokens(ctx), ctx.client_id@, false))
}

/// The position of the client's caret group.
pub open spec fn ctx_caret(ctx: &ActionContext) -> int {
    first_caret(ctx_tokens(ctx), ctx.client_id@, false, 0)->0
}

/// The start of the last text block before `c`, or `c` if there is none.
pub open spec fn block_or_here(t: Seq<Token>, c: int) -> int {
    match last_block_before(t, c, false) {
        Some(b) => b,
        None => c,
    }
}

/// The attributes of a new caret of `client`.
pub open spec fn caret_attrs(client: Seq<char>) -> AttrsV {
    Map::empty().insert("tag"@, "caret"@).insert("client"@, client)
}

/// The operation that deletes the caret group at `c`.
pub open spec fn remove_caret_op(t: Seq<Token>, c: int) -> (Seq<Del>, Seq<Add>) {
    (del_replay(t, c).begin().close().exit_all().past, add_replay(t, c).exit_all().past)
}

/// The operation that inserts a caret of `client` at `p`.
pub open spec fn insert_caret_op(t: Seq<Token>, p: int, client: Seq<char>) -> (Seq<Del>, Seq<Add>) {
    (
        del_replay(t, p).exit_all().past,
        add_replay(t, p).begin().close(caret_attrs(client)).exit_all().past,
    )
}

/// The character with code point `key`, if there is one.
pub open spec fn code_char(key: u32) -> Option<char> {
    if key < 0xD800 || (0xE000 <= key && key <= 0x10FFFF) {
        Some(key as char)
    } else {
        None
    }
}

/// The character with code point `key` (std's `char::from_u32`).
#[verifier::external_body]
fn char_from_u32(key: u32) -> (r: Option<char>)
    ensures
        r == code_char(key),
{
    std::char::from_u32(key)
}

/// The empty operation.
fn empty_op() -> (r: Op)
    ensures
        op_view(r) == (Seq::<Del>::empty(), Seq::<Add>::empty()),
{
    (Vec::new(), Vec::new())
}

/// The attributes `{"tag": tag}`.
fn tag_attrs(tag: &str) -> (r: Attrs)
    ensures
        r@ == Map::<Seq<char>, Seq<char>>::empty().insert("tag"@, tag@),
{
    let mut a = Attrs::new();
    a.insert("tag", tag);
    a
}

/// The operation that removes the caret group at the walker.
fn remove_caret(walker: &Walker) -> (r: Op)
    requires
        walker.wf(),
    ensures
        op_view(r) == remove_caret_op(walker.tokens(), walker.pos()),
{
    let mut writer = walker.to_writer();
    writer.del.begin();
    writer.del.close();
    writer.del.exit_all();
    writer.add.exit_all();
    proof {
        lemma_del_exit_all(del_replay(walker.tokens(), walker.pos()).begin().close());
        lemma_add_exit_all(add_replay(walker.tokens(), walker.pos()));
    }
    writer.result()
}

/// The operation that inserts a caret of `client` at the walker.
fn insert_caret(walker: &Walker, client: &String) -> (r: Op)
    requires
        walker.wf(),
    ensures
        op_view(r) == insert_caret_op(walker.tokens(), walker.pos(), client@),
{
    let mut writer = walker.to_writer();
    writer.del.exit_all();
    writer.add.begin();
    let mut attrs = Attrs::new();
    attrs.insert("tag", "caret");
    attrs.insert("client", client.as_str());
    writer.add.close(attrs);
    writer.add.exit_all();
    proof {
        lemma_del_exit_all(del_replay(walker.tokens(), walker.pos()));
        lemma_add_exit_all(
            add_replay(walker.tokens(), walker.pos()).begin().close(caret_attrs(client@)),
        );
    }
    writer.result()
}

/// Wraps the content of the block holding the caret in a new block with
/// tag `tag`, deleting the old block around it.
pub fn replace_block(ctx: ActionContext, tag: &str) -> (r: Op)
    requires
        ctx_ready(&ctx),
        depth(ctx_tokens(&ctx), block_or_here(ctx_tokens(&ctx), ctx_caret(&ctx))) == 0,
    ensures
        ({
            let t = ctx_tokens(&ctx);
            let b = block_or_here(t, ctx_caret(&ctx));
            let n = span_units(t, b + 1);
            op_view(r) == (
                del_replay(t, b).place(Del::Group(seq![Del::Skip(n)])).past,
                add_replay(t, b).place(
                    Add::Group(Map::empty().insert("tag"@, tag@), seq![Add::Skip(n)]),
                ).past,
            )
        }),
{
    let ghost t = ctx_tokens(&ctx);
    let mut walker = Walker::to_caret(&ctx.doc, ctx.client_id.as_str(), false);
    proof {
        crate::walkers::lemma_first_caret(t, ctx.client_id@, false, 0);
        crate::walkers::lemma_last_block_before(t, ctx_caret(&ctx), false);
    }
    let _ = walker.back_block();
    let ghost b = walker.pos();
    assert(is_open(t, b));
    let mut inner = walker.doc().clone();
    inner.enter();
    let len = inner.skip_len();
    let mut writer = walker.to_writer();
    proof {
        lemma_replay(t, b);
    }
    writer.del.group(del_single(DelElement::DelSkip(len)));
    writer.add.group(tag_attrs(tag), add_single(AddElement::AddSkip(len)));
    writer.result()
}

/// Deletes the character before the caret; nothing at the start of a block
/// or where no character precedes.
pub fn delete_char(ctx: ActionContext) -> (r: Op)
    requires
        ctx_ready(&ctx),
    ensures
        ({
            let t = ctx_tokens(&ctx);
            let c = ctx_caret(&ctx);
            let q = match bwd_caret_search(t, c, carets_upto(t, c) - 2) {
                Some(q) => q,
                None => c,
            };
            if carets_upto(t, block_or_here(t, c)) == carets_upto(t, c) || !is_char(t, q) {
                op_view(r) == (Seq::<Del>::empty(), Seq::<Add>::empty())
            } else {
                op_view(r) == (
                    del_replay(t, q).place(Del::Chars(1)).exit_all().past,
                    add_replay(t, q).exit_all().past,
                )
            }
        }),
{
    let ghost t = ctx_tokens(&ctx);
    let mut walker = Walker::to_caret(&ctx.doc, ctx.client_id.as_str(), false);
    let caret_pos = walker.caret_pos();
    let mut block_walker = walker.clone();
    let _ = block_walker.back_block();
    if caret_pos == block_walker.caret_pos() {
        return empty_op();
    }
    walker.back_char();
    match walker.doc().head() {
        Some(crate::doc::DocElement::DocChars(_)) => {},
        _ => {
            return empty_op();
        },
    }
    let ghost q = walker.pos();
    let mut writer = walker.to_writer();
    proof {
        lemma_replay(t, q);
    }
    writer.del.chars(1);
    writer.del.exit_all();
    writer.add.exit_all();
    proof {
        lemma_del_exit_all(del_replay(t, q).place(Del::Chars(1)));
        lemma_add_exit_all(add_replay(t, q));
    }
    writer.result()
}

/// The character that a key code types: the code point itself, or `?`
/// where it names no character.
pub open spec fn key_char(key: u32) -> char {
    match code_char(key) {
        Some(c) => c,
        None => '?',
    }
}

/// Typing a key inserts the character whose code point is the key, for
/// every Unicode scalar value (those beyond the Basic Multilingual Plane
/// included); only a key that names no character (a surrogate, or a value
/// beyond U+10FFFF) is typed as `?`.
pub proof fn law_typed_char_is_the_key(key: u32)
    ensures
        (key < 0xD800 || (0xE000 <= key && key <= 0x10FFFF)) ==> key_char(key) as u32 == key,
        !(key < 0xD800 || (0xE000 <= key && key <= 0x10FFFF)) ==> key_char(key) == '?',
{
}

/// Inserts the character with code point `key` (or `?`) at the caret.
pub fn add_char(ctx: ActionContext, key: u32) -> (r: Op)
    requires
        ctx_ready(&ctx),
    ensures
        ({
            let t = ctx_tokens(&ctx);
            let c = ctx_caret(&ctx);
            op_view(r) == (
                del_replay(t, c).exit_all().past,
                add_replay(t, c).place(Add::Chars(seq![key_char(key)])).exit_all().past,
            )
        }),
{
    let ghost t = ctx_tokens(&ctx);
    let walker = Walker::to_caret(&ctx.doc, ctx.client_id.as_str(), false);
    let ghost c = walker.pos();
    let mut writer = walker.to_writer();
    writer.del.exit_all();
    let ch = match char_from_u32(key) {
        Some(ch) => ch,
        None => '?',
    };
    let mut text = String::new();
    push_char(&mut text, ch);
    assert(text@ =~= seq![key_char(key)]);
    writer.add.chars(text.as_str());
    writer.add.exit_all();
    proof {
        lemma_del_exit_all(del_replay(t, c));
        lemma_add_exit_all(add_replay(t, c).place(Add::Chars(seq![key_char(key)])));
    }
    writer.result()
}

/// The tag of the block that a split leaves before the caret: that of the
/// last text block before the caret (or of the caret group, if none).
pub open spec fn split_tag(t: Seq<Token>, c: int) -> Seq<char> {
    open_attrs(t, block_or_here(t, c))["tag"@]
}

proof fn lemma_last_block_is(t: Seq<Token>, b: int, q: int)
    requires
        0 <= b < q <= t.len(),
        is_open(t, b),
        block_attrs(open_attrs(t, b)),
        forall|x: int| b < x < q ==> !(#[trigger] is_open(t, x) && block_attrs(open_attrs(t, x))),
    ensures
        last_block_before(t, q, false) == Some(b),
    decreases q - b,
{
    if q - 1 > b {
        assert(!(is_open(t, q - 1) && block_attrs(open_attrs(t, q - 1))));
        lemma_last_block_is(t, b, q - 1);
    }
}

/// Splitting a block keeps, on the part before the caret, the tag of the
/// text block that holds the caret: the last text block that opens before
/// the caret, with no other text block opening between it and the caret.
pub proof fn law_split_keeps_the_block_tag(t: Seq<Token>, b: int, c: int)
    requires
        0 <= b < c <= t.len(),
        is_open(t, b),
        block_attrs(open_attrs(t, b)),
        forall|x: int| b < x < c ==> !(#[trigger] is_open(t, x) && block_attrs(open_attrs(t, x))),
    ensures
        split_tag(t, c) == open_attrs(t, b)["tag"@],
{
    lemma_last_block_is(t, b, c);
}

/// Splits the block at the caret: what follows the caret in its block moves
/// into a new paragraph after it.
pub fn split_block(ctx: ActionContext) -> (r: Op)
    requires
        ctx_ready(&ctx),
        depth(ctx_tokens(&ctx), ctx_caret(&ctx)) >= 1,
    ensures
        ({
            let t = ctx_tokens(&ctx);
            let c = ctx_caret(&ctx);
            let n = span_units(t, c);
            op_view(r) == (
                del_replay(t, c).place(Del::Skip(n)).close().exit_all().past,
                add_replay(t, c).close(Map::empty().insert("tag"@, split_tag(t, c))).begin().place(
                    Add::Skip(n),
                ).close(Map::empty().insert("tag"@, "p"@)).exit_all().past,
            )
        }),
{
    let ghost t = ctx_tokens(&ctx);
    let walker = Walker::to_caret(&ctx.doc, ctx.client_id.as_str(), false);
    let ghost c = walker.pos();
    let skip = walker.doc().skip_len();
    let mut prev = walker.clone();
    proof {
        crate::walkers::lemma_first_caret(t, ctx.client_id@, false, 0);
        crate::walkers::lemma_last_block_before(t, c, false);
    }
    let _ = prev.back_block();
    assert(is_open(t, prev.pos()));
    let previous_block = match prev.doc().head() {
        Some(crate::doc::DocElement::DocGroup(attrs, _)) => attrs.get("tag").unwrap().clone(),
        _ => "p".to_owned(),
    };
    let mut writer = walker.to_writer();
    proof {
        lemma_replay(t, c);
        crate::tokens::lemma_span_units_bound(t, c);
    }
    writer.del.skip(skip);
    writer.del.close();
    writer.del.exit_all();
    writer.add.close(tag_attrs(previous_block.as_str()));
    writer.add.begin();
    writer.add.skip(skip);
    writer.add.close(tag_attrs("p"));
    writer.add.exit_all();
    proof {
        lemma_del_exit_all(del_replay(t, c).place(Del::Skip(skip as nat)).close());
        lemma_add_exit_all(
            add_replay(t, c).close(Map::empty().insert("tag"@, split_tag(t, c))).begin().place(
                Add::Skip(skip as nat),
            ).close(Map::empty().insert("tag"@, "p"@)),
        );
    }
    writer.result()
}

/// Moves the caret one character right (`increase`) or left: an operation
/// that removes the caret and one that inserts it at its new place, in the
/// order in which they apply.
pub fn caret_move(ctx: ActionContext, increase: bool) -> (r: Vec<Op>)
    requires
        ctx_ready(&ctx),
        increase ==> tagged_between(
            ctx_tokens(&ctx),
            ctx_caret(&ctx),
            match fwd_caret_search(ctx_tokens(&ctx), ctx_caret(&ctx), carets_upto(ctx_tokens(&ctx), ctx_caret(&ctx))) {
                Some(e) => e,
                None => ctx_tokens(&ctx).len() as int,
            },
        ),
    ensures
        ({
            let t = ctx_tokens(&ctx);
            let c = ctx_caret(&ctx);
            let found = if increase {
                fwd_caret_search(t, c, carets_upto(t, c))
            } else {
                bwd_caret_search(t, c, carets_upto(t, c) - 2)
            };
            let c2 = match found {
                Some(q) => q,
                None => c,
            };
            let op1 = remove_caret_op(t, c);
            let op2 = insert_caret_op(t, c2, ctx.client_id@);
            &&& r@.len() == 2
            &&& op_view(r@[0]) == if increase {
                op2
            } else {
                op1
            }
            &&& op_view(r@[1]) == if increase {
                op1
            } else {
                op2
            }
        }),
{
    let mut walker = Walker::to_caret(&ctx.doc, ctx.client_id.as_str(), false);
    let op_1 = remove_caret(&walker);
    if increase {
        walker.next_char();
    } else {
        walker.back_char();
    }
    let op_2 = insert_caret(&walker, &ctx.client_id);
    if increase {
        vec![op_2, op_1]
    } else {
        vec![op_1, op_2]
    }
}

/// Moves the caret to where the cursor span `cur` points: an operation that
/// removes the caret and one that inserts it at its new place, in the order
/// in which they apply; the empty operation if the caret stays.
pub fn cur_to_caret(ctx: ActionContext, cur: &CurSpan) -> (r: Vec<Op>)
    requires
        ctx_ready(&ctx),
        cursor_target(ctx_tokens(&ctx), flat_cur_span(cur@), 0, 0) is Some,
        tagged_between(
            ctx_tokens(&ctx),
            0,
            snap_read_end(ctx_tokens(&ctx), cursor_target(ctx_tokens(&ctx), flat_cur_span(cur@), 0, 0)->0),
        ),
    ensures
        ({
            let t = ctx_tokens(&ctx);
            let c = ctx_caret(&ctx);
            let c2 = snap_caret(t, cursor_target(t, flat_cur_span(cur@), 0, 0)->0);
            let op1 = remove_caret_op(t, c);
            let op2 = insert_caret_op(t, c2, ctx.client_id@);
            if carets_upto(t, c) == carets_upto(t, c2) {
                &&& r@.len() == 1
                &&& op_view(r@[0]) == (Seq::<Del>::empty(), Seq::<Add>::empty())
            } else {
                &&& r@.len() == 2
                &&& op_view(r@[0]) == if carets_upto(t, c) < carets_upto(t, c2) {
                    op2
                } else {
                    op1
                }
                &&& op_view(r@[1]) == if carets_upto(t, c) < carets_upto(t, c2) {
                    op1
                } else {
                    op2
                }
            }
        }),
{
    let walker = Walker::to_caret(&ctx.doc, ctx.client_id.as_str(), false);
    let pos_1 = walker.caret_pos();
    let op_1 = remove_caret(&walker);
    let walker_2 = Walker::to_cursor(&ctx.doc, cur);
    let pos_2 = walker_2.caret_pos();
    if pos_1 == pos_2 {
        return vec![empty_op()];
    }
    let op_2 = insert_caret(&walker_2, &ctx.client_id);
    if pos_1 < pos_2 {
        vec![op_2, op_1]
    } else {
        vec![op_1, op_2]
    }
}

} // verus!
