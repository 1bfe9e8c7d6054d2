use lib::actions::{add_char, caret_move, cur_to_caret, delete_char, replace_block, split_block, ActionContext};
use lib::cursor::CurElement;
use lib::doc::{Attrs, Doc, DocElement};
use lib::writer::{AddElement, DelElement};

fn attrs(pairs: &[(&str, &str)]) -> Attrs {
    let mut a = Attrs::new();
    for (k, v) in pairs {
        a.insert(k, v);
    }
    a
}

fn group(tag: &str, children: Vec<DocElement>) -> DocElement {
    DocElement::DocGroup(attrs(&[("tag", tag)]), children)
}

fn chars(s: &str) -> DocElement {
    DocElement::DocChars(s.to_string())
}

fn caret(client: &str) -> DocElement {
    DocElement::DocGroup(attrs(&[("tag", "caret"), ("client", client)]), vec![])
}

// 0 <p> 1 a 2 b 3 <caret> 4 </caret> 5 c 6 d 7 </p> 8 <p> 9 e 10 f 11 </p>
fn ctx() -> ActionContext {
    ActionContext {
        doc: Doc(vec![
            group("p", vec![chars("ab"), caret("a"), chars("cd")]),
            group("p", vec![chars("ef")]),
        ]),
        client_id: "a".to_string(),
    }
}

#[test]
fn add_char_inserts_before_caret() {
    let (del, add) = add_char(ctx(), 'x' as u32);
    assert_eq!(del, vec![DelElement::DelWithGroup(vec![DelElement::DelSkip(2)])]);
    assert_eq!(
        add,
        vec![AddElement::AddWithGroup(vec![
            AddElement::AddSkip(2),
            AddElement::AddChars("x".to_string()),
        ])]
    );
}

#[test]
fn add_char_decodes_code_points() {
    let (_, add) = add_char(ctx(), 0xE9);
    assert_eq!(
        add,
        vec![AddElement::AddWithGroup(vec![
            AddElement::AddSkip(2),
            AddElement::AddChars("é".to_string()),
        ])]
    );
}

#[test]
fn add_char_invalid_code_point_types_question_mark() {
    let (_, add) = add_char(ctx(), 0xD800);
    assert_eq!(
        add,
        vec![AddElement::AddWithGroup(vec![
            AddElement::AddSkip(2),
            AddElement::AddChars("?".to_string()),
        ])]
    );
}

#[test]
fn delete_char_removes_previous_character() {
    let (del, add) = delete_char(ctx());
    assert_eq!(
        del,
        vec![DelElement::DelWithGroup(vec![DelElement::DelSkip(1), DelElement::DelChars(1)])]
    );
    assert_eq!(add, vec![AddElement::AddWithGroup(vec![AddElement::AddSkip(1)])]);
}

#[test]
fn delete_char_at_block_start_does_nothing() {
    let c = ActionContext {
        doc: Doc(vec![group("p", vec![caret("a"), chars("cd")])]),
        client_id: "a".to_string(),
    };
    let (del, add) = delete_char(c);
    assert!(del.is_empty());
    assert!(add.is_empty());
}

#[test]
fn delete_char_outside_blocks_does_nothing() {
    let c = ActionContext {
        doc: Doc(vec![caret("a"), group("p", vec![chars("x")])]),
        client_id: "a".to_string(),
    };
    let (del, add) = delete_char(c);
    assert!(del.is_empty());
    assert!(add.is_empty());
}

#[test]
fn split_block_moves_rest_into_new_paragraph() {
    let (del, add) = split_block(ctx());
    assert_eq!(del, vec![DelElement::DelGroup(vec![DelElement::DelSkip(5)])]);
    assert_eq!(
        add,
        vec![
            AddElement::AddGroup(attrs(&[("tag", "p")]), vec![AddElement::AddSkip(2)]),
            AddElement::AddGroup(attrs(&[("tag", "p")]), vec![AddElement::AddSkip(3)]),
        ]
    );
}

#[test]
fn split_block_keeps_heading_tag_before() {
    let c = ActionContext {
        doc: Doc(vec![group("h2", vec![chars("ab"), caret("a")])]),
        client_id: "a".to_string(),
    };
    let (_, add) = split_block(c);
    assert_eq!(
        add,
        vec![
            AddElement::AddGroup(attrs(&[("tag", "h2")]), vec![AddElement::AddSkip(2)]),
            AddElement::AddGroup(attrs(&[("tag", "p")]), vec![AddElement::AddSkip(1)]),
        ]
    );
}

#[test]
fn replace_block_rewraps_content() {
    let (del, add) = replace_block(ctx(), "h1");
    assert_eq!(del, vec![DelElement::DelGroup(vec![DelElement::DelSkip(5)])]);
    assert_eq!(add, vec![AddElement::AddGroup(attrs(&[("tag", "h1")]), vec![AddElement::AddSkip(5)])]);
}

fn remove_caret_at_3() -> (Vec<DelElement>, Vec<AddElement>) {
    (
        vec![DelElement::DelWithGroup(vec![DelElement::DelSkip(2), DelElement::DelGroup(vec![])])],
        vec![AddElement::AddWithGroup(vec![AddElement::AddSkip(2)])],
    )
}

#[test]
fn caret_move_right() {
    let ops = caret_move(ctx(), true);
    assert_eq!(ops.len(), 2);
    // the new caret goes after 'c' (position 6): inserted first
    let new_caret = attrs(&[("tag", "caret"), ("client", "a")]);
    assert_eq!(
        ops[0],
        (
            vec![DelElement::DelWithGroup(vec![
                DelElement::DelSkip(2),
                DelElement::DelWithGroup(vec![]),
                DelElement::DelSkip(1),
            ])],
            vec![AddElement::AddWithGroup(vec![
                AddElement::AddSkip(2),
                AddElement::AddWithGroup(vec![]),
                AddElement::AddSkip(1),
                AddElement::AddGroup(new_caret, vec![]),
            ])],
        )
    );
    assert_eq!(ops[1], remove_caret_at_3());
}

#[test]
fn caret_move_left() {
    let ops = caret_move(ctx(), false);
    assert_eq!(ops.len(), 2);
    assert_eq!(ops[0], remove_caret_at_3());
    // the new caret goes after 'a' (position 2)
    let new_caret = attrs(&[("tag", "caret"), ("client", "a")]);
    assert_eq!(
        ops[1],
        (
            vec![DelElement::DelWithGroup(vec![DelElement::DelSkip(1)])],
            vec![AddElement::AddWithGroup(vec![
                AddElement::AddSkip(1),
                AddElement::AddGroup(new_caret, vec![]),
            ])],
        )
    );
}

#[test]
fn cur_to_caret_same_place_is_empty() {
    let cur = vec![CurElement::CurWithGroup(vec![CurElement::CurSkip(1), CurElement::CurChar])];
    let ops = cur_to_caret(ctx(), &cur);
    assert_eq!(ops, vec![(vec![], vec![])]);
}

#[test]
fn cur_to_caret_moves_forward() {
    // point at 'd': the caret lands after it (position 7)
    let cur = vec![CurElement::CurWithGroup(vec![CurElement::CurSkip(4), CurElement::CurChar])];
    let ops = cur_to_caret(ctx(), &cur);
    assert_eq!(ops.len(), 2);
    let new_caret = attrs(&[("tag", "caret"), ("client", "a")]);
    assert_eq!(
        ops[0],
        (
            vec![DelElement::DelWithGroup(vec![
                DelElement::DelSkip(2),
                DelElement::DelWithGroup(vec![]),
                DelElement::DelSkip(2),
            ])],
            vec![AddElement::AddWithGroup(vec![
                AddElement::AddSkip(2),
                AddElement::AddWithGroup(vec![]),
                AddElement::AddSkip(2),
                AddElement::AddGroup(new_caret, vec![]),
            ])],
        )
    );
    assert_eq!(ops[1], remove_caret_at_3());
}

#[test]
fn cur_to_caret_moves_backward() {
    // point at 'a' inside the first block: the caret lands after it (position 2)
    let cur = vec![CurElement::CurWithGroup(vec![CurElement::CurChar])];
    let ops = cur_to_caret(ctx(), &cur);
    assert_eq!(ops.len(), 2);
    assert_eq!(ops[0], remove_caret_at_3());
    let new_caret = attrs(&[("tag", "caret"), ("client", "a")]);
    assert_eq!(
        ops[1],
        (
            vec![DelElement::DelWithGroup(vec![DelElement::DelSkip(1)])],
            vec![AddElement::AddWithGroup(vec![
                AddElement::AddSkip(1),
                AddElement::AddGroup(new_caret, vec![]),
            ])],
        )
    );
}
