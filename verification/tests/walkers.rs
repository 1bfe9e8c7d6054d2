use lib::cursor::CurElement;
use lib::doc::{Attrs, Doc, DocElement};
use lib::schema::{str_is, RtfSchema, RtfTrack};
use lib::stepper::DocStepper;
use lib::writer::{AddElement, DelElement};
use lib::walkers::{is_block, is_block_object, is_caret, parse_bool, CaretStepper, Walker};

fn attrs(pairs: &[(&str, &str)]) -> Attrs {
    let mut a = Attrs::new();
    for (k, v) in pairs {
        a.insert(k, v);
    }
    a
}

fn group(tag: &str, children: Vec<DocElement>) -> DocElement {
    DocElement::DocGroup(attrs(&[("tag", tag)]), children)
}

fn chars(s: &str) -> DocElement {
    DocElement::DocChars(s.to_string())
}

fn caret(client: &str) -> DocElement {
    DocElement::DocGroup(attrs(&[("tag", "caret"), ("client", client)]), vec![])
}

// Tokens: 0 <p> 1 a 2 b 3 <caret> 4 </caret> 5 c 6 d 7 </p> 8 <p> 9 e 10 f 11 </p>
// Caret positions (after a character or at a block start): 1 2 3 6 7 9 10 11.
fn sample() -> Doc {
    Doc(vec![
        group("p", vec![chars("ab"), caret("a"), chars("cd")]),
        group("p", vec![chars("ef")]),
    ])
}

#[test]
fn walker_new_starts_before_any_caret() {
    let doc = sample();
    let w = Walker::new(&doc);
    assert_eq!(w.caret_pos(), -1);
    assert_eq!(w.doc().position(), 0);
    assert_eq!(w.stepper().position(), 0);
}

#[test]
fn to_caret_finds_the_client_caret() {
    let doc = sample();
    let w = Walker::to_caret(&doc, "a", false);
    assert_eq!(w.doc().position(), 3);
    assert_eq!(w.caret_pos(), 2);
    assert_eq!(w.doc().head(), Some(caret("a")));
}

#[test]
fn to_caret_safe_reports_missing_caret() {
    let doc = sample();
    assert!(Walker::to_caret_safe(&doc, "b", false).is_none());
    assert!(Walker::to_caret_safe(&doc, "a", true).is_none());
    let w = Walker::to_caret_safe(&doc, "a", false).unwrap();
    assert_eq!(w.doc().position(), 3);
    assert_eq!(w.caret_pos(), 2);
}

#[test]
fn to_caret_respects_focus() {
    let focused = DocElement::DocGroup(
        attrs(&[("tag", "caret"), ("client", "a"), ("focus", "true")]),
        vec![],
    );
    let doc = Doc(vec![group("p", vec![caret("a"), chars("xy"), focused])]);
    let w = Walker::to_caret(&doc, "a", true);
    assert_eq!(w.doc().position(), 5);
    assert_eq!(w.caret_pos(), 2);
    let w = Walker::to_caret(&doc, "a", false);
    assert_eq!(w.doc().position(), 1);
    assert_eq!(w.caret_pos(), 0);
}

#[test]
fn next_char_moves_one_caret_right() {
    let doc = sample();
    let mut w = Walker::to_caret(&doc, "a", false);
    w.next_char();
    assert_eq!(w.doc().position(), 6);
    assert_eq!(w.caret_pos(), 3);
    w.next_char().next_char();
    assert_eq!(w.doc().position(), 9);
    assert_eq!(w.caret_pos(), 5);
}

#[test]
fn next_char_stays_at_end() {
    let doc = sample();
    let mut w = Walker::new(&doc);
    assert!(w.goto_pos(7));
    assert_eq!(w.doc().position(), 11);
    w.next_char();
    assert_eq!(w.doc().position(), 11);
    assert_eq!(w.caret_pos(), 7);
}

#[test]
fn back_char_moves_one_caret_left() {
    let doc = sample();
    let mut w = Walker::to_caret(&doc, "a", false);
    w.back_char();
    assert_eq!(w.doc().position(), 2);
    assert_eq!(w.caret_pos(), 1);
    w.back_char();
    assert_eq!(w.doc().position(), 1);
    assert_eq!(w.caret_pos(), 0);
    w.back_char();
    assert_eq!(w.doc().position(), 1);
    assert_eq!(w.caret_pos(), 0);
}

#[test]
fn right_then_left_returns() {
    let doc = sample();
    let mut w = Walker::new(&doc);
    assert!(w.goto_pos(2));
    let before = w.doc().position();
    w.next_char();
    assert_ne!(w.doc().position(), before);
    w.back_char();
    assert_eq!(w.doc().position(), before);
    assert_eq!(w.caret_pos(), 2);
}

#[test]
fn left_then_right_returns() {
    let doc = sample();
    let mut w = Walker::new(&doc);
    assert!(w.goto_pos(5));
    assert_eq!(w.doc().position(), 9);
    w.back_char();
    assert_eq!(w.doc().position(), 7);
    w.next_char();
    assert_eq!(w.doc().position(), 9);
    assert_eq!(w.caret_pos(), 5);
}

#[test]
fn goto_pos_lands_on_target() {
    let doc = sample();
    let mut w = Walker::to_caret(&doc, "a", false);
    assert!(w.goto_pos(5));
    assert_eq!(w.doc().position(), 9);
    assert_eq!(w.caret_pos(), 5);
    // positions are only searched forward
    assert!(!w.goto_pos(1));
    assert_eq!(w.doc().position(), 9);
    assert!(!w.goto_pos(100));
    assert_eq!(w.caret_pos(), 5);
}

#[test]
fn back_block_finds_enclosing_block_start() {
    let doc = sample();
    let mut w = Walker::to_caret(&doc, "a", false);
    assert!(w.back_block());
    assert_eq!(w.doc().position(), 0);
    assert_eq!(w.caret_pos(), -1);
    assert!(!w.back_block());
    assert_eq!(w.doc().position(), 0);
}

#[test]
fn back_block_or_block_object_sees_rules() {
    let doc = Doc(vec![
        group("p", vec![chars("x")]),
        group("hr", vec![]),
        group("p", vec![chars("y"), caret("a")]),
    ]);
    // 0 <p> 1 x 2 </p> 3 <hr> 4 </hr> 5 <p> 6 y 7 <caret> ...
    let mut w = Walker::to_caret(&doc, "a", false);
    assert_eq!(w.doc().position(), 7);
    let mut w2 = w.clone();
    assert!(w.back_block_or_block_object());
    assert_eq!(w.doc().position(), 5);
    assert!(w.back_block_or_block_object());
    assert_eq!(w.doc().position(), 3);
    assert!(w2.back_block());
    assert!(w2.back_block());
    assert_eq!(w2.doc().position(), 0);
}

#[test]
fn next_block_finds_following_block() {
    let doc = sample();
    let mut w = Walker::to_caret(&doc, "a", false);
    assert!(w.next_block());
    assert_eq!(w.doc().position(), 8);
    assert_eq!(w.caret_pos(), 4);
    assert!(!w.next_block());
    assert_eq!(w.doc().position(), 8);
}

#[test]
fn parent_moves_to_group_start() {
    let doc = Doc(vec![group("bullet", vec![group("p", vec![chars("ab"), caret("a")])])]);
    // 0 <bullet> 1 <p> 2 a 3 b 4 <caret>
    let mut w = Walker::to_caret(&doc, "a", false);
    assert_eq!(w.doc().position(), 4);
    assert!(w.parent());
    assert_eq!(w.doc().position(), 1);
    assert!(w.parent());
    assert_eq!(w.doc().position(), 0);
    assert_eq!(w.caret_pos(), -1);
    assert!(!w.parent());
    assert_eq!(w.doc().position(), 0);
}

#[test]
fn parent_at_top_level_goes_to_start() {
    let doc = sample();
    let mut w = Walker::new(&doc);
    assert!(w.next_block());
    assert!(!w.parent());
    assert_eq!(w.doc().position(), 0);
    assert_eq!(w.caret_pos(), -1);
}

#[test]
fn to_cursor_lands_right_of_the_character() {
    let doc = sample();
    // enter the first block, skip one unit, then point at a character ('b')
    let cur = vec![CurElement::CurWithGroup(vec![CurElement::CurSkip(1), CurElement::CurChar])];
    let w = Walker::to_cursor(&doc, &cur);
    assert_eq!(w.doc().position(), 3);
    assert_eq!(w.caret_pos(), 2);
    // point at 'd' (skipping a, b, the caret group and c)
    let cur = vec![CurElement::CurWithGroup(vec![CurElement::CurSkip(4), CurElement::CurChar])];
    let w = Walker::to_cursor(&doc, &cur);
    assert_eq!(w.doc().position(), 7);
    assert_eq!(w.caret_pos(), 4);
}

#[test]
fn to_cursor_at_a_group() {
    let doc = sample();
    // the cursor points at the second block itself
    let cur = vec![CurElement::CurSkip(1), CurElement::CurGroup];
    let w = Walker::to_cursor(&doc, &cur);
    // the last caret position before is 7 (after 'd'); one to the right is 9
    assert_eq!(w.doc().position(), 9);
    assert_eq!(w.caret_pos(), 5);
}

#[test]
fn to_cursor_at_document_end_keeps_last_caret() {
    let doc = Doc(vec![group("p", vec![chars("ab")])]);
    // 0 <p> 1 a 2 b 3 </p>; point at 'b'
    let cur = vec![CurElement::CurWithGroup(vec![CurElement::CurSkip(1), CurElement::CurChar])];
    let w = Walker::to_cursor(&doc, &cur);
    assert_eq!(w.doc().position(), 3);
    assert_eq!(w.caret_pos(), 2);
}

#[test]
fn to_writer_mirrors_the_walk() {
    let doc = sample();
    let w = Walker::to_caret(&doc, "a", false);
    let mut writer = w.to_writer();
    writer.del.exit_all();
    writer.add.exit_all();
    let (del, add) = writer.result();
    assert_eq!(del, vec![DelElement::DelWithGroup(vec![DelElement::DelSkip(2)])]);
    assert_eq!(add, vec![AddElement::AddWithGroup(vec![AddElement::AddSkip(2)])]);
}

#[test]
fn caret_stepper_counts_positions() {
    let doc = sample();
    let mut s = CaretStepper::new(DocStepper::new(&doc.0));
    assert_eq!(s.caret_pos(), -1);
    let mut count = 0;
    while s.next().is_some() {
        count += 1;
    }
    assert_eq!(count, 12);
    assert_eq!(s.caret_pos(), 7);
    assert!(!s.is_valid_caret_pos());
    let mut r = s.rev();
    assert_eq!(r.caret_pos(), 7);
    let mut back = 0;
    while r.next().is_some() {
        back += 1;
    }
    assert_eq!(back, 12);
    assert_eq!(r.caret_pos(), -1);
    assert_eq!(r.doc().position(), 0);
    let s = r.rev();
    assert_eq!(s.caret_pos(), -1);
}

#[test]
fn caret_stepper_step_round_trip() {
    let doc = sample();
    let mut s = CaretStepper::new(DocStepper::new(&doc.0));
    s.next();
    s.next();
    let before = (s.doc.position(), s.caret_pos());
    s.next();
    let mut r = s.rev();
    r.next();
    assert_eq!((r.doc().position(), r.caret_pos()), before);
    assert!(r.is_valid_caret_pos());
}

#[test]
fn schema_tracks() {
    assert_eq!(RtfSchema::track_type_from_attrs(&attrs(&[("tag", "p")])), Some(RtfTrack::Blocks));
    assert_eq!(RtfSchema::track_type_from_attrs(&attrs(&[("tag", "h3")])), Some(RtfTrack::Blocks));
    assert_eq!(RtfSchema::track_type_from_attrs(&attrs(&[("tag", "pre")])), Some(RtfTrack::Blocks));
    assert_eq!(RtfSchema::track_type_from_attrs(&attrs(&[("tag", "bullet")])), Some(RtfTrack::BlockQuotes));
    assert_eq!(RtfSchema::track_type_from_attrs(&attrs(&[("tag", "caret")])), Some(RtfTrack::Markers));
    assert_eq!(RtfSchema::track_type_from_attrs(&attrs(&[("tag", "hr")])), Some(RtfTrack::BlockObjects));
    assert_eq!(RtfSchema::track_type_from_attrs(&attrs(&[("tag", "span")])), None);
    assert_eq!(RtfTrack::Markers.parents(), vec![RtfTrack::Blocks]);
    assert_eq!(RtfTrack::Blocks.parents(), vec![RtfTrack::BlockQuotes]);
    assert!(RtfTrack::Blocks.allowed_in_root());
    assert!(!RtfTrack::Markers.allowed_in_root());
    assert!(RtfTrack::Blocks.supports_text());
    assert!(!RtfTrack::BlockQuotes.supports_text());
}

#[test]
fn block_and_caret_predicates() {
    assert!(is_block(&attrs(&[("tag", "h1")])));
    assert!(!is_block(&attrs(&[("tag", "hr")])));
    assert!(is_block_object(&attrs(&[("tag", "hr")])));
    let c = attrs(&[("tag", "caret"), ("client", "a")]);
    assert!(is_caret(&c, Some("a"), false));
    assert!(!is_caret(&c, Some("a"), true));
    assert!(!is_caret(&c, Some("b"), false));
    assert!(!is_caret(&c, None, false));
    let f = attrs(&[("tag", "caret"), ("client", "a"), ("focus", "true")]);
    assert!(is_caret(&f, Some("a"), true));
    let g = attrs(&[("tag", "caret"), ("client", "a"), ("focus", "yes")]);
    assert!(!is_caret(&g, Some("a"), true));
    assert!(!is_caret(&g, Some("a"), false));
    assert!(!is_caret(&attrs(&[("tag", "p")]), Some("a"), false));
}

#[test]
fn parse_bool_and_str_is() {
    assert_eq!(parse_bool(&"true".to_string()), Some(true));
    assert_eq!(parse_bool(&"false".to_string()), Some(false));
    assert_eq!(parse_bool(&"True".to_string()), None);
    assert!(str_is(&"abc".to_string(), "abc"));
    assert!(!str_is(&"abc".to_string(), "ab"));
}

#[test]
fn document_without_caret_positions() {
    let doc = Doc(vec![group("hr", vec![])]);
    let mut w = Walker::new(&doc);
    assert!(!w.goto_pos(0));
    w.next_char();
    assert_eq!(w.doc().position(), 0);
    assert_eq!(w.caret_pos(), -1);
    let cur = vec![CurElement::CurGroup];
    let w = Walker::to_cursor(&doc, &cur);
    assert_eq!(w.doc().position(), 0);
    assert_eq!(w.caret_pos(), -1);
}

#[test]
fn cursor_after_empty_block_lands_inside_it() {
    let doc = Doc(vec![group("p", vec![]), group("p", vec![chars("x")])]);
    // 0 <p> 1 </p> 2 <p> 3 x 4 </p>; point at the second block
    let cur = vec![CurElement::CurSkip(1), CurElement::CurGroup];
    let w = Walker::to_cursor(&doc, &cur);
    // the last caret position before is 1 (inside the empty block); one to the right is 3
    assert_eq!(w.doc().position(), 3);
    assert_eq!(w.caret_pos(), 1);
}

#[test]
fn to_caret_reads_no_group_after_the_caret() {
    // the group after the caret carries no tag; the walk never reaches it
    let doc = Doc(vec![
        group("p", vec![chars("ab"), caret("a")]),
        DocElement::DocGroup(Attrs::new(), vec![]),
    ]);
    let w = Walker::to_caret(&doc, "a", false);
    assert_eq!(w.caret_pos(), 2);
    assert_eq!(w.doc().head(), Some(caret("a")));
    let w = Walker::to_caret_safe(&doc, "a", false).unwrap();
    assert_eq!(w.caret_pos(), 2);
    let mut writer = w.to_writer();
    writer.del.exit_all();
    writer.add.exit_all();
    let (del, add) = writer.result();
    assert_eq!(del, vec![DelElement::DelWithGroup(vec![DelElement::DelSkip(2)])]);
    assert_eq!(add, vec![AddElement::AddWithGroup(vec![AddElement::AddSkip(2)])]);
}

#[test]
fn walk_from_start_takes_one_step_per_char_and_two_per_group() {
    let span = vec![group("p", vec![chars("ab")])];
    let mut s = CaretStepper::new(DocStepper::new(&span));
    let mut steps = 0;
    while s.next().is_some() {
        steps += 1;
    }
    assert_eq!(steps, 4);
    assert_eq!(s.caret_pos(), 2);
}

#[test]
fn goto_pos_twice_stays_put() {
    let doc = sample();
    let mut w = Walker::new(&doc);
    assert!(w.goto_pos(3));
    let at = w.doc().position();
    assert!(w.goto_pos(3));
    assert_eq!(w.doc().position(), at);
    assert_eq!(w.caret_pos(), 3);
}

#[test]
fn finished_writer_only_skips() {
    let doc = sample();
    let w = Walker::to_caret(&doc, "a", false);
    let mut w2 = w.clone();
    w2.next_block();
    let mut writer = w2.to_writer();
    writer.del.exit_all();
    writer.add.exit_all();
    let (del, add) = writer.result();
    // 0 <p> a b <caret> </caret> c d </p> 8: everything up to 8 is kept
    assert_eq!(
        del,
        vec![DelElement::DelWithGroup(vec![
            DelElement::DelSkip(2),
            DelElement::DelWithGroup(vec![]),
            DelElement::DelSkip(2),
        ])]
    );
    assert_eq!(
        add,
        vec![AddElement::AddWithGroup(vec![
            AddElement::AddSkip(2),
            AddElement::AddWithGroup(vec![]),
            AddElement::AddSkip(2),
        ])]
    );
}
