use lib::doc::{Attrs, Doc, DocElement};
use lib::stepper::{DocStepper, DocToken};

fn attrs(pairs: &[(&str, &str)]) -> Attrs {
    let mut a = Attrs::new();
    for (k, v) in pairs {
        a.insert(k, v);
    }
    a
}

fn group(tag: &str, children: Vec<DocElement>) -> DocElement {
    DocElement::DocGroup(attrs(&[("tag", tag)]), children)
}

fn chars(s: &str) -> DocElement {
    DocElement::DocChars(s.to_string())
}

fn caret(client: &str) -> DocElement {
    DocElement::DocGroup(attrs(&[("tag", "caret"), ("client", client)]), vec![])
}

// [p["ab", caret(a), "cd"], p["ef"]]
fn sample() -> Doc {
    Doc(vec![
        group("p", vec![chars("ab"), caret("a"), chars("cd")]),
        group("p", vec![chars("ef")]),
    ])
}

#[test]
fn attrs_insert_then_get() {
    let mut a = Attrs::new();
    assert!(a.get("tag").is_none());
    a.insert("tag", "p");
    assert_eq!(a.get("tag").unwrap(), "p");
    a.insert("tag", "h1");
    assert_eq!(a.get("tag").unwrap(), "h1");
    assert!(a.get("client").is_none());
}

#[test]
fn attrs_equality_ignores_order() {
    let a = attrs(&[("tag", "caret"), ("client", "x")]);
    let b = attrs(&[("client", "x"), ("tag", "caret")]);
    let c = attrs(&[("client", "y"), ("tag", "caret")]);
    let d = attrs(&[("tag", "caret")]);
    assert!(a == b);
    assert!(a != c);
    assert!(a != d);
    assert!(d != a);
    assert!(a.clone() == a);
    assert!(a.clone() == b);
}

#[test]
fn stepper_head_at_start_is_whole_block() {
    let doc = sample();
    let s = DocStepper::new(&doc.0);
    assert_eq!(s.position(), 0);
    assert_eq!(s.head(), Some(group("p", vec![chars("ab"), caret("a"), chars("cd")])));
    assert_eq!(s.unhead(), None);
    assert!(!s.is_done());
    assert!(s.at_top());
    assert_eq!(s.skip_len(), 2);
}

#[test]
fn stepper_enter_and_read_chars() {
    let doc = sample();
    let mut s = DocStepper::new(&doc.0);
    s.enter();
    assert!(!s.at_top());
    assert_eq!(s.head(), Some(chars("ab")));
    assert_eq!(s.unhead(), None);
    assert_eq!(s.skip_len(), 5);
    s.skip(1);
    assert_eq!(s.position(), 2);
    assert_eq!(s.head(), Some(chars("b")));
    assert_eq!(s.unhead(), Some(chars("a")));
    assert_eq!(s.char_run_len(), 1);
}

#[test]
fn stepper_skip_over_group() {
    let doc = sample();
    let mut s = DocStepper::new(&doc.0);
    s.enter();
    s.skip(3);
    // past "ab" and the caret group
    assert_eq!(s.position(), 5);
    assert_eq!(s.unhead(), Some(caret("a")));
    assert_eq!(s.head(), Some(chars("cd")));
    s.skip(2);
    assert_eq!(s.head(), None);
    assert_eq!(s.skip_len(), 0);
    s.exit();
    assert!(s.at_top());
    assert_eq!(s.unhead(), Some(group("p", vec![chars("ab"), caret("a"), chars("cd")])));
    s.skip(1);
    assert!(s.is_done());
    assert_eq!(s.unhead(), Some(group("p", vec![chars("ef")])));
}

#[test]
fn stepper_backward_moves() {
    let doc = sample();
    let mut s = DocStepper::new(&doc.0);
    s.skip(2);
    assert!(s.is_done());
    s.unexit();
    assert_eq!(s.position(), 11);
    assert_eq!(s.unhead(), Some(chars("ef")));
    s.unskip(2);
    assert_eq!(s.unhead(), None);
    s.unenter();
    assert_eq!(s.position(), 8);
    assert!(s.at_top());
}

#[test]
fn stepper_peek_tokens() {
    let doc = sample();
    let mut s = DocStepper::new(&doc.0);
    assert!(matches!(s.peek(), Some(DocToken::Open(_))));
    assert!(s.peek_back().is_none());
    s.enter();
    assert!(matches!(s.peek(), Some(DocToken::Char('a'))));
    assert!(matches!(s.peek_back(), Some(DocToken::Open(_))));
}

#[test]
fn stepper_copies() {
    let doc = sample();
    let mut s = DocStepper::new(&doc.0);
    s.enter();
    s.skip(1);
    let d = s.clone();
    assert!(d.same_place(&s));
    assert_eq!(d.head(), s.head());
    let r = s.rewound();
    assert_eq!(r.position(), 0);
    assert!(!r.same_place(&s));
}

#[test]
fn stepper_merges_adjacent_char_runs() {
    let doc = Doc(vec![group("p", vec![chars("ab"), chars("c")])]);
    let mut s = DocStepper::new(&doc.0);
    s.enter();
    assert_eq!(s.head(), Some(chars("abc")));
    assert_eq!(s.skip_len(), 3);
}

#[test]
fn stepper_unicode_chars() {
    let doc = Doc(vec![group("p", vec![chars("hé€")])]);
    let mut s = DocStepper::new(&doc.0);
    s.enter();
    assert_eq!(s.char_run_len(), 3);
    s.skip(2);
    assert_eq!(s.head(), Some(chars("€")));
    assert_eq!(s.unhead(), Some(chars("hé")));
}

#[test]
fn stepper_empty_document() {
    let doc = Doc(vec![]);
    let s = DocStepper::new(&doc.0);
    assert!(s.is_done());
    assert_eq!(s.head(), None);
    assert_eq!(s.unhead(), None);
    assert_eq!(s.skip_len(), 0);
}

#[test]
fn stepper_head_is_canonical() {
    // an empty run of characters leaves no token, so it does not come back
    let doc = Doc(vec![DocElement::DocGroup(
        attrs(&[("tag", "caret"), ("client", "a")]),
        vec![chars("")],
    )]);
    let s = DocStepper::new(&doc.0);
    assert_eq!(s.head(), Some(caret("a")));
}
