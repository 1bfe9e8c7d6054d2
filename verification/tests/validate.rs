use lib::doc::{Attrs, Doc, DocElement};
use lib::validate::{validate_doc, validate_doc_span, ValidateContext, ValidateError};

fn attrs(pairs: &[(&str, &str)]) -> Attrs {
    let mut a = Attrs::new();
    for (k, v) in pairs {
        a.insert(k, v);
    }
    a
}

fn group(tag: &str, children: Vec<DocElement>) -> DocElement {
    DocElement::DocGroup(attrs(&[("tag", tag)]), children)
}

fn chars(s: &str) -> DocElement {
    DocElement::DocChars(s.to_string())
}

fn caret(client: &str) -> DocElement {
    DocElement::DocGroup(attrs(&[("tag", "caret"), ("client", client)]), vec![])
}

#[test]
fn valid_document_passes() {
    let doc = Doc(vec![
        group("h1", vec![chars("Title")]),
        group("bullet", vec![group("p", vec![chars("item"), caret("a")])]),
        group("hr", vec![]),
        group("p", vec![chars("end")]),
    ]);
    assert_eq!(validate_doc(&doc), Ok(()));
}

#[test]
fn empty_document_is_valid() {
    assert_eq!(validate_doc(&Doc(vec![])), Ok(()));
}

#[test]
fn empty_bullet_is_rejected() {
    let doc = Doc(vec![group("bullet", vec![])]);
    assert_eq!(validate_doc(&doc), Err(ValidateError::EmptyBullet));
}

#[test]
fn block_inside_block_is_rejected() {
    let doc = Doc(vec![group("p", vec![group("p", vec![chars("x")])])]);
    assert_eq!(validate_doc(&doc), Err(ValidateError::IncorrectParent));
}

#[test]
fn caret_at_root_is_rejected() {
    let doc = Doc(vec![caret("a")]);
    assert_eq!(validate_doc(&doc), Err(ValidateError::IncorrectRootParent));
}

#[test]
fn empty_chars_are_rejected() {
    let doc = Doc(vec![group("p", vec![chars("")])]);
    assert_eq!(validate_doc(&doc), Err(ValidateError::EmptyChars));
}

#[test]
fn chars_outside_block_are_rejected() {
    let doc = Doc(vec![group("bullet", vec![chars("x")])]);
    assert_eq!(validate_doc(&doc), Err(ValidateError::CharOutsideBlock));
}

#[test]
fn chars_in_root_are_rejected() {
    let doc = Doc(vec![chars("x")]);
    assert_eq!(validate_doc(&doc), Err(ValidateError::CharInRoot));
}

#[test]
fn first_failure_in_document_order_wins() {
    // the inner error (chars in a bullet) comes before the outer one (p in p)
    let doc = Doc(vec![group("p", vec![group("bullet", vec![chars("x")])])]);
    assert_eq!(validate_doc(&doc), Err(ValidateError::CharOutsideBlock));
    let doc = Doc(vec![chars("x"), group("bullet", vec![])]);
    assert_eq!(validate_doc(&doc), Err(ValidateError::CharInRoot));
}

#[test]
fn validate_span_under_a_context() {
    let mut ctx = ValidateContext::new();
    let span = vec![group("p", vec![chars("x")])];
    assert_eq!(validate_doc_span(&mut ctx, &span), Ok(()));
}

#[test]
fn error_messages() {
    assert_eq!(ValidateError::EmptyBullet.message(), "Expected non-empty bullet");
    assert_eq!(ValidateError::IncorrectParent.message(), "Block has incorrect parent");
    assert_eq!(ValidateError::IncorrectRootParent.message(), "Root block has incorrect parent");
    assert_eq!(ValidateError::EmptyChars.message(), "Empty char string");
    assert_eq!(ValidateError::CharOutsideBlock.message(), "Char found outside block");
    assert_eq!(ValidateError::CharInRoot.message(), "Found char in root");
}

#[test]
fn unknown_tag_after_a_failure_is_not_reached() {
    let doc = Doc(vec![chars("a"), group("zzz", vec![])]);
    assert_eq!(validate_doc(&doc), Err(ValidateError::CharInRoot));
    let doc = Doc(vec![group("zzz", vec![chars("")])]);
    assert_eq!(validate_doc(&doc), Err(ValidateError::EmptyChars));
}
