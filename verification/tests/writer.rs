use lib::cursor::{CurElement, CurStepper, CurToken};
use lib::doc::Attrs;
use lib::writer::{AddElement, AddWriter, DelElement, DelWriter, OpWriter};

#[test]
fn del_writer_merges_counts() {
    let mut w = DelWriter::new();
    w.skip(2);
    w.skip(3);
    w.skip(0);
    w.chars(1);
    w.chars(4);
    w.skip(1);
    assert_eq!(
        w.result(),
        vec![DelElement::DelSkip(5), DelElement::DelChars(5), DelElement::DelSkip(1)]
    );
}

#[test]
fn del_writer_levels() {
    let mut w = DelWriter::new();
    w.skip(1);
    w.begin();
    w.chars(2);
    w.close();
    w.begin();
    w.begin();
    w.skip(1);
    w.exit_all();
    w.group(vec![DelElement::DelSkip(7)]);
    assert_eq!(
        w.result(),
        vec![
            DelElement::DelSkip(1),
            DelElement::DelGroup(vec![DelElement::DelChars(2)]),
            DelElement::DelWithGroup(vec![DelElement::DelWithGroup(vec![DelElement::DelSkip(1)])]),
            DelElement::DelGroup(vec![DelElement::DelSkip(7)]),
        ]
    );
}

#[test]
fn add_writer_merges_text() {
    let mut w = AddWriter::new();
    w.skip(1);
    w.chars("ab");
    w.chars("");
    w.chars("c");
    w.begin();
    w.skip(2);
    let mut a = Attrs::new();
    a.insert("tag", "p");
    w.close(a);
    let mut b = Attrs::new();
    b.insert("tag", "hr");
    w.group(b, vec![]);
    w.begin();
    w.exit();
    let mut p = Attrs::new();
    p.insert("tag", "p");
    let mut hr = Attrs::new();
    hr.insert("tag", "hr");
    assert_eq!(
        w.result(),
        vec![
            AddElement::AddSkip(1),
            AddElement::AddChars("abc".to_string()),
            AddElement::AddGroup(p, vec![AddElement::AddSkip(2)]),
            AddElement::AddGroup(hr, vec![]),
            AddElement::AddWithGroup(vec![]),
        ]
    );
}

#[test]
fn op_writer_result_pairs_spans() {
    let mut w = OpWriter { del: DelWriter::new(), add: AddWriter::new() };
    w.del.skip(1);
    w.add.chars("x");
    assert_eq!(
        w.result(),
        (vec![DelElement::DelSkip(1)], vec![AddElement::AddChars("x".to_string())])
    );
}

#[test]
fn cursor_stepper_walks_tokens() {
    let cur = vec![
        CurElement::CurSkip(2),
        CurElement::CurWithGroup(vec![CurElement::CurSkip(1), CurElement::CurGroup]),
    ];
    let mut s = CurStepper::new(&cur);
    assert_eq!(s.peek(), Some(&CurToken::Skip(2)));
    s.next();
    assert_eq!(s.peek(), Some(&CurToken::Open));
    s.enter();
    assert_eq!(s.peek(), Some(&CurToken::Skip(1)));
    s.next();
    assert_eq!(s.peek(), Some(&CurToken::Group));
    s.next();
    assert_eq!(s.peek(), Some(&CurToken::Close));
    assert!(!s.is_done());
    s.exit();
    assert!(s.is_done());
    assert_eq!(s.peek(), None);
}
