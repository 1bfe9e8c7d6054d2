//! Documents, attributes, and the token stream that all positions refer to.

use vstd::prelude::*;

verus! {

/// The mathematical model of a set of attributes: a finite map from keys to values.
pub type AttrsV = Map<Seq<char>, Seq<char>>;

/// The map that a list of key/value pairs describes (later pairs win).
pub open spec fn pairs_map(s: Seq<(String, String)>) -> AttrsV
    decreases s.len(),
{
    if s.len() == 0 {
        Map::empty()
    } else {
        pairs_map(s.drop_last()).insert(s.last().0@, s.last().1@)
    }
}

/// No key occurs twice in the list of pairs.
pub open spec fn keys_unique(s: Seq<(String, String)>) -> bool {
    forall|i: int, j: int| 0 <= i < s.len() && 0 <= j < s.len() && i != j ==> s[i].0@ != s[j].0@
}

/// String attributes of a group, such as `tag` or `client`.
#[derive(Debug)]
pub struct Attrs {
    entries: Vec<(String, String)>,
}

impl View for Attrs {
    type V = AttrsV;

    closed spec fn view(&self) -> AttrsV {
        pairs_map(self.entries@)
    }
}

proof fn lemma_pairs_map_unique_index(s: Seq<(String, String)>, i: int)
    requires
        keys_unique(s),
        0 <= i < s.len(),
    ensures
        pairs_map(s).contains_key(s[i].0@),
        pairs_map(s)[s[i].0@] == s[i].1@,
    decreases s.len(),
{
    if i < s.len() - 1 {
        lemma_pairs_map_unique_index(s.drop_last(), i);
    }
}

proof fn lemma_pairs_map_absent(s: Seq<(String, String)>, k: Seq<char>)
    requires
        forall|i: int| 0 <= i < s.len() ==> s[i].0@ != k,
    ensures
        !pairs_map(s).contains_key(k),
    decreases s.len(),
{
    if s.len() > 0 {
        lemma_pairs_map_absent(s.drop_last(), k);
    }
}

proof fn lemma_pairs_map_dom(s: Seq<(String, String)>, k: Seq<char>)
    requires
        pairs_map(s).contains_key(k),
    ensures
        exists|i: int| 0 <= i < s.len() && #[trigger] s[i].0@ == k,
    decreases s.len(),
{
    if s.len() > 0 && s.last().0@ != k {
        lemma_pairs_map_dom(s.drop_last(), k);
        let i = choose|i: int| 0 <= i < s.drop_last().len() && #[trigger] s.drop_last()[i].0@ == k;
        assert(s[i].0@ == k);
    }
}

proof fn lemma_pairs_map_update(s: Seq<(String, String)>, i: int, p: (String, String))
    requires
        keys_unique(s),
        0 <= i < s.len(),
        s[i].0@ == p.0@,
    ensures
        pairs_map(s.update(i, p)) == pairs_map(s).insert(p.0@, p.1@),
    decreases s.len(),
{
    let t = s.update(i, p);
    if i == s.len() - 1 {
        assert(t.drop_last() =~= s.drop_last());
        assert(pairs_map(s.drop_last()).insert(p.0@, p.1@) =~= pairs_map(s.drop_last()).insert(
            s.last().0@,
            s.last().1@,
        ).insert(p.0@, p.1@));
    } else {
        lemma_pairs_map_update(s.drop_last(), i, p);
        assert(t.drop_last() =~= s.drop_last().update(i, p));
        assert(s.last().0@ != p.0@);
        assert(pairs_map(t) =~= pairs_map(s).insert(p.0@, p.1@));
    }
}

impl Attrs {
    #[verifier::type_invariant]
    closed spec fn inv(&self) -> bool {
        keys_unique(self.entries@)
    }

    /// An empty attribute map.
    pub fn new() -> (r: Attrs)
        ensures
            r@ == Map::<Seq<char>, Seq<char>>::empty(),
    {
        Attrs { entries: Vec::new() }
    }

    /// The value stored under `key`, if any.
    pub fn get(&self, key: &str) -> (r: Option<&String>)
        ensures
            r is Some <==> self@.contains_key(key@),
            r matches Some(v) ==> v@ == self@[key@],
    {
        proof {
            use_type_invariant(self);
        }
        let k = key.to_owned();
        let mut i: usize = 0;
        while i < self.entries.len()
            invariant
                0 <= i <= self.entries@.len(),
                k@ == key@,
                keys_unique(self.entries@),
                forall|j: int| 0 <= j < i ==> self.entries@[j].0@ != key@,
            decreases self.entries@.len() - i,
        {
            if self.entries[i].0 == k {
                proof {
                    lemma_pairs_map_unique_index(self.entries@, i as int);
                }
                return Some(&self.entries[i].1);
            }
            i += 1;
        }
        proof {
            lemma_pairs_map_absent(self.entries@, key@);
        }
        None
    }

    /// Stores `value` under `key`, replacing an earlier value.
    pub fn insert(&mut self, key: &str, value: &str)
        ensures
            final(self)@ == old(self)@.insert(key@, value@),
    {
        proof {
            use_type_invariant(&*self);
        }
        let k = key.to_owned();
        let v = value.to_owned();
        let mut entries = Vec::new();
        std::mem::swap(&mut entries, &mut self.entries);
        let ghost old_entries = entries@;
        let mut i: usize = 0;
        while i < entries.len()
            invariant
                0 <= i <= entries@.len(),
                k@ == key@,
                v@ == value@,
                entries@ == old_entries,
                pairs_map(old_entries) == old(self)@,
                keys_unique(entries@),
                forall|j: int| 0 <= j < i ==> entries@[j].0@ != key@,
            decreases entries@.len() - i,
        {
            if entries[i].0 == k {
                let ghost pair = (k, v);
                entries.set(i, (k, v));
                assert(entries@ == old_entries.update(i as int, pair));
                assert(keys_unique(entries@));
                proof {
                    lemma_pairs_map_update(old_entries, i as int, pair);
                }
                assert(pairs_map(entries@) == pairs_map(old_entries).insert(key@, value@));
                *self = Attrs { entries };
                assert(self@ == pairs_map(entries@));
                return ;
            }
            i += 1;
        }
        entries.push((k, v));
        assert(entries@.drop_last() =~= old_entries);
        *self = Attrs { entries };
    }

    /// Every attribute of `other` is present here with the same value.
    pub fn covers(&self, other: &Attrs) -> (r: bool)
        ensures
            r == forall|k: Seq<char>|
                #[trigger] other@.contains_key(k) ==> self@.contains_key(k) && self@[k] == other@[k],
    {
        proof {
            use_type_invariant(other);
        }
        let mut i: usize = 0;
        while i < other.entries.len()
            invariant
                0 <= i <= other.entries@.len(),
                keys_unique(other.entries@),
                forall|j: int|
                    0 <= j < i ==> #[trigger] self@.contains_key(other.entries@[j].0@) && self@[other.entries@[j].0@]
                        == other.entries@[j].1@,
            decreases other.entries@.len() - i,
        {
            let key = &other.entries[i].0;
            match self.get(key.as_str()) {
                Some(v) => {
                    if !(*v == other.entries[i].1) {
                        proof {
                            lemma_pairs_map_unique_index(other.entries@, i as int);
                            assert(other@.contains_key(other.entries@[i as int].0@));
                        }
                        return false;
                    }
                },
                None => {
                    proof {
                        lemma_pairs_map_unique_index(other.entries@, i as int);
                        assert(other@.contains_key(other.entries@[i as int].0@));
                    }
                    return false;
                },
            }
            i += 1;
        }
        assert forall|k: Seq<char>| #[trigger] other@.contains_key(k) implies self@.contains_key(k)
            && self@[k] == other@[k] by {
            lemma_pairs_map_dom(other.entries@, k);
            let j = choose|j: int| 0 <= j < other.entries@.len() && #[trigger] other.entries@[j].0@ == k;
            lemma_pairs_map_unique_index(other.entries@, j);
        }
        true
    }
}


/// Reading an attribute gives back what was last stored under its key, and
/// storing under one key leaves the others unchanged.
pub proof fn law_attrs_read_after_write(a: AttrsV, key: Seq<char>, value: Seq<char>, other: Seq<char>)
    requires
        other != key,
    ensures
        a.insert(key, value).contains_key(key),
        a.insert(key, value)[key] == value,
        a.insert(key, value).contains_key(other) == a.contains_key(other),
        a.contains_key(other) ==> a.insert(key, value)[other] == a[other],
{
}

impl Clone for Attrs {
    /// A copy of these attributes.
    fn clone(&self) -> (r: Attrs)
        ensures
            r@ == self@,
    {
        proof {
            use_type_invariant(self);
        }
        let mut out: Vec<(String, String)> = Vec::new();
        let mut i: usize = 0;
        while i < self.entries.len()
            invariant
                0 <= i <= self.entries@.len(),
                keys_unique(self.entries@),
                out@.len() == i,
                forall|j: int| 0 <= j < i ==> out@[j] == self.entries@[j],
            decreases self.entries@.len() - i,
        {
            let k = self.entries[i].0.clone();
            let v = self.entries[i].1.clone();
            out.push((k, v));
            i += 1;
        }
        assert(out@ =~= self.entries@);
        Attrs { entries: out }
    }
}

impl PartialEq for Attrs {
    fn eq(&self, other: &Attrs) -> (r: bool) {
        let r = self.covers(other) && other.covers(self);
        proof {
            if r {
                assert(self@ =~= other@);
            }
        }
        r
    }
}

impl vstd::std_specs::cmp::PartialEqSpecImpl for Attrs {
    open spec fn obeys_eq_spec() -> bool {
        true
    }

    open spec fn eq_spec(&self, other: &Attrs) -> bool {
        self@ == other@
    }
}

/// An element of a document: a run of characters, or a group of elements
/// with attributes.
#[derive(Debug, PartialEq)]
pub enum DocElement {
    DocChars(String),
    DocGroup(Attrs, Vec<DocElement>),
}

/// A whole document: its top-level elements.
#[derive(Debug, PartialEq)]
pub struct Doc(pub Vec<DocElement>);

/// One step of a document's token stream.
pub enum Token {
    /// The start of a group, with its attributes.
    Open(AttrsV),
    /// One character, by its code point.
    Char(int),
    /// The end of a group.
    Close,
}

/// The token stream of an element.
pub open spec fn flat_elem(e: DocElement) -> Seq<Token>
    decreases e,
{
    match e {
        DocElement::DocChars(s) => chars_tokens(s@),
        DocElement::DocGroup(a, span) => seq![Token::Open(a@)] + flat_span(span@) + seq![Token::Close],
    }
}

/// The token stream of a sequence of elements.
pub open spec fn flat_span(s: Seq<DocElement>) -> Seq<Token>
    decreases s,
{
    if s.len() == 0 {
        Seq::empty()
    } else {
        flat_span(s.drop_last()) + flat_elem(s.last())
    }
}

/// The element is in canonical form: no run of characters in it is empty,
/// and no two runs stand side by side.
pub open spec fn canon_elem(e: DocElement) -> bool
    decreases e,
{
    match e {
        DocElement::DocChars(s) => s@.len() > 0,
        DocElement::DocGroup(_, span) => canon_span(span@),
    }
}

/// The elements are in canonical form: each one is, and no two runs of
/// characters stand side by side.
pub open spec fn canon_span(s: Seq<DocElement>) -> bool
    decreases s,
{
    if s.len() == 0 {
        true
    } else {
        &&& canon_span(s.drop_last())
        &&& canon_elem(s.last())
        &&& !(s.len() >= 2 && s[s.len() - 2] is DocChars && s.last() is DocChars)
    }
}

/// A canonical span flattens to no tokens exactly when it is empty.
pub proof fn lemma_canon_span_empty(s: Seq<DocElement>)
    requires
        canon_span(s),
    ensures
        flat_span(s).len() == 0 <==> s.len() == 0,
{
    if s.len() > 0 {
        let e = s.last();
        assert(canon_elem(e));
        match e {
            DocElement::DocChars(c) => {
                lemma_chars_tokens(c@);
            },
            DocElement::DocGroup(_, _) => {
                assert(flat_elem(e).len() >= 2);
            },
        }
        assert(flat_span(s).len() >= flat_elem(e).len());
    }
}

/// How many characters the element holds, at every depth.
pub open spec fn elem_chars(e: DocElement) -> nat
    decreases e,
{
    match e {
        DocElement::DocChars(s) => s@.len(),
        DocElement::DocGroup(_, span) => span_chars(span@),
    }
}

/// How many characters the elements hold, at every depth.
pub open spec fn span_chars(s: Seq<DocElement>) -> nat
    decreases s,
{
    if s.len() == 0 {
        0
    } else {
        span_chars(s.drop_last()) + elem_chars(s.last())
    }
}

/// How many groups the element is or holds, at every depth.
pub open spec fn elem_groups(e: DocElement) -> nat
    decreases e,
{
    match e {
        DocElement::DocChars(_) => 0,
        DocElement::DocGroup(_, span) => 1 + span_groups(span@),
    }
}

/// How many groups the elements are or hold, at every depth.
pub open spec fn span_groups(s: Seq<DocElement>) -> nat
    decreases s,
{
    if s.len() == 0 {
        0
    } else {
        span_groups(s.drop_last()) + elem_groups(s.last())
    }
}

/// An element has one token per character and two per group.
pub proof fn lemma_elem_token_count(e: DocElement)
    ensures
        flat_elem(e).len() == elem_chars(e) + 2 * elem_groups(e),
    decreases e,
{
    match e {
        DocElement::DocChars(s) => {
            lemma_chars_tokens(s@);
        },
        DocElement::DocGroup(_, span) => {
            law_token_count(span@);
        },
    }
}

/// A document's token stream has one token per character and two per group
/// (its start and its end), at every depth; so a walk from the start of the
/// document takes exactly that many forward steps before it reaches the end.
pub proof fn law_token_count(s: Seq<DocElement>)
    ensures
        flat_span(s).len() == span_chars(s) + 2 * span_groups(s),
    decreases s,
{
    if s.len() > 0 {
        law_token_count(s.drop_last());
        lemma_elem_token_count(s.last());
    }
}

/// The tokens of a run of characters.
pub open spec fn chars_tokens(s: Seq<char>) -> Seq<Token>
    decreases s.len(),
{
    if s.len() == 0 {
        Seq::empty()
    } else {
        chars_tokens(s.drop_last()).push(Token::Char(s.last() as int))
    }
}

pub proof fn lemma_chars_tokens(s: Seq<char>)
    ensures
        chars_tokens(s).len() == s.len(),
        forall|i: int| 0 <= i < s.len() ==> #[trigger] chars_tokens(s)[i] == Token::Char(s[i] as int),
    decreases s.len(),
{
    if s.len() > 0 {
        lemma_chars_tokens(s.drop_last());
    }
}

/// How a token changes the nesting depth.
pub open spec fn delta(t: Token) -> int {
    match t {
        Token::Open(_) => 1,
        Token::Close => -1,
        Token::Char(_) => 0,
    }
}

/// The nesting depth just before token `i` (the number of groups open there).
pub open spec fn depth(t: Seq<Token>, i: int) -> int
    decreases i,
{
    if i <= 0 || i > t.len() {
        0
    } else {
        depth(t, i - 1) + delta(t[i - 1])
    }
}

/// Every group that is opened is closed, and no group is closed before it is opened.
pub open spec fn balanced(t: Seq<Token>) -> bool {
    &&& forall|i: int| 0 <= i <= t.len() ==> #[trigger] depth(t, i) >= 0
    &&& depth(t, t.len() as int) == 0
}

pub proof fn lemma_depth_prefix(a: Seq<Token>, b: Seq<Token>, i: int)
    requires
        0 <= i <= a.len(),
    ensures
        depth(a + b, i) == depth(a, i),
    decreases i,
{
    if i > 0 {
        lemma_depth_prefix(a, b, i - 1);
        assert((a + b)[i - 1] == a[i - 1]);
    }
}

pub proof fn lemma_depth_concat(a: Seq<Token>, b: Seq<Token>, j: int)
    requires
        0 <= j <= b.len(),
    ensures
        depth(a + b, a.len() + j) == depth(a, a.len() as int) + depth(b, j),
    decreases j,
{
    if j == 0 {
        lemma_depth_prefix(a, b, a.len() as int);
    } else {
        lemma_depth_concat(a, b, j - 1);
        assert((a + b)[a.len() + j - 1] == b[j - 1]);
    }
}

proof fn lemma_depth_chars(s: Seq<char>, i: int)
    requires
        0 <= i <= s.len(),
    ensures
        depth(chars_tokens(s), i) == 0,
    decreases i,
{
    lemma_chars_tokens(s);
    if i > 0 {
        lemma_depth_chars(s, i - 1);
        assert(chars_tokens(s)[i - 1] == Token::Char(s[i - 1] as int));
    }
}

/// The token stream of an element is balanced; that of a group stays
/// strictly inside the group between its first and last token.
pub proof fn lemma_flat_elem_balanced(e: DocElement)
    ensures
        balanced(flat_elem(e)),
        e is DocGroup ==> forall|i: int|
            1 <= i < flat_elem(e).len() ==> #[trigger] depth(flat_elem(e), i) >= 1,
    decreases e,
{
    match e {
        DocElement::DocChars(s) => {
            lemma_chars_tokens(s@);
            assert(flat_elem(e).len() == s@.len());
            assert forall|i: int| 0 <= i <= flat_elem(e).len() implies #[trigger] depth(
                flat_elem(e),
                i,
            ) >= 0 by {
                lemma_depth_chars(s@, i);
            }
            lemma_depth_chars(s@, s@.len() as int);
        },
        DocElement::DocGroup(a, span) => {
            let o = seq![Token::Open(a@)];
            let f = flat_span(span@);
            let c = seq![Token::Close];
            lemma_flat_span_balanced(span@);
            assert(flat_elem(e) == (o + f) + c);
            assert forall|i: int| 1 <= i <= 1 + f.len() implies #[trigger] depth(
                flat_elem(e),
                i,
            ) >= 1 by {
                lemma_depth_prefix(o + f, c, i);
                lemma_depth_concat(o, f, i - 1);
                assert(depth(o, 0) == 0);
                assert(depth(o, 1) == 1);
                assert(depth(f, i - 1) >= 0);
            }
            lemma_depth_concat(o + f, c, 1);
            lemma_depth_prefix(o + f, c, 1 + f.len() as int);
            lemma_depth_concat(o, f, f.len() as int);
            assert(depth(o, 0) == 0);
            assert(depth(o, 1) == 1);
            assert(depth(flat_elem(e), 0) == 0);
            assert forall|i: int| 0 <= i <= flat_elem(e).len() implies #[trigger] depth(
                flat_elem(e),
                i,
            ) >= 0 by {
                if 1 <= i <= 1 + f.len() {
                    assert(depth(flat_elem(e), i) >= 1);
                }
            }
        },
    }
}

/// The token stream of a sequence of elements is balanced.
pub proof fn lemma_flat_span_balanced(s: Seq<DocElement>)
    ensures
        balanced(flat_span(s)),
    decreases s,
{
    if s.len() > 0 {
        let a = flat_span(s.drop_last());
        let b = flat_elem(s.last());
        lemma_flat_span_balanced(s.drop_last());
        lemma_flat_elem_balanced(s.last());
        assert forall|i: int| 0 <= i <= (a + b).len() implies #[trigger] depth(a + b, i) >= 0 by {
            if i <= a.len() {
                lemma_depth_prefix(a, b, i);
            } else {
                lemma_depth_concat(a, b, i - a.len());
            }
        }
        lemma_depth_concat(a, b, b.len() as int);
    }
}

pub proof fn lemma_flat_span_push(s: Seq<DocElement>, e: DocElement)
    ensures
        flat_span(s.push(e)) == flat_span(s) + flat_elem(e),
{
    assert(s.push(e).drop_last() =~= s);
}

} // verus!
