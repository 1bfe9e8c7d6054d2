//! Positions in a token stream: what lies at a position, where the
//! enclosing span ends or starts, and how far one unit of skipping moves.

use vstd::prelude::*;
use crate::doc::{balanced, depth, delta, AttrsV, Token};

verus! {

pub open spec fn is_char(t: Seq<Token>, i: int) -> bool {
    0 <= i < t.len() && t[i] is Char
}

pub open spec fn is_open(t: Seq<Token>, i: int) -> bool {
    0 <= i < t.len() && t[i] is Open
}

pub open spec fn is_close(t: Seq<Token>, i: int) -> bool {
    0 <= i < t.len() && t[i] is Close
}

/// The attributes of the group that opens at `i` (empty where none opens there).
pub open spec fn open_attrs(t: Seq<Token>, i: int) -> AttrsV {
    if is_open(t, i) {
        t[i]->Open_0
    } else {
        Map::empty()
    }
}

/// The end of the run of characters that starts at `p`.
pub open spec fn char_run_end(t: Seq<Token>, p: int) -> int
    decreases t.len() - p,
{
    if 0 <= p < t.len() && is_char(t, p) {
        char_run_end(t, p + 1)
    } else {
        p
    }
}

/// The start of the run of characters that ends at `p`.
pub open spec fn char_run_start(t: Seq<Token>, p: int) -> int
    decreases p,
{
    if 0 < p <= t.len() && is_char(t, p - 1) {
        char_run_start(t, p - 1)
    } else {
        p
    }
}

/// Scanning from `q`, the first close token at depth `d` (or the end of the stream).
pub open spec fn span_end_from(t: Seq<Token>, d: int, q: int) -> int
    decreases t.len() - q,
{
    if q < 0 || q >= t.len() {
        t.len() as int
    } else if is_close(t, q) && depth(t, q) == d {
        q
    } else {
        span_end_from(t, d, q + 1)
    }
}

/// The end of the span that contains position `p`: the index of the close
/// token of the enclosing group, or the end of the stream at top level.
pub open spec fn span_end(t: Seq<Token>, p: int) -> int {
    span_end_from(t, depth(t, p), p)
}

/// Scanning down from `r`, the first position right after an open token
/// that leads to depth `d` (or the start of the stream).
pub open spec fn span_start_from(t: Seq<Token>, d: int, r: int) -> int
    decreases r,
{
    if r <= 0 || r > t.len() {
        0
    } else if is_open(t, r - 1) && depth(t, r) == d {
        r
    } else {
        span_start_from(t, d, r - 1)
    }
}

/// The start of the span that contains position `q`: the position right
/// after the open token of the enclosing group, or 0 at top level.
pub open spec fn span_start(t: Seq<Token>, q: int) -> int {
    span_start_from(t, depth(t, q), q)
}

/// The position right after the element that starts at `p`: a whole group,
/// or a whole run of characters.
pub open spec fn elem_end(t: Seq<Token>, p: int) -> int {
    if is_open(t, p) {
        span_end(t, p + 1) + 1
    } else {
        char_run_end(t, p)
    }
}

/// The position right before the element that ends at `p`.
pub open spec fn elem_start(t: Seq<Token>, p: int) -> int {
    if is_close(t, p - 1) {
        span_start(t, p - 1) - 1
    } else {
        char_run_start(t, p)
    }
}

/// One unit of skipping: a character counts one, and so does a whole group.
pub open spec fn next_unit(t: Seq<Token>, p: int) -> int {
    if is_open(t, p) {
        span_end(t, p + 1) + 1
    } else {
        p + 1
    }
}

/// How many units remain in the current span after position `p`.
pub open spec fn span_units(t: Seq<Token>, p: int) -> nat
    decreases t.len() - p,
{
    if p < 0 || p >= t.len() || is_close(t, p) {
        0
    } else if next_unit(t, p) <= p || next_unit(t, p) > t.len() {
        1
    } else {
        1 + span_units(t, next_unit(t, p))
    }
}

/// The position reached after skipping `n` units from `p`.
pub open spec fn skip_units(t: Seq<Token>, p: int, n: nat) -> int
    decreases n,
{
    if n == 0 {
        p
    } else {
        skip_units(t, next_unit(t, p), (n - 1) as nat)
    }
}

pub proof fn lemma_depth_step(t: Seq<Token>, i: int)
    requires
        0 <= i < t.len(),
    ensures
        depth(t, i + 1) == depth(t, i) + delta(t[i]),
{
}

pub proof fn lemma_span_end_from(t: Seq<Token>, d: int, q: int)
    requires
        0 <= q <= t.len(),
        depth(t, q) >= d,
    ensures
        q <= span_end_from(t, d, q) <= t.len(),
        forall|x: int| q <= x <= span_end_from(t, d, q) ==> #[trigger] depth(t, x) >= d,
        span_end_from(t, d, q) < t.len() ==> is_close(t, span_end_from(t, d, q)) && depth(
            t,
            span_end_from(t, d, q),
        ) == d,
        forall|x: int|
            q <= x < span_end_from(t, d, q) ==> !(#[trigger] is_close(t, x) && depth(t, x) == d),
    decreases t.len() - q,
{
    if q < t.len() && !(is_close(t, q) && depth(t, q) == d) {
        lemma_depth_step(t, q);
        lemma_span_end_from(t, d, q + 1);
    }
}

/// The facts about `span_end` that the steppers rely on.
pub proof fn lemma_span_end(t: Seq<Token>, p: int)
    requires
        0 <= p <= t.len(),
    ensures
        p <= span_end(t, p) <= t.len(),
        forall|x: int| p <= x <= span_end(t, p) ==> #[trigger] depth(t, x) >= depth(t, p),
        span_end(t, p) < t.len() ==> is_close(t, span_end(t, p)) && depth(t, span_end(t, p))
            == depth(t, p),
        forall|x: int|
            p <= x < span_end(t, p) ==> !(#[trigger] is_close(t, x) && depth(t, x) == depth(t, p)),
        balanced(t) && depth(t, p) >= 1 ==> span_end(t, p) < t.len(),
{
    lemma_span_end_from(t, depth(t, p), p);
    if balanced(t) && depth(t, p) >= 1 && span_end(t, p) == t.len() {
        assert(depth(t, t.len() as int) >= depth(t, p));
    }
}

/// A close token at the span's depth with none before it is the span's end.
pub proof fn lemma_span_end_at(t: Seq<Token>, p: int, x: int)
    requires
        0 <= p <= x < t.len(),
        is_close(t, x),
        depth(t, x) == depth(t, p),
        forall|y: int| p <= y < x ==> !(#[trigger] is_close(t, y) && depth(t, y) == depth(t, p)),
    ensures
        span_end(t, p) == x,
{
    lemma_span_end(t, p);
    let q = span_end(t, p);
    if q < x {
        assert(is_close(t, q) && depth(t, q) == depth(t, p));
    } else if q > x {
        assert(!(is_close(t, x) && depth(t, x) == depth(t, p)));
    }
}

pub proof fn lemma_span_start_from(t: Seq<Token>, d: int, r: int)
    requires
        0 <= r <= t.len(),
        depth(t, r) >= d,
    ensures
        0 <= span_start_from(t, d, r) <= r,
        forall|x: int| span_start_from(t, d, r) <= x <= r ==> #[trigger] depth(t, x) >= d,
        span_start_from(t, d, r) > 0 ==> is_open(t, span_start_from(t, d, r) - 1) && depth(
            t,
            span_start_from(t, d, r),
        ) == d,
    decreases r,
{
    if r > 0 && !(is_open(t, r - 1) && depth(t, r) == d) {
        lemma_depth_step(t, r - 1);
        lemma_span_start_from(t, d, r - 1);
    }
}

/// The facts about `span_start` that the steppers rely on.
pub proof fn lemma_span_start(t: Seq<Token>, q: int)
    requires
        0 <= q <= t.len(),
    ensures
        0 <= span_start(t, q) <= q,
        forall|x: int| span_start(t, q) <= x <= q ==> #[trigger] depth(t, x) >= depth(t, q),
        span_start(t, q) > 0 ==> is_open(t, span_start(t, q) - 1) && depth(t, span_start(t, q))
            == depth(t, q),
        depth(t, q) >= 1 ==> span_start(t, q) > 0,
{
    lemma_span_start_from(t, depth(t, q), q);
    if depth(t, q) >= 1 && span_start(t, q) == 0 {
        assert(depth(t, 0) >= depth(t, q));
    }
}

/// The group that closes at `q` opens right before `span_start(t, q)`, and
/// its span ends at `q`.
pub proof fn lemma_group_bounds(t: Seq<Token>, q: int)
    requires
        balanced(t),
        is_close(t, q),
    ensures
        0 < span_start(t, q) <= q,
        is_open(t, span_start(t, q) - 1),
        span_end(t, span_start(t, q)) == q,
        depth(t, span_start(t, q) - 1) + 1 == depth(t, q),
{
    lemma_depth_step(t, q);
    assert(depth(t, q + 1) >= 0);
    lemma_span_start(t, q);
    let s = span_start(t, q);
    lemma_depth_step(t, s - 1);
    assert forall|y: int| s <= y < q implies !(#[trigger] is_close(t, y) && depth(t, y) == depth(
        t,
        s,
    )) by {
        if is_close(t, y) && depth(t, y) == depth(t, s) {
            lemma_depth_step(t, y);
            assert(depth(t, y + 1) >= depth(t, q));
        }
    }
    lemma_span_end_at(t, s, q);
}

/// The group that opens at `p` closes at `span_end(t, p + 1)`.
pub proof fn lemma_group_from_open(t: Seq<Token>, p: int)
    requires
        balanced(t),
        is_open(t, p),
    ensures
        p + 1 <= span_end(t, p + 1) < t.len(),
        is_close(t, span_end(t, p + 1)),
        depth(t, span_end(t, p + 1)) == depth(t, p) + 1,
        depth(t, span_end(t, p + 1) + 1) == depth(t, p),
        forall|x: int| p < x <= span_end(t, p + 1) ==> #[trigger] depth(t, x) > depth(t, p),
{
    lemma_depth_step(t, p);
    assert(depth(t, p) >= 0);
    lemma_span_end(t, p + 1);
    lemma_depth_step(t, span_end(t, p + 1));
}

/// The characters of a run keep the depth unchanged.
pub proof fn lemma_char_run_end(t: Seq<Token>, p: int)
    requires
        0 <= p <= t.len(),
    ensures
        p <= char_run_end(t, p) <= t.len(),
        forall|x: int| p <= x < char_run_end(t, p) ==> #[trigger] is_char(t, x),
        char_run_end(t, p) == t.len() || !is_char(t, char_run_end(t, p)),
        forall|x: int| p <= x <= char_run_end(t, p) ==> #[trigger] depth(t, x) == depth(t, p),
    decreases t.len() - p,
{
    if p < t.len() && is_char(t, p) {
        lemma_depth_step(t, p);
        lemma_char_run_end(t, p + 1);
    }
}

pub proof fn lemma_char_run_start(t: Seq<Token>, p: int)
    requires
        0 <= p <= t.len(),
    ensures
        0 <= char_run_start(t, p) <= p,
        forall|x: int| char_run_start(t, p) <= x < p ==> #[trigger] is_char(t, x),
        char_run_start(t, p) == 0 || !is_char(t, char_run_start(t, p) - 1),
        forall|x: int| char_run_start(t, p) <= x <= p ==> #[trigger] depth(t, x) == depth(t, p),
    decreases p,
{
    if p > 0 && is_char(t, p - 1) {
        lemma_depth_step(t, p - 1);
        lemma_char_run_start(t, p - 1);
    }
}

/// Skipping a unit moves forward and stays within the span.
pub proof fn lemma_next_unit(t: Seq<Token>, p: int)
    requires
        balanced(t),
        0 <= p < t.len(),
        !is_close(t, p),
    ensures
        p < next_unit(t, p) <= span_end(t, p),
        depth(t, next_unit(t, p)) == depth(t, p),
        span_end(t, next_unit(t, p)) == span_end(t, p),
        span_units(t, p) == 1 + span_units(t, next_unit(t, p)),
{
    lemma_span_end(t, p);
    let n = next_unit(t, p);
    if is_open(t, p) {
        lemma_group_from_open(t, p);
    } else {
        lemma_depth_step(t, p);
    }
    // No close at depth(t, p) lies in [p, n).
    assert forall|x: int| p <= x < n implies !(#[trigger] is_close(t, x) && depth(t, x) == depth(
        t,
        p,
    )) by {
        if is_open(t, p) && x > p {
            assert(depth(t, x) > depth(t, p));
        }
    }
    if span_end(t, p) < n {
        assert(!(is_close(t, span_end(t, p)) && depth(t, span_end(t, p)) == depth(t, p)));
    }
    lemma_span_end(t, n);
    if span_end(t, n) < span_end(t, p) {
        assert(depth(t, span_end(t, n)) >= depth(t, p));
    }
    if span_end(t, p) < t.len() {
        assert forall|y: int| n <= y < span_end(t, p) implies !(#[trigger] is_close(t, y) && depth(t, y)
            == depth(t, n)) by {}
        lemma_span_end_at(t, n, span_end(t, p));
    } else {
        if span_end(t, n) < t.len() {
            assert(depth(t, span_end(t, n)) >= depth(t, p));
            assert(!(is_close(t, span_end(t, n)) && depth(t, span_end(t, n)) == depth(t, p)));
        }
    }
}


/// The depth at `i` never exceeds `i`.
pub proof fn lemma_depth_bound(t: Seq<Token>, i: int)
    requires
        0 <= i <= t.len(),
    ensures
        depth(t, i) <= i,
    decreases i,
{
    if i > 0 {
        lemma_depth_bound(t, i - 1);
    }
}

/// Characters leave the depth unchanged.
pub proof fn lemma_chars_depth(t: Seq<Token>, a: int, b: int)
    requires
        0 <= a <= b <= t.len(),
        forall|x: int| a <= x < b ==> #[trigger] is_char(t, x),
    ensures
        depth(t, a) == depth(t, b),
    decreases b - a,
{
    if a < b {
        assert(is_char(t, a));
        lemma_depth_step(t, a);
        lemma_chars_depth(t, a + 1, b);
    }
}

/// The units left in a span fit in what is left of the stream.
pub proof fn lemma_span_units_bound(t: Seq<Token>, p: int)
    requires
        balanced(t),
        0 <= p <= t.len(),
    ensures
        span_units(t, p) <= t.len() - p,
    decreases t.len() - p,
{
    if p < t.len() && !is_close(t, p) {
        lemma_next_unit(t, p);
        lemma_span_end(t, p);
        lemma_span_units_bound(t, next_unit(t, p));
    }
}

/// Skipping over `n` characters moves `n` tokens.
pub proof fn lemma_skip_chars(t: Seq<Token>, p: int, n: nat)
    requires
        balanced(t),
        0 <= p,
        p + n <= t.len(),
        forall|x: int| p <= x < p + n ==> #[trigger] is_char(t, x),
    ensures
        skip_units(t, p, n) == p + n,
        n <= span_units(t, p),
    decreases n,
{
    if n > 0 {
        assert(is_char(t, p));
        lemma_next_unit(t, p);
        lemma_skip_chars(t, p + 1, (n - 1) as nat);
    }
}


/// Skipping units moves forward, within the stream.
pub proof fn lemma_skip_units_mono(t: Seq<Token>, p: int, n: nat)
    requires
        balanced(t),
        0 <= p <= t.len(),
        n <= span_units(t, p),
    ensures
        p <= skip_units(t, p, n) <= t.len(),
    decreases n,
{
    if n > 0 {
        lemma_next_unit(t, p);
        lemma_span_end(t, p);
        lemma_skip_units_mono(t, next_unit(t, p), (n - 1) as nat);
    }
}

} // verus!
