//! Shell-style pattern matching.
//!
//! A small matcher for lists of device names, where one string is held against many patterns. It
//! does not preprocess the patterns, does not recurse, and its running time is at most quadratic.

use vstd::prelude::*;

use crate::ascii::{BACKSLASH, BANG, CLOSE_BRACKET, HYPHEN, OPEN_BRACKET, QUESTION, STAR};
use crate::cstring::at;
#[allow(unused_imports)]
use crate::cstring::{byte_at, cstr, lemma_cstr, lemma_cstr_unique, nul_free};

verus! {

/// Whether the span of a character class that starts at `q` is a range `a-b`. A hyphen in front
/// of the closing bracket stands for itself.
pub open spec fn is_range(p: Seq<u8>, q: int) -> bool {
    byte_at(p, q + 1) == HYPHEN && byte_at(p, q + 2) != CLOSE_BRACKET
}

/// The last character of the span that starts at `q`.
pub open spec fn span_last(p: Seq<u8>, q: int) -> u8 {
    if is_range(p, q) {
        byte_at(p, q + 2)
    } else {
        byte_at(p, q)
    }
}

/// Where the span that starts at `q` ends.
pub open spec fn span_end(p: Seq<u8>, q: int) -> int {
    if is_range(p, q) {
        q + 3
    } else {
        q + 1
    }
}

/// Where the character class whose next span starts at `q` ends, past its closing bracket, or
/// `None` if the pattern ends first. The first span may begin with a closing bracket.
pub open spec fn class_end(p: Seq<u8>, q: int) -> Option<int>
    decreases p.len() - q,
{
    if q >= p.len() || span_last(p, q) == 0 {
        None
    } else {
        let e = span_end(p, q);
        if byte_at(p, e) == CLOSE_BRACKET {
            Some(e + 1)
        } else {
            class_end(p, e)
        }
    }
}

/// Whether one of the spans from `q` to the end of the class holds `c`.
pub open spec fn class_has(p: Seq<u8>, q: int, c: u8) -> bool
    decreases p.len() - q,
{
    if q >= p.len() || span_last(p, q) == 0 {
        false
    } else {
        let e = span_end(p, q);
        ||| p[q] <= c <= span_last(p, q)
        ||| byte_at(p, e) != CLOSE_BRACKET && class_has(p, e, c)
    }
}

/// Where the spans of the character class whose bracket stands at `i` begin: an exclamation mark
/// complements the class.
pub open spec fn class_start(p: Seq<u8>, i: int) -> int {
    if byte_at(p, i + 1) == BANG {
        i + 2
    } else {
        i + 1
    }
}

/// Where the token at `i` ends, for a token that stands for one character: `?`, a class, an
/// escaped character, or a literal. An opening bracket that nothing closes is a literal.
pub open spec fn token_end(p: Seq<u8>, i: int) -> int {
    if p[i] == OPEN_BRACKET && class_end(p, class_start(p, i)) is Some {
        class_end(p, class_start(p, i))->0
    } else if p[i] == BACKSLASH {
        i + 2
    } else {
        i + 1
    }
}

/// Whether the token at `i`, which is not a star, stands for the character `c`.
pub open spec fn token_accepts(p: Seq<u8>, i: int, c: u8) -> bool {
    if p[i] == QUESTION {
        true
    } else if p[i] == OPEN_BRACKET && class_end(p, class_start(p, i)) is Some {
        class_has(p, class_start(p, i), c) != (byte_at(p, i + 1) == BANG)
    } else if p[i] == BACKSLASH {
        i + 1 < p.len() && c == p[i + 1]
    } else {
        c == p[i]
    }
}

/// Whether the pattern `p` from `i` on matches all of the string `s` from `j` on. A star stands
/// for any number of characters; a backslash at the very end of a pattern stands for nothing.
pub open spec fn glob_from(p: Seq<u8>, i: int, s: Seq<u8>, j: int) -> bool
    decreases p.len() - i, s.len() - j,
{
    if j > s.len() {
        false
    } else if i >= p.len() {
        j == s.len()
    } else if p[i] == STAR {
        glob_from(p, i + 1, s, j) || (j < s.len() && glob_from(p, i, s, j + 1))
    } else if p[i] == BACKSLASH && i + 1 == p.len() {
        j == s.len()
    } else {
        &&& j < s.len()
        &&& token_accepts(p, i, s[j])
        &&& i < token_end(p, i) <= p.len()
        &&& glob_from(p, token_end(p, i), s, j + 1)
    }
}

/// Whether the pattern `p` matches the whole string `s`.
pub open spec fn glob_matches(p: Seq<u8>, s: Seq<u8>) -> bool {
    glob_from(p, 0, s, 0)
}

proof fn lemma_class_end(p: Seq<u8>, q: int)
    ensures
        class_end(p, q) matches Some(e) ==> q + 1 < e <= p.len(),
    decreases p.len() - q,
{
    if q < p.len() && span_last(p, q) != 0 && byte_at(p, span_end(p, q)) != CLOSE_BRACKET {
        lemma_class_end(p, span_end(p, q));
    }
}

/// A star followed by `q` matches from `j` on exactly if `q` matches from some later place on.
proof fn lemma_star(p: Seq<u8>, i: int, s: Seq<u8>, j: int)
    requires
        0 <= i < p.len(),
        p[i] == STAR,
    ensures
        glob_from(p, i, s, j) <==> exists|k: int| j <= k && #[trigger] glob_from(p, i + 1, s, k),
    decreases s.len() - j,
{
    if j < s.len() {
        lemma_star(p, i, s, j + 1);
        if glob_from(p, i, s, j) {
            if !glob_from(p, i + 1, s, j) {
                let k = choose|k: int| j + 1 <= k && #[trigger] glob_from(p, i + 1, s, k);
                assert(j <= k);
            }
        }
        if exists|k: int| j <= k && #[trigger] glob_from(p, i + 1, s, k) {
            let k = choose|k: int| j <= k && #[trigger] glob_from(p, i + 1, s, k);
            if k > j {
                assert(j + 1 <= k && glob_from(p, i + 1, s, k));
                assert(glob_from(p, i, s, j + 1));
            }
        }
    } else {
        assert forall|k: int| j < k implies !#[trigger] glob_from(p, i + 1, s, k) by {}
        assert(j == s.len() ==> glob_from(p, i, s, j) == glob_from(p, i + 1, s, j));
        if glob_from(p, i, s, j) {
            assert(j <= j && glob_from(p, i + 1, s, j));
        }
    }
}

/// Where to go back to on a mismatch: just past the last star of the pattern, and the place in the
/// string that was last tried there. Because a star matches everything, only the last one matters.
#[derive(Clone, Copy)]
struct Restart {
    pat: usize,
    text: usize,
}

/// What the position `(i, j)` of the matcher says of the whole match.
spec fn progress(p: Seq<u8>, t: Seq<u8>, i: int, j: int, back: Option<Restart>) -> bool {
    match back {
        None => glob_matches(p, t) == glob_from(p, i, t, j),
        Some(b) => {
            &&& 1 <= b.pat <= i
            &&& b.text <= j
            &&& p[b.pat - 1] == STAR
            &&& glob_matches(p, t) == (glob_from(p, i, t, j) || exists|k: int|
                b.text < k && #[trigger] glob_from(p, b.pat as int, t, k))
            &&& forall|k: int| #[trigger]
                glob_from(p, b.pat as int, t, k) ==> glob_from(p, i, t, k + j - b.text)
        },
    }
}

spec fn back_pat(back: Option<Restart>) -> int {
    if back is Some { back->0.pat as int } else { 0 }
}

spec fn back_text(back: Option<Restart>) -> int {
    if back is Some { back->0.text as int } else { 0 }
}

/// At the end of the string a failed position is final.
proof fn lemma_exhausted(p: Seq<u8>, t: Seq<u8>, i: int, j: int, back: Option<Restart>)
    requires
        progress(p, t, i, j, back),
        j == t.len(),
        !glob_from(p, i, t, j),
    ensures
        !glob_matches(p, t),
{
    if let Some(b) = back {
        assert forall|k: int| b.text < k implies !#[trigger] glob_from(p, b.pat as int, t, k) by {
            if glob_from(p, b.pat as int, t, k) {
                assert(glob_from(p, i, t, k + j - b.text));
            }
        }
    }
}

/// A star makes every earlier restart point superfluous.
proof fn lemma_new_star(p: Seq<u8>, t: Seq<u8>, i: int, j: int, back: Option<Restart>)
    requires
        progress(p, t, i, j, back),
        0 <= i < p.len(),
        p[i] == STAR,
    ensures
        glob_matches(p, t) == (glob_from(p, i + 1, t, j) || exists|k: int|
            j < k && #[trigger] glob_from(p, i + 1, t, k)),
{
    lemma_star(p, i, t, j);
    if let Some(b) = back {
        if exists|k: int| b.text < k && #[trigger] glob_from(p, b.pat as int, t, k) {
            let k = choose|k: int| b.text < k && #[trigger] glob_from(p, b.pat as int, t, k);
            assert(glob_from(p, i, t, k + j - b.text));
            lemma_star(p, i, t, k + j - b.text);
            let m = choose|m: int| k + j - b.text <= m && #[trigger] glob_from(p, i + 1, t, m);
            assert(j <= m && glob_from(p, i + 1, t, m));
        }
    }
    if glob_from(p, i, t, j) {
        let m = choose|m: int| j <= m && #[trigger] glob_from(p, i + 1, t, m);
        assert(m == j || j < m);
    }
    if exists|k: int| j < k && #[trigger] glob_from(p, i + 1, t, k) {
        let k = choose|k: int| j < k && #[trigger] glob_from(p, i + 1, t, k);
        assert(j <= k && glob_from(p, i + 1, t, k));
    }
}

/// A star is the new place to go back to.
proof fn lemma_star_progress(p: Seq<u8>, t: Seq<u8>, i: usize, j: usize, back: Option<Restart>)
    requires
        progress(p, t, i as int, j as int, back),
        i < p.len(),
        i < usize::MAX,
        p[i as int] == STAR,
    ensures
        progress(p, t, i + 1, j as int, Some(Restart { pat: (i + 1) as usize, text: j })),
{
    lemma_new_star(p, t, i as int, j as int, back);
}

/// After a mismatch the last star takes one more character.
proof fn lemma_restart(p: Seq<u8>, t: Seq<u8>, i: int, j: int, b: Restart)
    requires
        progress(p, t, i, j, Some(b)),
        !glob_from(p, i, t, j),
        b.text < usize::MAX,
    ensures
        progress(
            p,
            t,
            b.pat as int,
            b.text + 1,
            Some(Restart { pat: b.pat, text: (b.text + 1) as usize }),
        ),
{
    if exists|k: int| b.text < k && #[trigger] glob_from(p, b.pat as int, t, k) {
        let k = choose|k: int| b.text < k && #[trigger] glob_from(p, b.pat as int, t, k);
        assert(k == b.text + 1 || b.text + 1 < k);
    }
    if exists|k: int| b.text + 1 < k && #[trigger] glob_from(p, b.pat as int, t, k) {
        let k = choose|k: int| b.text + 1 < k && #[trigger] glob_from(p, b.pat as int, t, k);
        assert(b.text < k && glob_from(p, b.pat as int, t, k));
    }
    let start = b.text + 1;
    if glob_from(p, b.pat as int, t, start) {
        assert(b.text < start && glob_from(p, b.pat as int, t, start));
    }
    assert forall|k: int| #[trigger] glob_from(p, b.pat as int, t, k) implies glob_from(
        p,
        b.pat as int,
        t,
        k + start - (b.text + 1) as usize,
    ) by {
        assert(k + start - (b.text + 1) as usize == k);
    }
}

/// A token that stands for a character is passed together with it.
#[verifier::spinoff_prover]
proof fn lemma_advance(p: Seq<u8>, t: Seq<u8>, i: int, j: int, back: Option<Restart>)
    requires
        progress(p, t, i, j, back),
        0 <= i < p.len(),
        p[i] != STAR,
        !(p[i] == BACKSLASH && i + 1 == p.len()),
        glob_from(p, i, t, j) == glob_from(p, token_end(p, i), t, j + 1),
        i < token_end(p, i),
    ensures
        progress(p, t, token_end(p, i), j + 1, back),
{
    let next = token_end(p, i);
    if let Some(b) = back {
        assert forall|k: int| #[trigger] glob_from(p, b.pat as int, t, k) implies glob_from(
            p,
            next,
            t,
            k + (j + 1) - b.text,
        ) by {
            let m = k + j - b.text;
            assert(glob_from(p, i, t, m));
            assert(glob_from(p, next, t, m + 1));
        }
    }
}

/// The outcome of scanning a character class against one character.
struct ClassScan {
    /// Whether the class is closed.
    closed: bool,
    /// Whether a span holds the character.
    matched: bool,
    /// The position past the closing bracket.
    end: usize,
}

/// Walks the spans of a character class, the first of which starts at `start`.
fn scan_class(pat: &[u8], start: usize, c: u8) -> (r: ClassScan)
    requires
        1 <= start <= cstr(pat@).len(),
    ensures
        r.closed == (class_end(cstr(pat@), start as int) is Some),
        r.closed ==> r.end == class_end(cstr(pat@), start as int)->0,
        r.closed ==> r.matched == class_has(cstr(pat@), start as int, c),
{
    let ghost p = cstr(pat@);
    proof {
        lemma_cstr(pat@);
    }
    let mut matched = false;
    let mut q: usize = start;
    loop
        invariant
            p == cstr(pat@),
            nul_free(p),
            forall|i: int| 0 <= i <= p.len() ==> #[trigger] byte_at(pat@, i) == byte_at(p, i),
            p.len() <= pat@.len(),
            q <= p.len(),
            class_end(p, start as int) == class_end(p, q as int),
            class_has(p, start as int, c) == (matched || class_has(p, q as int, c)),
        decreases p.len() - q,
    {
        let a = at(pat, q);
        if a == 0 {
            return ClassScan { closed: false, matched, end: q };
        }
        let mut b = a;
        let mut class: usize = q + 1;
        if at(pat, class) == HYPHEN && at(pat, class + 1) != CLOSE_BRACKET {
            b = at(pat, class + 1);
            if b == 0 {
                return ClassScan { closed: false, matched, end: q };
            }
            class = class + 2;
        }
        assert(b == span_last(p, q as int));
        assert(class == span_end(p, q as int));
        if a <= c && c <= b {
            matched = true;
        }
        if at(pat, class) == CLOSE_BRACKET {
            return ClassScan { closed: true, matched, end: class + 1 };
        }
        q = class;
    }
}

/// Whether `c` has no meaning of its own in a pattern.
pub open spec fn is_plain(c: u8) -> bool {
    c != 0 && c != QUESTION && c != STAR && c != OPEN_BRACKET && c != BACKSLASH
}

proof fn lemma_plain_prefix(p: Seq<u8>, i: int, n: int, s: Seq<u8>, j: int)
    requires
        0 <= i <= n <= p.len(),
        0 <= j <= s.len(),
        forall|k: int| 0 <= k < n ==> is_plain(#[trigger] p[k]),
    ensures
        glob_from(p, i, s, j) <==> {
            &&& j + (n - i) <= s.len()
            &&& s.subrange(j, j + (n - i)) == p.subrange(i, n)
            &&& glob_from(p, n, s, j + (n - i))
        },
    decreases n - i,
{
    if i == n {
        assert(s.subrange(j, j + (n - i)) =~= p.subrange(i, n));
    } else {
        assert(is_plain(p[i]));
        if j < s.len() {
            lemma_plain_prefix(p, i + 1, n, s, j + 1);
            if s[j] == p[i] {
                if j + (n - i) <= s.len() {
                    assert(s.subrange(j, j + (n - i)) =~= seq![s[j]] + s.subrange(j + 1, j + (n - i)));
                    assert(p.subrange(i, n) =~= seq![p[i]] + p.subrange(i + 1, n));
                    assert(s.subrange(j, j + (n - i)).skip(1) =~= s.subrange(j + 1, j + (n - i)));
                    assert(p.subrange(i, n).skip(1) =~= p.subrange(i + 1, n));
                }
            } else if j + (n - i) <= s.len() {
                assert(s.subrange(j, j + (n - i))[0] == s[j]);
                assert(p.subrange(i, n)[0] == p[i]);
            }
        }
    }
}

/// A pattern without metacharacters matches itself and nothing else.
pub proof fn law_plain_pattern_matches_itself_only(p: Seq<u8>, s: Seq<u8>)
    requires
        forall|k: int| 0 <= k < p.len() ==> is_plain(#[trigger] p[k]),
    ensures
        glob_matches(p, s) <==> p == s,
{
    lemma_plain_prefix(p, 0, p.len() as int, s, 0);
    assert(p.subrange(0, p.len() as int) =~= p);
    assert(s.subrange(0, s.len() as int) =~= s);
}

/// A pattern that is plain but for one trailing star matches the strings that begin with it; the
/// star alone matches every string.
pub proof fn law_trailing_star_matches_prefix(p: Seq<u8>, s: Seq<u8>)
    requires
        forall|k: int| 0 <= k < p.len() ==> is_plain(#[trigger] p[k]),
    ensures
        glob_matches(p.push(STAR), s) <==> p.is_prefix_of(s),
{
    let q = p.push(STAR);
    let n = p.len() as int;
    assert forall|k: int| 0 <= k < n implies is_plain(#[trigger] q[k]) by {
        assert(q[k] == p[k]);
    }
    lemma_plain_prefix(q, 0, n, s, 0);
    assert(q.subrange(0, n) =~= p);
    if n <= s.len() {
        lemma_star(q, n, s, n);
        assert(glob_from(q, n + 1, s, s.len() as int));
        assert(glob_from(q, n, s, n));
        assert(s.subrange(0, n) == p <==> p.is_prefix_of(s));
    }
}

/// An opening bracket that nothing closes stands for itself.
pub proof fn law_unclosed_bracket_is_literal(p: Seq<u8>, s: Seq<u8>)
    requires
        p.len() > 0,
        p[0] == OPEN_BRACKET,
        class_end(p, class_start(p, 0)) is None,
    ensures
        glob_matches(p, s) <==> s.len() > 0 && s[0] == OPEN_BRACKET && glob_from(p, 1, s, 1),
{
}

/// What a pattern says does not depend on what stands before it.
proof fn lemma_class_shift(p: Seq<u8>, a: int, q: int, c: u8)
    requires
        0 <= a <= p.len(),
        0 <= q,
    ensures
        class_end(p, a + q) is Some <==> class_end(p.skip(a), q) is Some,
        class_end(p, a + q) matches Some(e) ==> e == a + class_end(p.skip(a), q)->0,
        class_has(p, a + q, c) == class_has(p.skip(a), q, c),
    decreases p.len() - a - q,
{
    let t = p.skip(a);
    assert(byte_at(p, a + q) == byte_at(t, q));
    assert(byte_at(p, a + q + 1) == byte_at(t, q + 1));
    assert(byte_at(p, a + q + 2) == byte_at(t, q + 2));
    assert(span_end(p, a + q) == a + span_end(t, q));
    assert(byte_at(p, a + span_end(t, q)) == byte_at(t, span_end(t, q)));
    if a + q < p.len() && span_last(t, q) != 0 {
        assert(p[a + q] == t[q]);
        lemma_class_shift(p, a, span_end(t, q), c);
    }
}

proof fn lemma_shift(p: Seq<u8>, a: int, i: int, s: Seq<u8>, b: int, j: int)
    requires
        0 <= a <= p.len(),
        0 <= i,
        0 <= b <= s.len(),
        0 <= j,
    ensures
        glob_from(p, a + i, s, b + j) == glob_from(p.skip(a), i, s.skip(b), j),
    decreases p.len() - a - i, s.len() - b - j,
{
    let t = p.skip(a);
    let u = s.skip(b);
    if b + j <= s.len() && a + i < p.len() {
        assert(p[a + i] == t[i]);
        assert(byte_at(p, a + i + 1) == byte_at(t, i + 1));
        if p[a + i] == STAR {
            lemma_shift(p, a, i + 1, s, b, j);
            if b + j < s.len() {
                lemma_shift(p, a, i, s, b, j + 1);
            }
        } else if b + j < s.len() {
            assert(s[b + j] == u[j]);
            assert(class_start(p, a + i) == a + class_start(t, i));
            lemma_class_shift(p, a, class_start(t, i), s[b + j]);
            assert(token_end(p, a + i) == a + token_end(t, i));
            assert(token_accepts(p, a + i, s[b + j]) == token_accepts(t, i, u[j]));
            if i < token_end(t, i) <= t.len() {
                lemma_shift(p, a, token_end(t, i), s, b, j + 1);
            }
        }
    }
}

/// The rest of a pattern, held against the rest of a string.
proof fn lemma_rest(p: Seq<u8>, i: int, s: Seq<u8>, j: int)
    requires
        0 <= i <= p.len(),
        0 <= j <= s.len(),
    ensures
        glob_from(p, i, s, j) == glob_matches(p.skip(i), s.skip(j)),
{
    lemma_shift(p, i, 0, s, j, 0);
}

/// The empty pattern matches the empty string only.
pub proof fn law_empty_pattern(s: Seq<u8>)
    ensures
        glob_matches(Seq::empty(), s) <==> s.len() == 0,
{
}

/// A star matches any beginning of the string, and the rest of the pattern has to match what is left.
pub proof fn law_star(rest: Seq<u8>, s: Seq<u8>)
    ensures
        glob_matches(seq![STAR] + rest, s) <==> exists|k: int|
            0 <= k <= s.len() && #[trigger] glob_matches(rest, s.skip(k)),
{
    let p = seq![STAR] + rest;
    assert(p.skip(1) =~= rest);
    lemma_star(p, 0, s, 0);
    if glob_matches(p, s) {
        let k = choose|k: int| 0 <= k && #[trigger] glob_from(p, 1, s, k);
        assert(k <= s.len());
        lemma_rest(p, 1, s, k);
        assert(glob_matches(rest, s.skip(k)));
    }
    if exists|k: int| 0 <= k <= s.len() && #[trigger] glob_matches(rest, s.skip(k)) {
        let k = choose|k: int| 0 <= k <= s.len() && #[trigger] glob_matches(rest, s.skip(k));
        lemma_rest(p, 1, s, k);
        assert(0 <= k && glob_from(p, 1, s, k));
    }
}

/// A question mark matches any one character.
pub proof fn law_question_mark(rest: Seq<u8>, s: Seq<u8>)
    ensures
        glob_matches(seq![QUESTION] + rest, s) <==> s.len() > 0 && glob_matches(rest, s.skip(1)),
{
    let p = seq![QUESTION] + rest;
    assert(p.skip(1) =~= rest);
    if s.len() > 0 {
        lemma_rest(p, 1, s, 1);
    }
}

/// A character without a meaning of its own matches itself.
pub proof fn law_plain_character(c: u8, rest: Seq<u8>, s: Seq<u8>)
    requires
        c != QUESTION && c != STAR && c != OPEN_BRACKET && c != BACKSLASH,
    ensures
        glob_matches(seq![c] + rest, s) <==> s.len() > 0 && s[0] == c && glob_matches(rest, s.skip(1)),
{
    let p = seq![c] + rest;
    assert(p.skip(1) =~= rest);
    if s.len() > 0 {
        lemma_rest(p, 1, s, 1);
    }
}

/// A character behind a backslash matches itself, whatever it is.
pub proof fn law_escaped_character(c: u8, rest: Seq<u8>, s: Seq<u8>)
    ensures
        glob_matches(seq![BACKSLASH, c] + rest, s) <==> s.len() > 0 && s[0] == c && glob_matches(
            rest,
            s.skip(1),
        ),
{
    let p = seq![BACKSLASH, c] + rest;
    assert(p.skip(2) =~= rest);
    assert(p[1] == c);
    if s.len() > 0 {
        lemma_rest(p, 2, s, 1);
    }
}

/// A span of a character class: the characters from `lo` to `hi`, written as a range, or one
/// character, written as it is.
pub ghost struct Span {
    pub lo: u8,
    pub hi: u8,
    pub range: bool,
}

/// The text of a span.
pub open spec fn span_text(span: Span) -> Seq<u8> {
    if span.range {
        seq![span.lo, HYPHEN, span.hi]
    } else {
        seq![span.lo]
    }
}

/// The text of the spans from the one at `k` on.
pub open spec fn spans_text(spans: Seq<Span>, k: int) -> Seq<u8>
    decreases spans.len() - k,
{
    if 0 <= k < spans.len() {
        span_text(spans[k]) + spans_text(spans, k + 1)
    } else {
        Seq::empty()
    }
}

/// Whether spans can stand in a class one after another. A closing bracket can only begin the first
/// one. Behind a single character a hyphen stands for itself only at the end of the class.
pub open spec fn span_ok(spans: Seq<Span>, k: int) -> bool {
    let span = spans[k];
    &&& span.lo != 0 && span.hi != 0
    &&& span.range ==> span.hi != CLOSE_BRACKET
    &&& !span.range ==> span.hi == span.lo
    &&& k > 0 ==> span.lo != CLOSE_BRACKET
    &&& span.lo == HYPHEN ==> k == 0 || spans[k - 1].range || (k + 1 == spans.len() && !span.range)
}

/// The text of a character class.
pub open spec fn class_text(inverted: bool, spans: Seq<Span>) -> Seq<u8> {
    (if inverted {
        seq![OPEN_BRACKET, BANG]
    } else {
        seq![OPEN_BRACKET]
    }) + spans_text(spans, 0) + seq![CLOSE_BRACKET]
}

/// Whether one of the spans holds `c`.
pub open spec fn in_spans(spans: Seq<Span>, c: u8) -> bool {
    exists|k: int| 0 <= k < spans.len() && (#[trigger] spans[k]).lo <= c <= spans[k].hi
}

/// The spans from the one at `k` on are read as they were written.
proof fn lemma_spans(p: Seq<u8>, q: int, spans: Seq<Span>, k: int, rest: Seq<u8>, c: u8)
    requires
        0 <= q <= p.len(),
        0 <= k < spans.len(),
        forall|i: int| 0 <= i < spans.len() ==> #[trigger] span_ok(spans, i),
        p.skip(q) == spans_text(spans, k) + seq![CLOSE_BRACKET] + rest,
    ensures
        class_end(p, q) == Some(q + spans_text(spans, k).len() + 1),
        class_has(p, q, c) <==> exists|i: int|
            k <= i < spans.len() && (#[trigger] spans[i]).lo <= c <= spans[i].hi,
    decreases spans.len() - k,
{
    let span = spans[k];
    let t = p.skip(q);
    let text = span_text(span);
    let more = spans_text(spans, k + 1) + seq![CLOSE_BRACKET] + rest;
    assert(span_ok(spans, k));
    assert(t =~= text + more);
    assert(byte_at(p, q) == byte_at(t, 0));
    assert(byte_at(p, q + 1) == byte_at(t, 1));
    assert(byte_at(p, q + 2) == byte_at(t, 2));
    assert(t[0] == span.lo);
    let e = q + text.len();
    assert(p.skip(e) =~= t.skip(text.len() as int));
    assert(p.skip(e) =~= more);
    assert(byte_at(p, e) == byte_at(more, 0));
    if k + 1 == spans.len() {
        assert(more[0] == CLOSE_BRACKET);
    } else {
        let next = spans[k + 1];
        assert(span_ok(spans, k + 1));
        assert(more[0] == next.lo);
        if !span.range && next.lo == HYPHEN {
            assert(k + 2 == spans.len() && !next.range);
            assert(spans_text(spans, k + 2) =~= Seq::<u8>::empty());
            assert(more[1] == CLOSE_BRACKET);
        }
    }
    if span.range {
        assert(t[1] == HYPHEN && t[2] == span.hi);
    } else {
        assert(t[1] == more[0]);
        assert(more.len() > 1 ==> t[2] == more[1]);
    }
    assert(span_last(p, q) == span.hi);
    assert(span_end(p, q) == e);
    if k + 1 < spans.len() {
        lemma_spans(p, e, spans, k + 1, rest, c);
        if span.lo <= c <= span.hi {
            assert(k <= k < spans.len() && spans[k].lo <= c <= spans[k].hi);
        }
        if class_has(p, e, c) {
            let i = choose|i: int|
                k + 1 <= i < spans.len() && (#[trigger] spans[i]).lo <= c <= spans[i].hi;
            assert(k <= i < spans.len() && spans[i].lo <= c <= spans[i].hi);
        }
    } else if span.lo <= c <= span.hi {
        assert(k <= k < spans.len() && spans[k].lo <= c <= spans[k].hi);
    }
}

/// A character class matches one character: one that lies in one of its spans, both ends of a range
/// among them, or, if an exclamation mark stands in front, one that lies in none.
pub proof fn law_character_class(inverted: bool, spans: Seq<Span>, rest: Seq<u8>, s: Seq<u8>)
    requires
        spans.len() > 0,
        forall|i: int| 0 <= i < spans.len() ==> #[trigger] span_ok(spans, i),
        !inverted ==> spans[0].lo != BANG,
    ensures
        glob_matches(class_text(inverted, spans) + rest, s) <==> {
            &&& s.len() > 0
            &&& in_spans(spans, s[0]) != inverted
            &&& glob_matches(rest, s.skip(1))
        },
{
    let text = class_text(inverted, spans);
    let p = text + rest;
    let start: int = if inverted {
        2
    } else {
        1
    };
    assert(p[0] == OPEN_BRACKET);
    assert(p.skip(start) =~= spans_text(spans, 0) + seq![CLOSE_BRACKET] + rest);
    assert(span_ok(spans, 0));
    assert(p[start] == p.skip(start)[0]);
    assert(spans_text(spans, 0)[0] == spans[0].lo);
    assert(class_start(p, 0) == start);
    if s.len() > 0 {
        lemma_spans(p, start, spans, 0, rest, s[0]);
        assert(token_end(p, 0) == text.len());
        assert(p.skip(text.len() as int) =~= rest);
        lemma_rest(p, text.len() as int, s, 1);
    }
}

/// A range matches exactly the characters from its first to its last one, and with an exclamation
/// mark in front exactly the others.
pub proof fn law_range(lo: u8, hi: u8, c: u8)
    requires
        lo != 0 && hi != 0,
        lo != BANG,
        hi != CLOSE_BRACKET,
    ensures
        glob_matches(seq![OPEN_BRACKET, lo, HYPHEN, hi, CLOSE_BRACKET], seq![c]) <==> lo <= c <= hi,
        glob_matches(seq![OPEN_BRACKET, BANG, lo, HYPHEN, hi, CLOSE_BRACKET], seq![c]) <==> !(lo <= c
            <= hi),
{
    let spans = seq![Span { lo, hi, range: true }];
    let none = Seq::<u8>::empty();
    assert(spans_text(spans, 1) =~= none);
    assert(spans_text(spans, 0) =~= seq![lo, HYPHEN, hi]);
    assert(class_text(false, spans) + none =~= seq![OPEN_BRACKET, lo, HYPHEN, hi, CLOSE_BRACKET]);
    assert(class_text(true, spans) + none =~= seq![OPEN_BRACKET, BANG, lo, HYPHEN, hi, CLOSE_BRACKET]);
    law_character_class(false, spans, none, seq![c]);
    law_character_class(true, spans, none, seq![c]);
    law_empty_pattern(seq![c].skip(1));
    assert(spans[0].lo == lo && spans[0].hi == hi);
}

/// Where no closing bracket follows at all, an opening bracket matches itself.
pub proof fn law_bracket_without_close(rest: Seq<u8>, s: Seq<u8>)
    requires
        !rest.contains(CLOSE_BRACKET),
    ensures
        glob_matches(seq![OPEN_BRACKET] + rest, s) <==> {
            &&& s.len() > 0
            &&& s[0] == OPEN_BRACKET
            &&& glob_matches(rest, s.skip(1))
        },
{
    let p = seq![OPEN_BRACKET] + rest;
    assert(p.skip(1) =~= rest);
    assert forall|k: int| 0 <= k < p.len() implies p[k] != CLOSE_BRACKET by {
        if k > 0 {
            assert(p[k] == rest[k - 1]);
            assert(rest.contains(rest[k - 1]));
        }
    }
    lemma_no_close(p, class_start(p, 0));
    if s.len() > 0 {
        lemma_rest(p, 1, s, 1);
    }
}

proof fn lemma_no_close(p: Seq<u8>, q: int)
    requires
        0 <= q,
        forall|k: int| 0 <= k < p.len() ==> p[k] != CLOSE_BRACKET,
    ensures
        class_end(p, q) is None,
    decreases p.len() - q,
{
    if q < p.len() && span_last(p, q) != 0 {
        lemma_no_close(p, span_end(p, q));
    }
}

/// Matches the string `s`, of which at most `limit` bytes count, against the pattern `pat`.
fn glob_match_str(pat: &[u8], s: &[u8], limit: usize) -> (r: bool)
    requires
        limit <= s@.len(),
    ensures
        r == glob_matches(cstr(pat@), cstr(s@.take(limit as int))),
{
    let ghost p = cstr(pat@);
    let ghost t = cstr(s@.take(limit as int));
    proof {
        lemma_cstr(pat@);
        lemma_cstr(s@.take(limit as int));
        assert forall|i: int| 0 <= i <= t.len() implies byte_at(t, i) == (if i < limit {
            s@[i]
        } else {
            0
        }) by {
            assert(byte_at(t, i) == byte_at(s@.take(limit as int), i));
        }
    }
    let mut i: usize = 0;
    let mut j: usize = 0;
    let mut back: Option<Restart> = None;
    loop
        invariant
            p == cstr(pat@),
            t == cstr(s@.take(limit as int)),
            nul_free(p),
            nul_free(t),
            p.len() <= pat@.len(),
            t.len() <= limit <= s@.len(),
            forall|i: int| 0 <= i <= p.len() ==> #[trigger] byte_at(pat@, i) == byte_at(p, i),
            forall|i: int| 0 <= i <= t.len() ==> #[trigger] byte_at(t, i) == (if i < limit {
                s@[i]
            } else {
                0
            }),
            i <= p.len(),
            j <= t.len(),
            progress(p, t, i as int, j as int, back),
            back_text(back) <= t.len(),
        decreases p.len() - back_pat(back), t.len() - back_text(back), p.len() - i,
    {
        let c = if j >= limit { 0 } else { s[j] };
        assert(c == byte_at(t, j as int));
        assert(c == 0 <==> j == t.len());
        let d = at(pat, i);
        assert(d == byte_at(p, i as int));
        let mut literal: Option<u8> = None;
        let mut backtrack = false;
        let mut next: usize = if d == 0 { i } else { i + 1 };
        if d == QUESTION {
            if c == 0 {
                proof {
                    lemma_exhausted(p, t, i as int, j as int, back);
                }
                return false;
            }
        } else if d == STAR {
            if at(pat, next) == 0 {
                proof {
                    assert(i + 1 == p.len());
                    lemma_star(p, i as int, t, j as int);
                    assert(glob_from(p, i + 1, t, t.len() as int));
                }
                return true;
            }
            proof {
                lemma_star_progress(p, t, i, j, back);
            }
            back = Some(Restart { pat: next, text: j });
            i = next;
            continue;
        } else if d == OPEN_BRACKET {
            if c == 0 {
                proof {
                    lemma_class_end(p, class_start(p, i as int));
                    lemma_exhausted(p, t, i as int, j as int, back);
                }
                return false;
            }
            let inverted = at(pat, next) == BANG;
            let start: usize = if inverted { next + 1 } else { next };
            assert(start == class_start(p, i as int));
            let scan = scan_class(pat, start, c);
            proof {
                lemma_class_end(p, start as int);
            }
            if !scan.closed {
                literal = Some(d);
            } else if scan.matched == inverted {
                backtrack = true;
            } else {
                next = scan.end;
            }
        } else if d == BACKSLASH {
            let escaped = at(pat, next);
            literal = Some(escaped);
            if escaped != 0 {
                next = next + 1;
            }
        } else {
            literal = Some(d);
        }
        if let Some(l) = literal {
            if c == l {
                if l == 0 {
                    return true;
                }
            } else {
                backtrack = true;
            }
        }
        if backtrack {
            if c == 0 {
                proof {
                    lemma_exhausted(p, t, i as int, j as int, back);
                }
                return false;
            }
            assert(!glob_from(p, i as int, t, j as int));
            match back {
                None => {
                    return false;
                },
                Some(b) => {
                    proof {
                        lemma_restart(p, t, i as int, j as int, b);
                    }
                    i = b.pat;
                    j = b.text + 1;
                    back = Some(Restart { pat: i, text: j });
                },
            }
        } else {
            proof {
                assert(next == token_end(p, i as int));
                lemma_advance(p, t, i as int, j as int, back);
            }
            i = next;
            j = j + 1;
        }
    }
}

/// Matches a string against a shell-style pattern, which must match all of it.
///
/// The metacharacters are `?`, `*`, `[` and the backslash and, inside a character class, `!`, `-`
/// and `]`. A slash and a leading dot have no special meaning. A leading `!` complements a class;
/// an opening bracket without a matching close is matched literally.
pub fn glob_match(pat: &[u8], s: &[u8]) -> (r: bool)
    ensures
        r == glob_matches(cstr(pat@), cstr(s@)),
{
    assert(s@.take(s@.len() as int) =~= s@);
    glob_match_str(pat, s, s.len())
}

/// Matches the first `len` bytes of a buffer, which need not be NUL-terminated, against a
/// shell-style pattern. A NUL among them still ends the string.
pub fn glob_match_len(pat: &[u8], s: &[u8], len: usize) -> (r: bool)
    ensures
        r == glob_matches(cstr(pat@), cstr(s@.take(if len <= s@.len() {
            len as int
        } else {
            s@.len() as int
        }))),
{
    let limit: usize = if len <= s.len() {
        len
    } else {
        s.len()
    };
    glob_match_str(pat, s, limit)
}

/// A backslash at the very end of a pattern stands for nothing.
pub proof fn law_trailing_backslash(s: Seq<u8>)
    ensures
        glob_matches(seq![BACKSLASH], s) <==> s.len() == 0,
{
}

/// A string is matched up to its NUL or its end, and a bounded one up to its bound as well.
pub proof fn law_bounded_match(pat: &[u8], s: &[u8], r: bool, len: usize, t: &[u8], q: bool)
    requires
        call_ensures(glob_match, (pat, s), r),
        call_ensures(glob_match_len, (pat, t, len), q),
        nul_free(pat@),
        nul_free(s@),
    ensures
        r == glob_matches(pat@, s@),
        len <= t@.len() && t@.take(len as int) == s@ ==> q == r,
        len > t@.len() && t@ == s@ ==> q == r,
{
    lemma_cstr_unique(pat@, pat@.len() as int);
    lemma_cstr_unique(s@, s@.len() as int);
    assert(pat@.take(pat@.len() as int) =~= pat@);
    assert(s@.take(s@.len() as int) =~= s@);
    if len > t@.len() {
        assert(t@.take(t@.len() as int) =~= t@);
    }
}

/// A range in a pattern matches the characters from its first to its last one.
pub proof fn law_range_is_matched(pat: &[u8], s: &[u8], r: bool, lo: u8, hi: u8, c: u8)
    requires
        call_ensures(glob_match, (pat, s), r),
        lo != 0 && hi != 0 && c != 0,
        lo != BANG,
        hi != CLOSE_BRACKET,
        pat@ == seq![OPEN_BRACKET, lo, HYPHEN, hi, CLOSE_BRACKET],
        s@ == seq![c],
    ensures
        r == (lo <= c <= hi),
{
    law_range(lo, hi, c);
    lemma_cstr_unique(pat@, pat@.len() as int);
    lemma_cstr_unique(s@, s@.len() as int);
    assert(pat@.take(pat@.len() as int) =~= pat@);
    assert(s@.take(s@.len() as int) =~= s@);
}

} // verus!
