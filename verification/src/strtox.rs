//! Numbers and white space at the beginning of a string.

use vstd::prelude::*;

use crate::ascii::{DIGIT_0, DIGIT_9, HYPHEN};
use crate::cstring::at;
#[allow(unused_imports)]
use crate::cstring::byte_at;
use crate::ctype::isspace;
#[allow(unused_imports)]
use crate::ctype::is_space;

verus! {

/// The value of the digit `c`, at most 15, or 16 if `c` is no hexadecimal digit.
pub open spec fn digit_of(c: u8) -> int {
    if DIGIT_0 <= c <= DIGIT_9 {
        c - DIGIT_0
    } else if 65 <= c <= 70 {
        c - 55
    } else if 97 <= c <= 102 {
        c - 87
    } else {
        16
    }
}

/// The radix that the number at the beginning of `s` announces: `0x` and a digit for hexadecimal,
/// another `0` for octal, and decimal otherwise.
pub open spec fn radix_of(s: Seq<u8>) -> int {
    if byte_at(s, 0) != DIGIT_0 {
        10
    } else if (byte_at(s, 1) == 120 || byte_at(s, 1) == 88) && digit_of(byte_at(s, 2)) < 16 {
        16
    } else {
        8
    }
}

/// Where the digits of the number at the beginning of `s` start: past the `0x`.
pub open spec fn digits_start(s: Seq<u8>) -> int {
    if radix_of(s) == 16 {
        2
    } else {
        0
    }
}

/// Where the run of digits of `radix` that `s` has at `i` ends.
pub open spec fn digits_end(s: Seq<u8>, i: int, radix: int) -> int
    decreases s.len() - i,
{
    if 0 <= i < s.len() && digit_of(s[i]) < radix {
        digits_end(s, i + 1, radix)
    } else {
        i
    }
}

/// The value of the digits of `s` from `i` up to `j`.
pub open spec fn digits_value(s: Seq<u8>, i: int, j: int, radix: int) -> int
    decreases j - i,
{
    if i >= j {
        0
    } else {
        digits_value(s, i, j - 1, radix) * radix + digit_of(s[j - 1])
    }
}

/// Where the number at the beginning of `s` ends; 0 if there is none.
pub open spec fn number_end(s: Seq<u8>) -> int {
    digits_end(s, digits_start(s), radix_of(s))
}

/// The number at the beginning of `s`, modulo 2^64.
pub open spec fn number_value(s: Seq<u8>) -> u64 {
    (digits_value(s, digits_start(s), number_end(s), radix_of(s)) % 0x1_0000_0000_0000_0000) as u64
}

/// The negative of `v`, modulo 2^64.
pub open spec fn negated(v: u64) -> u64 {
    if v == 0 {
        0
    } else {
        (0x1_0000_0000_0000_0000 - v) as u64
    }
}

/// Where the white space of `s` at `i` ends.
pub open spec fn spaces_end(s: Seq<u8>, i: int) -> int
    decreases s.len() - i,
{
    if 0 <= i < s.len() && is_space(s[i]) {
        spaces_end(s, i + 1)
    } else {
        i
    }
}

pub proof fn lemma_digits_end(s: Seq<u8>, i: int, radix: int)
    requires
        0 <= i <= s.len(),
    ensures
        i <= digits_end(s, i, radix) <= s.len(),
    decreases s.len() - i,
{
    if i < s.len() && digit_of(s[i]) < radix {
        lemma_digits_end(s, i + 1, radix);
    }
}

pub proof fn lemma_number_end(s: Seq<u8>)
    ensures
        0 <= number_end(s) <= s.len(),
{
    lemma_digits_end(s, digits_start(s), radix_of(s));
}

/// The value of the digit `c`, or 16.
fn digit(c: u8) -> (d: u8)
    ensures
        d == digit_of(c),
        d <= 16,
{
    if DIGIT_0 <= c && c <= DIGIT_9 {
        c - DIGIT_0
    } else if 65 <= c && c <= 70 {
        c - 55
    } else if 97 <= c && c <= 102 {
        c - 87
    } else {
        16
    }
}

/// Reads the number at `start` of `s`: returns its value, modulo 2^64, and where it ends. A string
/// that does not begin with a number gives 0 and `start`.
pub fn simple_strtoull(s: &[u8], start: usize) -> (r: (u64, usize))
    requires
        start <= s@.len(),
    ensures
        r.0 == number_value(s@.skip(start as int)),
        r.1 == start + number_end(s@.skip(start as int)),
        start <= r.1 <= s@.len(),
{
    let ghost t = s@.skip(start as int);
    assert forall|k: int| #[trigger] byte_at(t, k) == (if k < 0 {
        0
    } else {
        byte_at(s@, start + k)
    }) by {}
    let mut radix: u8 = 10;
    let mut i: usize = start;
    if at(s, start) == DIGIT_0 {
        radix = 8;
        if at(s, start + 1) == 120 || at(s, start + 1) == 88 {
            assert(byte_at(t, 1) != 0);
            if digit(at(s, start + 2)) < 16 {
                radix = 16;
                i = start + 2;
            }
        }
    }
    assert(radix == radix_of(t));
    assert(i - start == digits_start(t));
    let ghost from = i - start;
    let mut v: u64 = 0;
    proof {
        lemma_digits_end(t, from, radix as int);
    }
    while i < s.len() && digit(s[i]) < radix
        invariant
            t == s@.skip(start as int),
            start + from <= i <= s@.len(),
            0 <= from <= t.len(),
            2 <= radix <= 16,
            digits_end(t, from, radix as int) == digits_end(t, i - start, radix as int),
            v as int == digits_value(t, from, i - start, radix as int) % 0x1_0000_0000_0000_0000,
        decreases s@.len() - i,
    {
        let d = digit(s[i]);
        proof {
            let x = digits_value(t, from, i - start, radix as int);
            assert(digits_value(t, from, i - start + 1, radix as int) == x * radix + d);
            vstd::arithmetic::div_mod::lemma_mul_mod_noop_left(
                x,
                radix as int,
                0x1_0000_0000_0000_0000,
            );
            vstd::arithmetic::div_mod::lemma_add_mod_noop(
                x * radix,
                d as int,
                0x1_0000_0000_0000_0000,
            );
            vstd::arithmetic::div_mod::lemma_add_mod_noop(
                v * radix,
                d as int,
                0x1_0000_0000_0000_0000,
            );
        }
        v = v.wrapping_mul(radix as u64).wrapping_add(d as u64);
        i = i + 1;
    }
    (v, i)
}

/// Reads the number at `start` of `s`, which may have a minus sign, modulo 2^64.
pub fn simple_strtol(s: &[u8], start: usize) -> (r: u64)
    requires
        start <= s@.len(),
    ensures
        r == signed_value(s@.skip(start as int)),
{
    if at(s, start) == HYPHEN {
        let (v, _) = simple_strtoull(s, start + 1);
        assert(s@.skip(start as int).skip(1) =~= s@.skip(start + 1));
        0u64.wrapping_sub(v)
    } else {
        simple_strtoull(s, start).0
    }
}

/// The number at the beginning of `s`, which may have a minus sign, modulo 2^64.
pub open spec fn signed_value(s: Seq<u8>) -> u64 {
    if byte_at(s, 0) == HYPHEN {
        negated(number_value(s.skip(1)))
    } else {
        number_value(s)
    }
}

/// Finds where the white space at `start` of `s` ends.
pub fn skip_spaces(s: &[u8], start: usize) -> (r: usize)
    requires
        start <= s@.len(),
    ensures
        r == spaces_end(s@, start as int),
        start <= r <= s@.len(),
{
    let mut i: usize = start;
    while i < s.len() && isspace(s[i])
        invariant
            start <= i <= s@.len(),
            spaces_end(s@, start as int) == spaces_end(s@, i as int),
        decreases s@.len() - i,
    {
        i = i + 1;
    }
    i
}

/// The character for the digit `d`.
pub open spec fn digit_char(d: int) -> u8 {
    if d < 10 {
        (0x30 + d) as u8
    } else {
        (0x57 + d) as u8
    }
}

/// The number `v`, written with the digits of `radix`.
pub open spec fn numeral(v: int, radix: int) -> Seq<u8>
    decreases v,
{
    if v < radix || radix < 2 {
        seq![digit_char(v)]
    } else {
        proof {
            lemma_quotient(v, radix);
        }
        numeral(v / radix, radix).push(digit_char(v % radix))
    }
}

pub proof fn lemma_quotient(v: int, radix: int)
    requires
        2 <= radix <= v,
    ensures
        0 < v / radix < v,
{
    assert(0 < v / radix < v) by (nonlinear_arith)
        requires
            2 <= radix <= v,
    ;
}

/// The digits are `0` to `9`, and `a` to `f` in either case; nothing else is a digit.
pub proof fn law_digits(c: u8)
    ensures
        0x30 <= c <= 0x39 <==> digit_of(c) == c - 0x30 && digit_of(c) < 10,
        0x61 <= c <= 0x66 ==> digit_of(c) == 10 + (c - 0x61) && digit_of((c - 0x20) as u8) == digit_of(
            c,
        ),
        digit_of(c) == 16 <==> !(0x30 <= c <= 0x39 || 0x41 <= c <= 0x46 || 0x61 <= c <= 0x66),
        0 <= digit_of(c) <= 16,
{
}

pub proof fn lemma_numeral(v: int, radix: int)
    requires
        0 <= v,
        2 <= radix <= 16,
    ensures
        numeral(v, radix).len() > 0,
        forall|k: int|
            0 <= k < numeral(v, radix).len() ==> 0 <= digit_of(#[trigger] numeral(v, radix)[k]) < radix,
        forall|k: int| 0 <= k < numeral(v, radix).len() ==> #[trigger] numeral(v, radix)[k] != 0,
        v > 0 ==> numeral(v, radix)[0] != DIGIT_0,
        v == 0 ==> numeral(v, radix) == seq![DIGIT_0],
    decreases v,
{
    if v >= radix {
        lemma_quotient(v, radix);
        lemma_numeral(v / radix, radix);
        assert(0 <= v % radix < radix);
    }
}

/// The digits of a numeral in a text are read as its value.
proof fn lemma_numeral_value(s: Seq<u8>, i: int, v: int, radix: int)
    requires
        0 <= v,
        2 <= radix <= 16,
        0 <= i,
        i + numeral(v, radix).len() <= s.len(),
        s.subrange(i, i + numeral(v, radix).len()) == numeral(v, radix),
    ensures
        digits_value(s, i, i + numeral(v, radix).len(), radix) == v,
    decreases v,
{
    let n = numeral(v, radix);
    let j = i + n.len();
    lemma_numeral(v, radix);
    assert(s[j - 1] == s.subrange(i, j)[n.len() - 1]);
    if v >= radix {
        let m = numeral(v / radix, radix);
        lemma_quotient(v, radix);
        assert(s.subrange(i, j - 1) =~= s.subrange(i, j).drop_last());
        assert(m =~= n.drop_last());
        lemma_numeral_value(s, i, v / radix, radix);
        assert(n.last() == digit_char(v % radix));
        assert(digit_of(s[j - 1]) == v % radix);
        vstd::arithmetic::div_mod::lemma_fundamental_div_mod(v, radix);
        assert(v / radix * radix == radix * (v / radix)) by (nonlinear_arith);
    } else {
        assert(digits_value(s, i, i, radix) == 0);
        assert(digit_of(s[j - 1]) == v);
    }
}

/// A run of digits that something else follows ends there.
proof fn lemma_digits_run(s: Seq<u8>, i: int, j: int, radix: int)
    requires
        0 <= i <= j <= s.len(),
        forall|k: int| i <= k < j ==> digit_of(#[trigger] s[k]) < radix,
        j < s.len() ==> digit_of(s[j]) >= radix,
    ensures
        digits_end(s, i, radix) == j,
    decreases j - i,
{
    if i < j {
        assert(digit_of(s[i]) < radix);
        lemma_digits_run(s, i + 1, j, radix);
    }
}

proof fn lemma_numeral_read(s: Seq<u8>, i: int, v: int, radix: int)
    requires
        0 <= v,
        2 <= radix <= 16,
        0 <= i,
        i + numeral(v, radix).len() <= s.len(),
        s.subrange(i, i + numeral(v, radix).len()) == numeral(v, radix),
        i + numeral(v, radix).len() < s.len() ==> digit_of(s[(i + numeral(v, radix).len()) as int])
            >= radix,
    ensures
        digits_end(s, i, radix) == i + numeral(v, radix).len(),
        digits_value(s, i, i + numeral(v, radix).len(), radix) == v,
{
    let n = numeral(v, radix);
    let j = i + n.len();
    lemma_numeral(v, radix);
    assert forall|k: int| i <= k < j implies digit_of(#[trigger] s[k]) < radix by {
        assert(s[k] == s.subrange(i, j)[k - i]);
        assert(digit_of(n[k - i]) < radix);
    }
    lemma_digits_run(s, i, j, radix);
    lemma_numeral_value(s, i, v, radix);
}

/// A number in decimal digits, which something else follows, is read as its value modulo 2^64. Behind
/// a lone zero there must be no `x`.
pub proof fn law_decimal_number(v: int, rest: Seq<u8>)
    requires
        0 <= v,
        rest.len() > 0 ==> !(0x30 <= rest[0] <= 0x39),
        v == 0 && rest.len() > 0 ==> rest[0] != 0x78 && rest[0] != 0x58,
    ensures
        number_end(numeral(v, 10) + rest) == numeral(v, 10).len(),
        number_value(numeral(v, 10) + rest) == v % 0x1_0000_0000_0000_0000,
{
    let n = numeral(v, 10);
    let s = n + rest;
    lemma_numeral(v, 10);
    assert(s.subrange(0, n.len() as int) =~= n);
    assert(s[0] == n[0]);
    if n.len() < s.len() {
        assert(s[n.len() as int] == rest[0]);
    }
    if v > 0 {
        lemma_numeral_read(s, 0, v, 10);
    } else {
        assert(numeral(0, 8) =~= numeral(0, 10));
        lemma_numeral_read(s, 0, v, 8);
    }
}

/// A number in hexadecimal digits behind `0x` is read as its value modulo 2^64.
pub proof fn law_hexadecimal_number(v: int, x: u8, rest: Seq<u8>)
    requires
        0 <= v,
        x == 0x78 || x == 0x58,
        rest.len() > 0 ==> digit_of(rest[0]) == 16,
    ensures
        number_end(seq![DIGIT_0, x] + numeral(v, 16) + rest) == 2 + numeral(v, 16).len(),
        number_value(seq![DIGIT_0, x] + numeral(v, 16) + rest) == v % 0x1_0000_0000_0000_0000,
{
    let n = numeral(v, 16);
    let s = seq![DIGIT_0, x] + n + rest;
    lemma_numeral(v, 16);
    assert(s.subrange(2, 2 + n.len() as int) =~= n);
    assert(s[2] == n[0] && digit_of(n[0]) < 16);
    if 2 + n.len() < s.len() {
        assert(s[2 + n.len() as int] == rest[0]);
    }
    lemma_numeral_read(s, 2, v, 16);
}

/// A number in octal digits behind a `0` is read as its value modulo 2^64.
pub proof fn law_octal_number(v: int, rest: Seq<u8>)
    requires
        0 <= v,
        rest.len() > 0 ==> !(0x30 <= rest[0] <= 0x37),
    ensures
        number_end(seq![DIGIT_0] + numeral(v, 8) + rest) == 1 + numeral(v, 8).len(),
        number_value(seq![DIGIT_0] + numeral(v, 8) + rest) == v % 0x1_0000_0000_0000_0000,
{
    let n = numeral(v, 8);
    let s = seq![DIGIT_0] + n + rest;
    lemma_numeral(v, 8);
    assert(s.subrange(1, 1 + n.len() as int) =~= n);
    assert(s[1] == n[0] && digit_of(n[0]) < 8);
    if 1 + n.len() < s.len() {
        assert(s[1 + n.len() as int] == rest[0]);
    }
    lemma_numeral_read(s, 1, v, 8);
    assert(digits_end(s, 0, 8) == digits_end(s, 1, 8));
    lemma_leading_zero(s, 1 + n.len() as int);
}

proof fn lemma_leading_zero(s: Seq<u8>, j: int)
    requires
        1 <= j <= s.len(),
        s[0] == DIGIT_0,
    ensures
        digits_value(s, 0, j, 8) == digits_value(s, 1, j, 8),
    decreases j,
{
    if j > 1 {
        lemma_leading_zero(s, j - 1);
    } else {
        assert(digits_value(s, 0, 0, 8) == 0);
        assert(digits_value(s, 1, 1, 8) == 0);
    }
}

/// Where a text does not begin with a digit there is no number, and the value is 0.
pub proof fn law_no_number(s: Seq<u8>)
    requires
        s.len() > 0 ==> !(0x30 <= s[0] <= 0x39),
    ensures
        number_end(s) == 0,
        number_value(s) == 0,
{
}

/// A minus sign in front of a number negates it, modulo 2^64.
pub proof fn law_signed_number(s: Seq<u8>)
    ensures
        (signed_value(seq![HYPHEN] + s) + number_value(s)) % 0x1_0000_0000_0000_0000 == 0,
        s.len() == 0 || s[0] != HYPHEN ==> signed_value(s) == number_value(s),
{
    assert((seq![HYPHEN] + s).skip(1) =~= s);
}

/// Skipping white space passes over white space only, and over all of it.
pub proof fn law_spaces_are_skipped(s: Seq<u8>, i: int)
    requires
        0 <= i <= s.len(),
    ensures
        i <= spaces_end(s, i) <= s.len(),
        forall|k: int| i <= k < spaces_end(s, i) ==> is_space(#[trigger] s[k]),
        spaces_end(s, i) < s.len() ==> !is_space(s[spaces_end(s, i)]),
    decreases s.len() - i,
{
    if i < s.len() && is_space(s[i]) {
        law_spaces_are_skipped(s, i + 1);
    }
}

/// Reading a decimal number gives its value, modulo 2^64, and where it ends; with a minus sign it is
/// negated.
pub proof fn law_reading(s: &[u8], start: usize, r: (u64, usize), v: int, rest: Seq<u8>)
    requires
        start <= s@.len(),
        0 <= v,
        s@.skip(start as int) == numeral(v, 10) + rest,
        rest.len() > 0 ==> !(0x30 <= rest[0] <= 0x39),
        v == 0 && rest.len() > 0 ==> rest[0] != 0x78 && rest[0] != 0x58,
        call_ensures(simple_strtoull, (s, start), r),
    ensures
        r.0 == v % 0x1_0000_0000_0000_0000,
        r.1 == start + numeral(v, 10).len(),
{
    law_decimal_number(v, rest);
}

} // verus!
