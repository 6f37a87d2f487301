//! Character classes.
//!
//! The classes cover the ISO 8859-1 characters. They do not handle the end-of-file value that the
//! standard C library has to accept.

use vstd::prelude::*;

use crate::ascii::{DIGIT_0, DIGIT_9, LOWER_A, LOWER_Z, SPACE, UPPER_A, UPPER_Z};

verus! {

/// Upper case.
pub const _U: u8 = 0x01;

/// Lower case.
pub const _L: u8 = 0x02;

/// Digit.
pub const _D: u8 = 0x04;

/// Control character.
pub const _C: u8 = 0x08;

/// Punctuation.
pub const _P: u8 = 0x10;

/// White space: space, line feed, tab and the like.
pub const _S: u8 = 0x20;

/// The letters among the hexadecimal digits.
pub const _X: u8 = 0x40;

/// Hard space.
pub const _SP: u8 = 0x80;

pub open spec fn is_upper(c: u8) -> bool {
    UPPER_A <= c <= UPPER_Z || 192 <= c <= 222 && c != 215
}

pub open spec fn is_lower(c: u8) -> bool {
    LOWER_A <= c <= LOWER_Z || 223 <= c && c != 247
}

pub open spec fn is_digit(c: u8) -> bool {
    DIGIT_0 <= c <= DIGIT_9
}

pub open spec fn is_control(c: u8) -> bool {
    c < 32 || c == 127
}

pub open spec fn is_hard_space(c: u8) -> bool {
    c == SPACE || c == 160
}

pub open spec fn is_space(c: u8) -> bool {
    9 <= c <= 13 || is_hard_space(c)
}

pub open spec fn is_hex_letter(c: u8) -> bool {
    65 <= c <= 70 || 97 <= c <= 102
}

pub open spec fn is_punct(c: u8) -> bool {
    ||| 33 <= c <= 47
    ||| 58 <= c <= 64
    ||| 91 <= c <= 96
    ||| 123 <= c <= 126
    ||| 161 <= c <= 191
    ||| c == 215
    ||| c == 247
}

/// The classes of `c`, as a mask.
pub open spec fn class_mask(c: u8) -> u8 {
    (if is_upper(c) { _U } else { 0 }) | (if is_lower(c) { _L } else { 0 }) | (if is_digit(c) { _D } else {
        0
    }) | (if is_control(c) { _C } else { 0 }) | (if is_punct(c) { _P } else { 0 }) | (if is_space(c) {
        _S
    } else {
        0
    }) | (if is_hex_letter(c) { _X } else { 0 }) | (if is_hard_space(c) { _SP } else { 0 })
}

proof fn lemma_mask(c: u8, m: u8)
    by (bit_vector)
    requires
        m == class_mask(c),
    ensures
        (m & (_U | _L | _D) != 0) == (is_upper(c) || is_lower(c) || is_digit(c)),
        (m & (_U | _L) != 0) == (is_upper(c) || is_lower(c)),
        (m & (_C) != 0) == (is_control(c)),
        (m & (_P | _U | _L | _D) != 0) == (is_punct(c) || is_upper(c) || is_lower(c) || is_digit(c)),
        (m & (_L) != 0) == (is_lower(c)),
        (m & (_P | _U | _L | _D | _SP) != 0) == (is_punct(c) || is_upper(c) || is_lower(c) || is_digit(c) || is_hard_space(c)),
        (m & (_P) != 0) == (is_punct(c)),
        (m & (_S) != 0) == (is_space(c)),
        (m & (_U) != 0) == (is_upper(c)),
        (m & (_D | _X) != 0) == (is_digit(c) || is_hex_letter(c)),
{
}

/// The classes of `c`.
fn ismask(c: u8) -> (m: u8)
    ensures
        m == class_mask(c),
{
    let upper: u8 = if UPPER_A <= c && c <= UPPER_Z || 192 <= c && c <= 222 && c != 215 {
        _U
    } else {
        0
    };
    let lower: u8 = if LOWER_A <= c && c <= LOWER_Z || 223 <= c && c != 247 {
        _L
    } else {
        0
    };
    let digit: u8 = if DIGIT_0 <= c && c <= DIGIT_9 {
        _D
    } else {
        0
    };
    let control: u8 = if c < 32 || c == 127 {
        _C
    } else {
        0
    };
    let punct: u8 = if 33 <= c && c <= 47 || 58 <= c && c <= 64 || 91 <= c && c <= 96 || 123 <= c && c
        <= 126 || 161 <= c && c <= 191 || c == 215 || c == 247 {
        _P
    } else {
        0
    };
    let hard: u8 = if c == SPACE || c == 160 {
        _SP
    } else {
        0
    };
    let space: u8 = if 9 <= c && c <= 13 || hard != 0 {
        _S
    } else {
        0
    };
    let hex: u8 = if 65 <= c && c <= 70 || 97 <= c && c <= 102 {
        _X
    } else {
        0
    };
    upper | lower | digit | control | punct | space | hex | hard
}

/// The table of the classes of all characters.
pub fn ctype_table() -> (t: [u8; 256])
    ensures
        forall|c: u8| #![trigger class_mask(c)] t@[c as int] == class_mask(c),
{
    let mut t: [u8; 256] = [0;256];
    let mut i: usize = 0;
    while i < 256
        invariant
            i <= 256,
            forall|c: u8| #![trigger class_mask(c)] c < i ==> t@[c as int] == class_mask(c),
        decreases 256 - i,
    {
        t[i] = ismask(i as u8);
        i = i + 1;
    }
    t
}

/// Whether `c` is a letter or a digit.
pub fn isalnum(c: u8) -> (r: bool)
    ensures
        r == (is_upper(c) || is_lower(c) || is_digit(c)),
{
    let m = ismask(c);
    proof {
        lemma_mask(c, m);
    }
    m & (_U | _L | _D) != 0
}

/// Whether `c` is a letter.
pub fn isalpha(c: u8) -> (r: bool)
    ensures
        r == (is_upper(c) || is_lower(c)),
{
    let m = ismask(c);
    proof {
        lemma_mask(c, m);
    }
    m & (_U | _L) != 0
}

/// Whether `c` is a control character.
pub fn iscntrl(c: u8) -> (r: bool)
    ensures
        r == (is_control(c)),
{
    let m = ismask(c);
    proof {
        lemma_mask(c, m);
    }
    m & (_C) != 0
}

/// Whether `c` is visible.
pub fn isgraph(c: u8) -> (r: bool)
    ensures
        r == (is_punct(c) || is_upper(c) || is_lower(c) || is_digit(c)),
{
    let m = ismask(c);
    proof {
        lemma_mask(c, m);
    }
    m & (_P | _U | _L | _D) != 0
}

/// Whether `c` is a lower-case letter.
pub fn islower(c: u8) -> (r: bool)
    ensures
        r == (is_lower(c)),
{
    let m = ismask(c);
    proof {
        lemma_mask(c, m);
    }
    m & (_L) != 0
}

/// Whether `c` is printable.
pub fn isprint(c: u8) -> (r: bool)
    ensures
        r == (is_punct(c) || is_upper(c) || is_lower(c) || is_digit(c) || is_hard_space(c)),
{
    let m = ismask(c);
    proof {
        lemma_mask(c, m);
    }
    m & (_P | _U | _L | _D | _SP) != 0
}

/// Whether `c` is punctuation.
pub fn ispunct(c: u8) -> (r: bool)
    ensures
        r == (is_punct(c)),
{
    let m = ismask(c);
    proof {
        lemma_mask(c, m);
    }
    m & (_P) != 0
}

/// Whether `c` is white space, which NUL is not.
pub fn isspace(c: u8) -> (r: bool)
    ensures
        r == (is_space(c)),
{
    let m = ismask(c);
    proof {
        lemma_mask(c, m);
    }
    m & (_S) != 0
}

/// Whether `c` is an upper-case letter.
pub fn isupper(c: u8) -> (r: bool)
    ensures
        r == (is_upper(c)),
{
    let m = ismask(c);
    proof {
        lemma_mask(c, m);
    }
    m & (_U) != 0
}

/// Whether `c` is a hexadecimal digit.
pub fn isxdigit(c: u8) -> (r: bool)
    ensures
        r == (is_digit(c) || is_hex_letter(c)),
{
    let m = ismask(c);
    proof {
        lemma_mask(c, m);
    }
    m & (_D | _X) != 0
}

/// Whether `c` is in the ASCII range.
pub fn isascii(c: u8) -> (r: bool)
    ensures
        r == (c < 128),
{
    c <= 0x7f
}

/// The low seven bits of `c`.
pub fn toascii(c: u8) -> (r: u8)
    ensures
        r == c % 128,
{
    assert(c & 0x7f == c % 128) by (bit_vector);
    c & 0x7f
}

/// Whether `c` is a decimal digit.
pub fn isdigit(c: u8) -> (r: bool)
    ensures
        r == is_digit(c),
{
    DIGIT_0 <= c && c <= DIGIT_9
}

/// `c` in lower case.
pub open spec fn lower_of(c: u8) -> u8 {
    if is_upper(c) {
        (c + 32) as u8
    } else {
        c
    }
}

/// `c` in upper case.
pub open spec fn upper_of(c: u8) -> u8 {
    if is_lower(c) {
        (c - 32) as u8
    } else {
        c
    }
}

/// Converts an upper-case letter to lower case.
pub fn tolower(c: u8) -> (r: u8)
    ensures
        r == lower_of(c),
{
    if isupper(c) {
        c.wrapping_add(32)
    } else {
        c
    }
}

/// Converts a lower-case letter to upper case.
pub fn toupper(c: u8) -> (r: u8)
    ensures
        r == upper_of(c),
{
    if islower(c) {
        c.wrapping_sub(32)
    } else {
        c
    }
}

/// Sets the bit that tells lower case from upper case. This is a lower-case conversion for
/// characters that are known to be letters.
pub fn _tolower(c: u8) -> (r: u8)
    ensures
        r == c | 0x20,
        UPPER_A <= c <= UPPER_Z ==> r == c + 32,
        LOWER_A <= c <= LOWER_Z ==> r == c,
{
    assert((65 <= c <= 90 ==> c | 0x20 == c + 32) && (97 <= c <= 122 ==> c | 0x20 == c)) by (bit_vector);
    c | 0x20
}

/// Whether `c` is an octal digit.
pub fn isodigit(c: u8) -> (r: bool)
    ensures
        r == (DIGIT_0 <= c < DIGIT_0 + 8),
{
    DIGIT_0 <= c && c <= 0x37
}

/// No white space is NUL, so scanning for white space stops at the end of a string.
pub proof fn law_space_is_not_nul(c: u8)
    requires
        is_space(c),
    ensures
        c != 0,
{
}

/// An upper-case letter has a lower-case one, whose upper case it is.
pub proof fn law_case_of_upper_letter_round_trips(c: u8)
    requires
        is_upper(c),
    ensures
        is_lower(lower_of(c)),
        upper_of(lower_of(c)) == c,
{
}

/// What is in lower case already stays as it is.
pub proof fn law_tolower_is_idempotent(c: u8)
    ensures
        lower_of(lower_of(c)) == lower_of(c),
        !is_upper(lower_of(c)),
{
}

/// Letters, digits, punctuation, control characters and hard spaces do not overlap.
pub proof fn law_classes_are_disjoint(c: u8)
    ensures
        !(is_upper(c) && is_lower(c)),
        (is_upper(c) || is_lower(c)) ==> !is_digit(c) && !is_punct(c) && !is_control(c) && !is_space(c),
        is_digit(c) ==> !is_punct(c) && !is_control(c) && !is_space(c),
        is_punct(c) ==> !is_control(c) && !is_space(c),
        is_hard_space(c) ==> is_space(c) && !is_control(c),
{
}

/// The table of classes, run by run.
pub proof fn law_table(c: u8)
    ensures
        c <= 8 || 14 <= c <= 31 || c == 127 ==> class_mask(c) == 0x08,
        9 <= c <= 13 ==> class_mask(c) == 0x28,
        c == 32 || c == 160 ==> class_mask(c) == 0xa0,
        33 <= c <= 47 || 58 <= c <= 64 || 91 <= c <= 96 || 123 <= c <= 126 ==> class_mask(c) == 0x10,
        48 <= c <= 57 ==> class_mask(c) == 0x04,
        65 <= c <= 70 ==> class_mask(c) == 0x41,
        71 <= c <= 90 ==> class_mask(c) == 0x01,
        97 <= c <= 102 ==> class_mask(c) == 0x42,
        103 <= c <= 122 ==> class_mask(c) == 0x02,
        128 <= c <= 159 ==> class_mask(c) == 0,
        161 <= c <= 191 || c == 215 || c == 247 ==> class_mask(c) == 0x10,
        192 <= c <= 214 || 216 <= c <= 222 ==> class_mask(c) == 0x01,
        223 <= c <= 246 || 248 <= c ==> class_mask(c) == 0x02,
{
    let m = class_mask(c);
    lemma_runs(c, m);
}

proof fn lemma_runs(c: u8, m: u8)
    by (bit_vector)
    requires
        m == class_mask(c),
    ensures
        c <= 8 || 14 <= c && c <= 31 || c == 127 ==> m == 0x08,
        9 <= c && c <= 13 ==> m == 0x28,
        c == 32 || c == 160 ==> m == 0xa0,
        33 <= c && c <= 47 || 58 <= c && c <= 64 || 91 <= c && c <= 96 || 123 <= c && c <= 126 ==> m
            == 0x10,
        48 <= c && c <= 57 ==> m == 0x04,
        65 <= c && c <= 70 ==> m == 0x41,
        71 <= c && c <= 90 ==> m == 0x01,
        97 <= c && c <= 102 ==> m == 0x42,
        103 <= c && c <= 122 ==> m == 0x02,
        128 <= c && c <= 159 ==> m == 0,
        161 <= c && c <= 191 || c == 215 || c == 247 ==> m == 0x10,
        192 <= c && c <= 214 || 216 <= c && c <= 222 ==> m == 0x01,
        223 <= c && c <= 246 || 248 <= c ==> m == 0x02,
{
}

/// A character is in a class exactly if the table has the bit of the class for it.
pub proof fn law_classes_are_those_of_the_table(c: u8)
    ensures
        is_upper(c) <==> class_mask(c) & 0x01 != 0,
        is_lower(c) <==> class_mask(c) & 0x02 != 0,
        is_digit(c) <==> class_mask(c) & 0x04 != 0,
        is_control(c) <==> class_mask(c) & 0x08 != 0,
        is_punct(c) <==> class_mask(c) & 0x10 != 0,
        is_space(c) <==> class_mask(c) & 0x20 != 0,
        is_hex_letter(c) <==> class_mask(c) & 0x40 != 0,
        is_hard_space(c) <==> class_mask(c) & 0x80 != 0,
{
    let m = class_mask(c);
    lemma_class_bits(c, m);
}

proof fn lemma_class_bits(c: u8, m: u8)
    by (bit_vector)
    requires
        m == class_mask(c),
    ensures
        is_upper(c) == (m & 0x01 != 0),
        is_lower(c) == (m & 0x02 != 0),
        is_digit(c) == (m & 0x04 != 0),
        is_control(c) == (m & 0x08 != 0),
        is_punct(c) == (m & 0x10 != 0),
        is_space(c) == (m & 0x20 != 0),
        is_hex_letter(c) == (m & 0x40 != 0),
        is_hard_space(c) == (m & 0x80 != 0),
{
}

/// Changing case moves a letter by 32, and leaves everything else as it is.
pub proof fn law_case_is_a_shift(c: u8)
    ensures
        65 <= c <= 90 ==> lower_of(c) == c + 32,
        192 <= c <= 222 && c != 215 ==> lower_of(c) == c + 32,
        !(65 <= c <= 90 || 192 <= c <= 222 && c != 215) ==> lower_of(c) == c,
        97 <= c <= 122 ==> upper_of(c) == c - 32,
        223 <= c && c != 247 ==> upper_of(c) == c - 32,
        !(97 <= c <= 122 || 223 <= c && c != 247) ==> upper_of(c) == c,
{
}

/// What the tests of characters say, as ranges of characters.
pub proof fn law_tests(c: u8, alnum: bool, alpha: bool, cntrl: bool, graph: bool, print: bool, punct: bool, space: bool, xdigit: bool, digit: bool)
    requires
        call_ensures(isalnum, (c,), alnum),
        call_ensures(isalpha, (c,), alpha),
        call_ensures(iscntrl, (c,), cntrl),
        call_ensures(isgraph, (c,), graph),
        call_ensures(isprint, (c,), print),
        call_ensures(ispunct, (c,), punct),
        call_ensures(isspace, (c,), space),
        call_ensures(isxdigit, (c,), xdigit),
        call_ensures(isdigit, (c,), digit),
    ensures
        digit == (48 <= c <= 57),
        alpha == (65 <= c <= 90 || 97 <= c <= 122 || 192 <= c && c != 215 && c != 247),
        alnum == (alpha || digit),
        cntrl == (c <= 31 || c == 127),
        space == (9 <= c <= 13 || c == 32 || c == 160),
        xdigit == (digit || 65 <= c <= 70 || 97 <= c <= 102),
        graph == (alnum || punct),
        print == (graph || c == 32 || c == 160),
        !(alnum && punct) && !(cntrl && print),
        c < 128 ==> cntrl != print,
        128 <= c < 160 ==> !cntrl && !print,
{
}

/// Changing the case of a letter tells it from no other: an upper-case letter comes back from its lower
/// case, and the two tests of case tell them apart.
pub proof fn law_changing_case(c: u8, upper: bool, l: u8, lower: bool, u: u8)
    requires
        call_ensures(isupper, (c,), upper),
        call_ensures(tolower, (c,), l),
        call_ensures(islower, (l,), lower),
        call_ensures(toupper, (l,), u),
    ensures
        upper ==> lower && u == c && l == c + 32,
        !upper ==> l == c,
        upper == (65 <= c <= 90 || 192 <= c <= 222 && c != 215),
{
}

} // verus!
