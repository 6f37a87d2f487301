//! Base64 in several variants.

use vstd::prelude::*;

use crate::ascii::{
    COMMA, DIGIT_0, DIGIT_9, EQUALS, HYPHEN, LOWER_A, LOWER_Z, PLUS, SLASH, UNDERSCORE, UPPER_A,
    UPPER_Z,
};

verus! {

/// Which characters stand for the digits 62 and 63.
#[derive(Clone, Copy, PartialEq, Eq, Structural)]
pub enum Base64Variant {
    /// `+` and `/`.
    Standard,
    /// `-` and `_`, safe in a URL.
    UrlSafe,
    /// `+` and `,`, as in IMAP mailbox names.
    Imap,
}

pub open spec fn char_62(variant: Base64Variant) -> u8 {
    if variant == Base64Variant::UrlSafe {
        HYPHEN
    } else {
        PLUS
    }
}

pub open spec fn char_63(variant: Base64Variant) -> u8 {
    match variant {
        Base64Variant::Standard => SLASH,
        Base64Variant::UrlSafe => UNDERSCORE,
        Base64Variant::Imap => COMMA,
    }
}

/// The character for the digit `d`, which is less than 64.
#[verifier::opaque]
pub open spec fn digit_char(d: int, variant: Base64Variant) -> u8 {
    if d < 26 {
        (UPPER_A + d) as u8
    } else if d < 52 {
        (LOWER_A + d - 26) as u8
    } else if d < 62 {
        (DIGIT_0 + d - 52) as u8
    } else if d == 62 {
        char_62(variant)
    } else {
        char_63(variant)
    }
}

/// The digit that the character `c` stands for, or -1.
#[verifier::opaque]
pub open spec fn digit_value(c: u8, variant: Base64Variant) -> int {
    if UPPER_A <= c <= UPPER_Z {
        c - UPPER_A
    } else if LOWER_A <= c <= LOWER_Z {
        c - LOWER_A + 26
    } else if DIGIT_0 <= c <= DIGIT_9 {
        c - DIGIT_0 + 52
    } else if c == char_62(variant) {
        62
    } else if c == char_63(variant) {
        63
    } else {
        -1
    }
}

/// The four digits of a group of three bytes.
pub open spec fn group_chars(a: u8, b: u8, c: u8, variant: Base64Variant) -> Seq<u8> {
    seq![
        digit_char(a as int / 4, variant),
        digit_char((a as int % 4) * 16 + b as int / 16, variant),
        digit_char((b as int % 16) * 4 + c as int / 64, variant),
        digit_char(c as int % 64, variant),
    ]
}

/// The last, incomplete group of one or two bytes: its digits, filled up with equals signs if asked
/// for.
pub open spec fn last_chars(src: Seq<u8>, padding: bool, variant: Base64Variant) -> Seq<u8> {
    if src.len() == 2 {
        group_chars(src[0], src[1], 0, variant).take(3) + (if padding {
            seq![EQUALS]
        } else {
            seq![]
        })
    } else if src.len() == 1 {
        group_chars(src[0], 0, 0, variant).take(2) + (if padding {
            seq![EQUALS, EQUALS]
        } else {
            seq![]
        })
    } else {
        seq![]
    }
}

/// The base64 form of `src`.
pub open spec fn encoded(src: Seq<u8>, padding: bool, variant: Base64Variant) -> Seq<u8>
    decreases src.len(),
{
    if src.len() >= 3 {
        group_chars(src[0], src[1], src[2], variant) + encoded(src.skip(3), padding, variant)
    } else {
        last_chars(src, padding, variant)
    }
}

/// The number of characters that the base64 form of `n` bytes takes.
pub open spec fn encoded_len(n: int, padding: bool) -> int {
    (n / 3) * 4 + (if n % 3 == 0 {
        0
    } else if padding {
        4
    } else {
        n % 3 + 1
    })
}

/// Whether `src` begins with four base64 digits.
pub open spec fn group_ok(src: Seq<u8>, variant: Base64Variant) -> bool {
    &&& src.len() >= 4
    &&& digit_value(src[0], variant) >= 0
    &&& digit_value(src[1], variant) >= 0
    &&& digit_value(src[2], variant) >= 0
    &&& digit_value(src[3], variant) >= 0
}

/// The three bytes that four digits stand for.
pub open spec fn group_bytes(src: Seq<u8>, variant: Base64Variant) -> Seq<u8> {
    let (p, q, r, s) = (
        digit_value(src[0], variant),
        digit_value(src[1], variant),
        digit_value(src[2], variant),
        digit_value(src[3], variant),
    );
    seq![(p * 4 + q / 16) as u8, ((q % 16) * 16 + r / 4) as u8, ((r % 4) * 64 + s) as u8]
}

/// What a last group of digits without padding stands for: two digits for one byte, three for two,
/// with nothing left over.
pub open spec fn last_bytes(src: Seq<u8>, variant: Base64Variant) -> Option<Seq<u8>> {
    let p = digit_value(src[0], variant);
    let q = digit_value(src[1], variant);
    if src.len() == 2 {
        if p >= 0 && q >= 0 && q % 16 == 0 {
            Some(seq![(p * 4 + q / 16) as u8])
        } else {
            None
        }
    } else if src.len() == 3 {
        let r = digit_value(src[2], variant);
        if p >= 0 && q >= 0 && r >= 0 && r % 4 == 0 {
            Some(seq![(p * 4 + q / 16) as u8, ((q % 16) * 16 + r / 4) as u8])
        } else {
            None
        }
    } else {
        None
    }
}

/// What follows the groups of four digits stands for.
pub open spec fn rest_bytes(src: Seq<u8>, padding: bool, variant: Base64Variant) -> Option<Seq<u8>> {
    if src.len() == 0 {
        Some(seq![])
    } else if padding {
        if src.len() == 4 && src[3] == EQUALS {
            last_bytes(src.take(if src[2] == EQUALS {
                2
            } else {
                3
            }), variant)
        } else {
            None
        }
    } else {
        last_bytes(src, variant)
    }
}

/// How many characters of `src` are in groups of four digits.
pub open spec fn groups_len(src: Seq<u8>, variant: Base64Variant) -> int
    decreases src.len(),
{
    if group_ok(src, variant) {
        4 + groups_len(src.skip(4), variant)
    } else {
        0
    }
}

/// The bytes that the leading groups of four digits of `src` stand for.
pub open spec fn groups_bytes(src: Seq<u8>, variant: Base64Variant) -> Seq<u8>
    decreases src.len(),
{
    if group_ok(src, variant) {
        group_bytes(src, variant) + groups_bytes(src.skip(4), variant)
    } else {
        seq![]
    }
}

/// The bytes whose base64 form is `src`, or `None` if it is not a base64 form.
pub open spec fn decoded(src: Seq<u8>, padding: bool, variant: Base64Variant) -> Option<Seq<u8>> {
    match rest_bytes(src.skip(groups_len(src, variant)), padding, variant) {
        Some(rest) => Some(groups_bytes(src, variant) + rest),
        None => None,
    }
}

proof fn lemma_digit(d: int, variant: Base64Variant)
    requires
        0 <= d < 64,
    ensures
        digit_value(digit_char(d, variant), variant) == d,
        digit_char(d, variant) != EQUALS,
{
    reveal(digit_char);
    reveal(digit_value);
}

/// Four digits stand for the three bytes that they came from.
proof fn lemma_group(a: u8, b: u8, c: u8, variant: Base64Variant)
    ensures
        forall|i: int| 0 <= i < 4 ==> digit_value(#[trigger] group_chars(a, b, c, variant)[i], variant) >= 0,
        digit_value(group_chars(a, b, c, variant)[0], variant) == a as int / 4,
        digit_value(group_chars(a, b, c, variant)[1], variant) == (a as int % 4) * 16 + b as int / 16,
        digit_value(group_chars(a, b, c, variant)[2], variant) == (b as int % 16) * 4 + c as int / 64,
        digit_value(group_chars(a, b, c, variant)[3], variant) == c as int % 64,
{
    lemma_digit(a as int / 4, variant);
    lemma_digit((a as int % 4) * 16 + b as int / 16, variant);
    lemma_digit((b as int % 16) * 4 + c as int / 64, variant);
    lemma_digit(c as int % 64, variant);
}

proof fn lemma_value(c: u8, variant: Base64Variant)
    ensures
        -1 <= digit_value(c, variant) < 64,
        digit_value(c, variant) >= 0 ==> digit_char(digit_value(c, variant), variant) == c,
        c == EQUALS ==> digit_value(c, variant) == -1,
{
    reveal(digit_char);
    reveal(digit_value);
}

proof fn lemma_encoded_len(src: Seq<u8>, padding: bool, variant: Base64Variant)
    ensures
        encoded(src, padding, variant).len() == encoded_len(src.len() as int, padding),
    decreases src.len(),
{
    if src.len() >= 3 {
        lemma_encoded_len(src.skip(3), padding, variant);
    }
}

proof fn lemma_groups_len(src: Seq<u8>, variant: Base64Variant)
    ensures
        0 <= groups_len(src, variant) <= src.len(),
        groups_len(src, variant) % 4 == 0,
        groups_bytes(src, variant).len() == groups_len(src, variant) / 4 * 3,
        !group_ok(src.skip(groups_len(src, variant)), variant),
    decreases src.len(),
{
    if group_ok(src, variant) {
        lemma_groups_len(src.skip(4), variant);
        assert(src.skip(groups_len(src, variant)) =~= src.skip(4).skip(
            groups_len(src.skip(4), variant),
        ));
    } else {
        assert(src.skip(0) =~= src);
    }
}

/// Decoding a string group by group.
proof fn lemma_decoded_step(src: Seq<u8>, padding: bool, variant: Base64Variant)
    ensures
        group_ok(src, variant) ==> decoded(src, padding, variant) == (match decoded(
            src.skip(4),
            padding,
            variant,
        ) {
            Some(rest) => Some(group_bytes(src, variant) + rest),
            None => None,
        }),
        !group_ok(src, variant) ==> decoded(src, padding, variant) == rest_bytes(
            src,
            padding,
            variant,
        ),
{
    if group_ok(src, variant) {
        let t = src.skip(4);
        lemma_groups_len(t, variant);
        assert(src.skip(groups_len(src, variant)) =~= t.skip(groups_len(t, variant)));
        if let Some(rest) = rest_bytes(t.skip(groups_len(t, variant)), padding, variant) {
            assert(groups_bytes(src, variant) + rest =~= group_bytes(src, variant) + (groups_bytes(
                t,
                variant,
            ) + rest));
        }
    } else {
        assert(src.skip(0) =~= src);
        if let Some(rest) = rest_bytes(src, padding, variant) {
            assert(Seq::<u8>::empty() + rest =~= rest);
        }
    }
}

/// What was encoded can be decoded again.
pub proof fn law_decode_undoes_encode(src: Seq<u8>, padding: bool, variant: Base64Variant)
    ensures
        decoded(encoded(src, padding, variant), padding, variant) == Some(src),
    decreases src.len(),
{
    let e = encoded(src, padding, variant);
    lemma_decoded_step(e, padding, variant);
    lemma_value(EQUALS, variant);
    if src.len() >= 3 {
        let g = group_chars(src[0], src[1], src[2], variant);
        lemma_group(src[0], src[1], src[2], variant);
        assert(e.skip(4) =~= encoded(src.skip(3), padding, variant));
        assert(e[0] == g[0] && e[1] == g[1] && e[2] == g[2] && e[3] == g[3]);
        law_decode_undoes_encode(src.skip(3), padding, variant);
        assert(group_bytes(e, variant) =~= seq![src[0], src[1], src[2]]);
        assert(group_bytes(e, variant) + src.skip(3) =~= src);
    } else if src.len() > 0 {
        lemma_last(src, padding, variant);
    } else {
        assert(e =~= Seq::<u8>::empty());
        assert(src =~= Seq::<u8>::empty());
    }
}

/// The last group can be decoded again.
proof fn lemma_last(src: Seq<u8>, padding: bool, variant: Base64Variant)
    requires
        1 <= src.len() <= 2,
    ensures
        rest_bytes(last_chars(src, padding, variant), padding, variant) == Some(src),
        !group_ok(last_chars(src, padding, variant), variant),
{
    let e = last_chars(src, padding, variant);
    let n = src.len() as int;
    let g = group_chars(src[0], if n == 2 {
        src[1]
    } else {
        0
    }, 0, variant);
    lemma_group(src[0], if n == 2 {
        src[1]
    } else {
        0
    }, 0, variant);
    lemma_value(EQUALS, variant);
    assert(e.take(n + 1) =~= g.take(n + 1));
    assert(g.take(n + 1)[0] == g[0] && g.take(n + 1)[1] == g[1]);
    assert(digit_value(g[n], variant) >= 0);
    assert(e[n] == g[n]);
    assert(!padding ==> e.take(n + 1) =~= e);
    let l = last_bytes(g.take(n + 1), variant);
    if n == 2 {
        assert(g.take(3)[2] == g[2]);
        assert(l == Some(seq![src[0], src[1]]));
        assert(seq![src[0], src[1]] =~= src);
    } else {
        assert(l == Some(seq![src[0]]));
        assert(seq![src[0]] =~= src);
    }
}

/// Only the base64 form itself is accepted: what can be decoded is what encoding the result gives.
pub proof fn law_encode_undoes_decode(src: Seq<u8>, padding: bool, variant: Base64Variant)
    ensures
        decoded(src, padding, variant) matches Some(d) ==> encoded(d, padding, variant) == src,
    decreases src.len(),
{
    lemma_decoded_step(src, padding, variant);
    if group_ok(src, variant) {
        law_encode_undoes_decode(src.skip(4), padding, variant);
        if let Some(d) = decoded(src.skip(4), padding, variant) {
            let all = group_bytes(src, variant) + d;
            assert(all.skip(3) =~= d);
            let g = group_chars(all[0], all[1], all[2], variant);
            lemma_digits_back(src[0], src[1], src[2], src[3], variant);
            assert(g =~= src.take(4));
            assert(encoded(all, padding, variant) =~= src);
        }
    } else if let Some(d) = rest_bytes(src, padding, variant) {
        if src.len() == 0 {
            assert(src =~= Seq::<u8>::empty());
            assert(encoded(d, padding, variant) =~= src);
        } else {
            lemma_last_back(src, padding, variant);
        }
    }
}

/// The digits of a group come back from its bytes.
proof fn lemma_digits_back(a: u8, b: u8, c: u8, d: u8, variant: Base64Variant)
    requires
        digit_value(a, variant) >= 0,
        digit_value(b, variant) >= 0,
    ensures
        ({
            let (p, q, r, s) = (
                digit_value(a, variant),
                digit_value(b, variant),
                digit_value(c, variant),
                digit_value(d, variant),
            );
            let (x, y, z) = (
                (p * 4 + q / 16) as u8,
                ((q % 16) * 16 + r / 4) as u8,
                ((r % 4) * 64 + s) as u8,
            );
            &&& r >= 0 && s >= 0 ==> group_chars(x, y, z, variant) == seq![a, b, c, d]
            &&& r >= 0 && r % 4 == 0 ==> group_chars(x, y, 0, variant).take(3) == seq![a, b, c]
            &&& q % 16 == 0 ==> group_chars(x, 0, 0, variant).take(2) == seq![a, b]
        }),
{
    lemma_value(a, variant);
    lemma_value(b, variant);
    lemma_value(c, variant);
    lemma_value(d, variant);
    let (p, q, r, s) = (
        digit_value(a, variant),
        digit_value(b, variant),
        digit_value(c, variant),
        digit_value(d, variant),
    );
    let (x, y, z) = ((p * 4 + q / 16) as u8, ((q % 16) * 16 + r / 4) as u8, ((r % 4) * 64 + s) as u8);
    assert(x as int / 4 == p && x as int % 4 == q / 16);
    if q % 16 == 0 {
        assert(group_chars(x, 0, 0, variant).take(2) =~= seq![a, b]);
    }
    if r >= 0 {
        assert(y as int / 16 == q % 16 && y as int % 16 == r / 4);
        assert(group_chars(x, y, 0, variant)[0] == a);
        assert(group_chars(x, y, 0, variant)[1] == b);
        if r % 4 == 0 {
            assert(group_chars(x, y, 0, variant)[2] == c);
            assert(group_chars(x, y, 0, variant).take(3) =~= seq![a, b, c]);
        }
        if s >= 0 {
            assert(z as int / 64 == r % 4 && z as int % 64 == s);
            assert(group_chars(x, y, z, variant) =~= seq![a, b, c, d]);
        }
    }
}

/// The last group comes back from its bytes.
proof fn lemma_last_back(src: Seq<u8>, padding: bool, variant: Base64Variant)
    requires
        src.len() > 0,
        rest_bytes(src, padding, variant) is Some,
    ensures
        last_chars(rest_bytes(src, padding, variant)->0, padding, variant) == src,
        1 <= rest_bytes(src, padding, variant)->0.len() <= 2,
{
    let d = rest_bytes(src, padding, variant)->0;
    lemma_digits_back(src[0], src[1], src[2], 0, variant);
    if d.len() == 1 {
        assert(last_chars(d, padding, variant) =~= src);
    } else {
        assert(last_chars(d, padding, variant) =~= src);
    }
}

/// The character for a digit.
fn to_char(d: u8, variant: Base64Variant) -> (c: u8)
    requires
        d < 64,
    ensures
        c == digit_char(d as int, variant),
{
    proof {
        reveal(digit_char);
    }
    if d < 26 {
        UPPER_A + d
    } else if d < 52 {
        LOWER_A + (d - 26)
    } else if d < 62 {
        DIGIT_0 + (d - 52)
    } else {
        match variant {
            Base64Variant::Standard => if d == 62 {
                PLUS
            } else {
                SLASH
            },
            Base64Variant::UrlSafe => if d == 62 {
                HYPHEN
            } else {
                UNDERSCORE
            },
            Base64Variant::Imap => if d == 62 {
                PLUS
            } else {
                COMMA
            },
        }
    }
}

/// The digit that a character stands for, or -1.
fn reverse(value: u8, variant: Base64Variant) -> (d: i32)
    ensures
        d == digit_value(value, variant),
        -1 <= d < 64,
{
    proof {
        reveal(digit_value);
    }
    let (ch_62, ch_63) = match variant {
        Base64Variant::Standard => (PLUS, SLASH),
        Base64Variant::UrlSafe => (HYPHEN, UNDERSCORE),
        Base64Variant::Imap => (PLUS, COMMA),
    };
    if UPPER_A <= value && value <= UPPER_Z {
        (value - UPPER_A) as i32
    } else if LOWER_A <= value && value <= LOWER_Z {
        (value - LOWER_A) as i32 + 26
    } else if DIGIT_0 <= value && value <= DIGIT_9 {
        (value - DIGIT_0) as i32 + 52
    } else if value == ch_62 {
        62
    } else if value == ch_63 {
        63
    } else {
        -1
    }
}

/// Base64-encodes `src` into the beginning of `dst`, in the requested variant. Returns the number of
/// characters written.
pub fn base64_encode(src: &[u8], dst: &mut [u8], padding: bool, variant: Base64Variant) -> (n: i32)
    requires
        encoded_len(src@.len() as int, padding) <= old(dst)@.len(),
        encoded_len(src@.len() as int, padding) <= i32::MAX,
    ensures
        n == encoded(src@, padding, variant).len(),
        n == encoded_len(src@.len() as int, padding),
        final(dst)@ == encoded(src@, padding, variant) + old(dst)@.skip(n as int),
{
    let ghost d0 = dst@;
    let _room: usize = dst.len();
    let ghost mut done: Seq<u8> = seq![];
    let mut i: usize = 0;
    let mut o: usize = 0;
    proof {
        lemma_encoded_len(src@, padding, variant);
        assert(src@.skip(0) =~= src@);
        assert(done + encoded(src@.skip(0), padding, variant) =~= encoded(src@, padding, variant));
        assert(dst@ =~= done + d0.skip(0));
    }
    while src.len() - i >= 3
        invariant
            i <= src@.len(),
            o == done.len(),
            o == i / 3 * 4,
            i % 3 == 0,
            dst@ == done + d0.skip(o as int),
            encoded(src@, padding, variant).len() <= d0.len() <= usize::MAX,
            encoded(src@, padding, variant) == done + encoded(
                src@.skip(i as int),
                padding,
                variant,
            ),
        decreases src@.len() - i,
    {
        let ghost before = done;
        let ghost rest = src@.skip(i as int);
        let (a, b, c) = (src[i], src[i + 1], src[i + 2]);
        assert(encoded(rest, padding, variant) == group_chars(a, b, c, variant) + encoded(
            rest.skip(3),
            padding,
            variant,
        ));
        dst[o] = to_char(a / 4, variant);
        dst[o + 1] = to_char((a % 4) * 16 + b / 16, variant);
        dst[o + 2] = to_char((b % 16) * 4 + c / 64, variant);
        dst[o + 3] = to_char(c % 64, variant);
        i = i + 3;
        o = o + 4;
        proof {
            done = before + group_chars(a, b, c, variant);
            assert(dst@ =~= done + d0.skip(o as int));
            assert(rest.skip(3) =~= src@.skip(i as int));
            assert(encoded(src@, padding, variant) =~= done + encoded(
                src@.skip(i as int),
                padding,
                variant,
            ));
        }
    }
    let ghost rest = src@.skip(i as int);
    assert(encoded(rest, padding, variant) == last_chars(rest, padding, variant));
    let ghost d1 = dst@;
    let end: usize = encode_last(src, i, dst, o, padding, variant);
    assert(dst@ =~= encoded(src@, padding, variant) + d0.skip(end as int)) by {
        assert(d1.take(o as int) =~= done);
        assert(d1.skip(end as int) =~= d0.skip(end as int));
    }
    end as i32
}

/// Encodes the last, incomplete group of `src`, which starts at `i`, at the position `o` of `dst`.
/// Returns where the output ends.
fn encode_last(
    src: &[u8],
    i: usize,
    dst: &mut [u8],
    o: usize,
    padding: bool,
    variant: Base64Variant,
) -> (end: usize)
    requires
        i <= src@.len() < i + 3,
        o + last_chars(src@.skip(i as int), padding, variant).len() <= old(dst)@.len(),
    ensures
        end == o + last_chars(src@.skip(i as int), padding, variant).len(),
        final(dst)@ == old(dst)@.take(o as int) + last_chars(
            src@.skip(i as int),
            padding,
            variant,
        ) + old(dst)@.skip(end as int),
{
    let ghost rest = src@.skip(i as int);
    let ghost d0 = dst@;
    let _room: usize = dst.len();
    let left: usize = src.len() - i;
    if left == 0 {
        assert(dst@ =~= d0.take(o as int) + Seq::<u8>::empty() + d0.skip(o as int));
        return o;
    }
    let a = src[i];
    assert(rest[0] == a);
    let b: u8 = if left == 2 {
        src[i + 1]
    } else {
        0
    };
    let ghost g = group_chars(a, b, 0, variant);
    dst[o] = to_char(a / 4, variant);
    dst[o + 1] = to_char((a % 4) * 16 + b / 16, variant);
    let mut end: usize = o + 2;
    if left == 2 {
        dst[end] = to_char((b % 16) * 4, variant);
        end = end + 1;
    }
    if padding {
        dst[end] = EQUALS;
        end = end + 1;
        if left == 1 {
            dst[end] = EQUALS;
            end = end + 1;
        }
    }
    proof {
        let l = last_chars(rest, padding, variant);
        assert(l[0] == g[0] && l[1] == g[1]);
        assert(left == 2 ==> l[2] == g[2]);
        assert(dst@ =~= d0.take(o as int) + l + d0.skip(end as int));
    }
    end
}

/// Base64-decodes `src` into the beginning of `dst`, in the requested variant. Returns the number of
/// bytes written, or -1 if `src` is not a base64 form; the groups before the offending one have been
/// written then.
pub fn base64_decode(src: &[u8], dst: &mut [u8], padding: bool, variant: Base64Variant) -> (n: i32)
    requires
        match decoded(src@, padding, variant) {
            Some(d) => d.len() <= old(dst)@.len(),
            None => groups_bytes(src@, variant).len() <= old(dst)@.len(),
        },
        src@.len() <= i32::MAX,
    ensures
        match decoded(src@, padding, variant) {
            Some(d) => {
                &&& n == d.len()
                &&& final(dst)@ == d + old(dst)@.skip(n as int)
            },
            None => {
                &&& n == -1
                &&& final(dst)@ == groups_bytes(src@, variant) + old(dst)@.skip(
                    groups_bytes(src@, variant).len() as int,
                )
            },
        },
{
    let ghost d0 = dst@;
    let _room: usize = dst.len();
    let ghost mut done: Seq<u8> = seq![];
    let mut i: usize = 0;
    let mut o: usize = 0;
    proof {
        lemma_groups_len(src@, variant);
        assert(src@.skip(0) =~= src@);
        assert(done + groups_bytes(src@.skip(0), variant) =~= groups_bytes(src@, variant));
        assert(dst@ =~= done + d0.skip(0));
    }
    let mut left: usize = src.len();
    let mut padded: bool = padding;
    while left >= 4
        invariant_except_break
            left + i == src@.len(),
            padded == padding,
        invariant
            i <= src@.len(),
            o == done.len(),
            o == i / 4 * 3,
            i % 4 == 0,
            src@.len() <= i32::MAX,
            groups_bytes(src@, variant).len() <= d0.len() <= usize::MAX,
            d0 == old(dst)@,
            dst@ == done + d0.skip(o as int),
            groups_len(src@, variant) == i + groups_len(src@.skip(i as int), variant),
            groups_bytes(src@, variant) == done + groups_bytes(src@.skip(i as int), variant),
        ensures
            groups_len(src@, variant) == i,
            groups_bytes(src@, variant) == done,
            ({
                let rest = src@.skip(i as int);
                if padded == padding && left == rest.len() {
                    left < 4
                } else {
                    &&& padding
                    &&& !padded
                    &&& rest.len() == 4
                    &&& rest[3] == EQUALS
                    &&& left == (if rest[2] == EQUALS {
                        2int
                    } else {
                        3
                    })
                }
            }),
        decreases left,
    {
        let ghost rest = src@.skip(i as int);
        let ghost before = done;
        let ghost d1 = dst@;
        if !decode_group(src, i, dst, o, variant) {
            proof {
                assert(groups_len(src@, variant) == i);
                assert(groups_bytes(src@, variant) =~= done);
            }
            if !padded || left != 4 || src[i + 3] != EQUALS {
                return -1;
            }
            padded = false;
            left = if src[i + 2] == EQUALS {
                2
            } else {
                3
            };
            break ;
        }
        o = o + 3;
        i = i + 4;
        left = left - 4;
        proof {
            done = before + group_bytes(rest, variant);
            assert(d1.take(before.len() as int) =~= before);
            assert(rest.skip(4) =~= src@.skip(i as int));
            assert(dst@ =~= done + d0.skip(o as int));
            assert(groups_bytes(src@, variant) =~= done + groups_bytes(src@.skip(i as int), variant));
            if left < 4 {
                assert(done + Seq::<u8>::empty() =~= done);
            }
        }
    }
    let ghost rest = src@.skip(i as int);
    let ghost digits = rest.take(left as int);
    if left == 0 {
        assert(done + Seq::<u8>::empty() =~= done);
        return o as i32;
    }
    if padded || left == 1 {
        return -1;
    }
    proof {
        assert(!padding ==> digits =~= rest);
        assert(rest_bytes(rest, padding, variant) == last_bytes(digits, variant));
        assert(src@.subrange(i as int, i + left) =~= digits);
    }
    let ghost d1 = dst@;
    match decode_last(src, i, left, dst, o, variant) {
        Some(end) => {
            assert(dst@ =~= done + last_bytes(digits, variant)->0 + d0.skip(end as int)) by {
                assert(d1.take(o as int) =~= done);
                assert(d1.skip(end as int) =~= d0.skip(end as int));
            }
            end as i32
        },
        None => -1,
    }
}

/// Decodes four digits, which start at `i`, to the position `o` of `dst`. Returns whether all four
/// were digits.
fn decode_group(
    src: &[u8],
    i: usize,
    dst: &mut [u8],
    o: usize,
    variant: Base64Variant,
) -> (ok: bool)
    requires
        i + 4 <= src@.len(),
        group_ok(src@.skip(i as int), variant) ==> o + 3 <= old(dst)@.len(),
        o <= old(dst)@.len(),
    ensures
        ok == group_ok(src@.skip(i as int), variant),
        ok ==> final(dst)@ == old(dst)@.take(o as int) + group_bytes(src@.skip(i as int), variant)
            + old(dst)@.skip(o + 3),
        !ok ==> final(dst)@ == old(dst)@,
{
    let ghost d0 = dst@;
    let ghost rest = src@.skip(i as int);
    let _total: usize = src.len();
    let _room: usize = dst.len();
    let p = reverse(src[i], variant);
    let q = reverse(src[i + 1], variant);
    let r = reverse(src[i + 2], variant);
    let s = reverse(src[i + 3], variant);
    if p < 0 || q < 0 || r < 0 || s < 0 {
        return false;
    }
    dst[o] = (p * 4 + q / 16) as u8;
    dst[o + 1] = ((q % 16) * 16 + r / 4) as u8;
    dst[o + 2] = ((r % 4) * 64 + s) as u8;
    assert(dst@ =~= d0.take(o as int) + group_bytes(rest, variant) + d0.skip(o + 3));
    true
}

/// Decodes a last group of `left` digits, which starts at `i`, to the position `o` of `dst`. Returns
/// where the output ends, or `None` if the group is malformed.
fn decode_last(
    src: &[u8],
    i: usize,
    left: usize,
    dst: &mut [u8],
    o: usize,
    variant: Base64Variant,
) -> (end: Option<usize>)
    requires
        2 <= left <= 3,
        i + left <= src@.len(),
        last_bytes(src@.subrange(i as int, i + left), variant) is Some ==> o + left - 1
            <= old(dst)@.len(),
        o <= old(dst)@.len(),
    ensures
        match last_bytes(src@.subrange(i as int, i + left), variant) {
            Some(d) => {
                &&& end == Some((o + d.len()) as usize)
                &&& d.len() == left - 1
                &&& final(dst)@ == old(dst)@.take(o as int) + d + old(dst)@.skip(o + d.len())
            },
            None => end is None && final(dst)@ == old(dst)@,
        },
{
    let ghost d0 = dst@;
    let ghost digits = src@.subrange(i as int, i + left);
    let _total: usize = src.len();
    let _room: usize = dst.len();
    let p = reverse(src[i], variant);
    let q = reverse(src[i + 1], variant);
    assert(digits[0] == src@[i as int] && digits[1] == src@[i + 1]);
    if left == 2 {
        if p < 0 || q < 0 || q % 16 != 0 {
            return None;
        }
        dst[o] = (p * 4 + q / 16) as u8;
        assert(dst@ =~= d0.take(o as int) + last_bytes(digits, variant)->0 + d0.skip(o + 1));
        Some(o + 1)
    } else {
        let r = reverse(src[i + 2], variant);
        assert(digits[2] == src@[i + 2]);
        if p < 0 || q < 0 || r < 0 || r % 4 != 0 {
            return None;
        }
        dst[o] = (p * 4 + q / 16) as u8;
        dst[o + 1] = ((q % 16) * 16 + r / 4) as u8;
        assert(dst@ =~= d0.take(o as int) + last_bytes(digits, variant)->0 + d0.skip(o + 2));
        Some(o + 2)
    }
}

/// The alphabet of a variant.
pub open spec fn alphabet(variant: Base64Variant) -> Seq<u8> {
    Seq::new(26, |i: int| (0x41 + i) as u8) + Seq::new(26, |i: int| (0x61 + i) as u8) + Seq::new(
        10,
        |i: int| (0x30 + i) as u8,
    ) + match variant {
        Base64Variant::Standard => seq![0x2bu8, 0x2fu8],
        Base64Variant::UrlSafe => seq![0x2du8, 0x5fu8],
        Base64Variant::Imap => seq![0x2bu8, 0x2cu8],
    }
}

/// The digits are the characters of the alphabet, in turn, and nothing else is a digit.
pub proof fn law_alphabet(d: int, c: u8, variant: Base64Variant)
    requires
        0 <= d < 64,
    ensures
        alphabet(variant).len() == 64,
        digit_char(d, variant) == alphabet(variant)[d],
        digit_value(alphabet(variant)[d], variant) == d,
        !alphabet(variant).contains(c) ==> digit_value(c, variant) < 0,
{
    reveal(digit_char);
    lemma_digit(d, variant);
    lemma_value(c, variant);
    if digit_value(c, variant) >= 0 {
        let k = digit_value(c, variant);
        assert(digit_char(k, variant) == alphabet(variant)[k]);
        assert(alphabet(variant)[k] == c);
    }
}

/// Four digits hold the same 24 bits as the three bytes that they stand for, from the upper bits on.
pub proof fn law_digits_hold_the_bits(src: Seq<u8>, padding: bool, variant: Base64Variant, i: int)
    requires
        0 <= i,
        3 * i + 3 <= src.len(),
    ensures
        ({
            let e = encoded(src, padding, variant);
            let v = |k: int| digit_value(e[4 * i + k], variant);
            &&& 4 * i + 4 <= e.len()
            &&& 0 <= v(0) < 64 && 0 <= v(1) < 64 && 0 <= v(2) < 64 && 0 <= v(3) < 64
            &&& v(0) * 0x4_0000 + v(1) * 0x1000 + v(2) * 0x40 + v(3) == src[3 * i] * 0x1_0000 + src[3
                * i + 1] * 0x100 + src[3 * i + 2]
        }),
    decreases i,
{
    let e = encoded(src, padding, variant);
    let g = group_chars(src[0], src[1], src[2], variant);
    lemma_group(src[0], src[1], src[2], variant);
    if i == 0 {
        assert(e[0] == g[0] && e[1] == g[1] && e[2] == g[2] && e[3] == g[3]);
    } else {
        let t = src.skip(3);
        let f = encoded(t, padding, variant);
        law_digits_hold_the_bits(t, padding, variant, i - 1);
        assert(e =~= g + f);
        assert(e[4 * i] == f[4 * (i - 1)] && e[4 * i + 1] == f[4 * (i - 1) + 1] && e[4 * i + 2] == f[4
            * (i - 1) + 2] && e[4 * i + 3] == f[4 * (i - 1) + 3]);
        assert(t[3 * (i - 1)] == src[3 * i] && t[3 * (i - 1) + 1] == src[3 * i + 1] && t[3 * (i - 1)
            + 2] == src[3 * i + 2]);
    }
}

/// What is left behind the groups of three bytes: one byte takes two digits, two bytes take three, with
/// zero bits behind theirs, and equals signs fill the group up if asked for.
pub proof fn law_last_digits(src: Seq<u8>, padding: bool, variant: Base64Variant)
    requires
        1 <= src.len() <= 2,
    ensures
        ({
            let e = encoded(src, padding, variant);
            let v = |k: int| digit_value(e[k], variant);
            &&& padding ==> e.len() == 4 && e[3] == 0x3d
            &&& !padding ==> e.len() == src.len() + 1
            &&& src.len() == 1 ==> v(0) * 0x40 + v(1) == src[0] * 0x10
            &&& src.len() == 2 ==> v(0) * 0x1000 + v(1) * 0x40 + v(2) == src[0] * 0x400 + src[1] * 4
            &&& src.len() == 1 && padding ==> e[2] == 0x3d
        }),
{
    let e = encoded(src, padding, variant);
    let y = if src.len() == 2 {
        src[1]
    } else {
        0
    };
    let g = group_chars(src[0], y, 0, variant);
    lemma_group(src[0], y, 0, variant);
    assert(e[0] == g[0] && e[1] == g[1]);
    if src.len() == 2 {
        assert(e[2] == g[2]);
    }
}

/// The form of a text is that of its whole groups and that of its rest, one behind the other.
pub proof fn law_groups_are_encoded_in_turn(src: Seq<u8>, rest: Seq<u8>, padding: bool, variant: Base64Variant)
    requires
        src.len() % 3 == 0,
    ensures
        encoded(src + rest, padding, variant) == encoded(src, padding, variant) + encoded(
            rest,
            padding,
            variant,
        ),
    decreases src.len(),
{
    let all = src + rest;
    if src.len() == 0 {
        assert(all =~= rest);
        assert(encoded(src, padding, variant) =~= Seq::<u8>::empty());
        assert(encoded(all, padding, variant) =~= encoded(src, padding, variant) + encoded(
            rest,
            padding,
            variant,
        ));
    } else {
        let t = src.skip(3);
        law_groups_are_encoded_in_turn(t, rest, padding, variant);
        assert(all.skip(3) =~= t + rest);
        let g = group_chars(src[0], src[1], src[2], variant);
        assert(encoded(all, padding, variant) =~= g + encoded(t + rest, padding, variant));
        assert(encoded(all, padding, variant) =~= encoded(src, padding, variant) + encoded(
            rest,
            padding,
            variant,
        ));
    }
}

/// Where a string cannot be decoded, what has been stored are the bytes of its whole groups of digits:
/// their forms are what it begins with, and what follows them begins with no group.
pub proof fn law_leading_groups(src: Seq<u8>, variant: Base64Variant)
    ensures
        ({
            let g = groups_bytes(src, variant);
            let form = encoded(g, false, variant);
            &&& g.len() % 3 == 0
            &&& form.is_prefix_of(src)
            &&& !group_ok(src.skip(form.len() as int), variant)
        }),
    decreases src.len(),
{
    let g = groups_bytes(src, variant);
    lemma_groups_len(src, variant);
    if group_ok(src, variant) {
        let t = src.skip(4);
        let h = groups_bytes(t, variant);
        law_leading_groups(t, variant);
        let b = group_bytes(src, variant);
        assert(g =~= b + h);
        assert(g.skip(3) =~= h);
        let c = group_chars(g[0], g[1], g[2], variant);
        lemma_value(src[0], variant);
        lemma_value(src[1], variant);
        lemma_value(src[2], variant);
        lemma_value(src[3], variant);
        lemma_digits_back(src[0], src[1], src[2], src[3], variant);
        assert(c =~= src.take(4));
        let form = encoded(g, false, variant);
        let f = encoded(h, false, variant);
        assert(form =~= c + f);
        assert(src.skip(form.len() as int) =~= t.skip(f.len() as int));
        assert(form.is_prefix_of(src)) by {
            assert forall|i: int| 0 <= i < form.len() implies form[i] == src[i] by {
                if i >= 4 {
                    assert(f[i - 4] == t[i - 4]);
                } else {
                    assert(c[i] == src.take(4)[i]);
                }
            }
            assert(form =~= src.take(form.len() as int));
        }
    } else {
        assert(encoded(g, false, variant) =~= Seq::<u8>::empty());
        assert(src.skip(0) =~= src);
    }
}

/// What is encoded into a buffer and decoded from there comes back, whatever the variant.
pub proof fn law_encode_then_decode(
    src: &[u8],
    dst: &mut [u8],
    n: i32,
    text: &[u8],
    out: &mut [u8],
    m: i32,
    padding: bool,
    variant: Base64Variant,
)
    requires
        call_ensures(base64_encode, (src, dst, padding, variant), n),
        text@ == final(dst)@.take(n as int),
        call_ensures(base64_decode, (text, out, padding, variant), m),
    ensures
        m == src@.len(),
        final(out)@.take(m as int) == src@,
        final(out)@.skip(m as int) == old(out)@.skip(m as int),
        padding ==> n == (src@.len() + 2) / 3 * 4,
        !padding ==> n == (src@.len() * 4 + 2) / 3,
{
    law_decode_undoes_encode(src@, padding, variant);
    let e = encoded(src@, padding, variant);
    assert(final(dst)@.take(n as int) =~= e);
    assert(final(out)@.take(m as int) =~= src@);
    assert(final(out)@.skip(m as int) =~= old(out)@.skip(m as int));
}

/// What can be decoded is what encoding the result gives; nothing else is accepted.
pub proof fn law_decode_then_encode(
    text: &[u8],
    out: &mut [u8],
    m: i32,
    src: &[u8],
    dst: &mut [u8],
    n: i32,
    padding: bool,
    variant: Base64Variant,
)
    requires
        call_ensures(base64_decode, (text, out, padding, variant), m),
        m >= 0,
        src@ == final(out)@.take(m as int),
        call_ensures(base64_encode, (src, dst, padding, variant), n),
    ensures
        n == text@.len(),
        final(dst)@.take(n as int) == text@,
{
    law_encode_undoes_decode(text@, padding, variant);
    let d = decoded(text@, padding, variant)->0;
    assert(final(out)@.take(m as int) =~= d);
    assert(final(dst)@.take(n as int) =~= text@);
}

} // verus!
