//! UUIDs and GUIDs.
//!
//! A UUID holds its bytes in the order of its text form; a GUID holds the first three groups with the
//! lowest byte first.

use vstd::prelude::*;

use crate::ascii::{DIGIT_0, DIGIT_9, HYPHEN, LOWER_A, LOWER_F, UPPER_A, UPPER_F};
use crate::cstring::at;
#[allow(unused_imports)]
use crate::cstring::byte_at;

verus! {

/// A GUID.
#[allow(non_camel_case_types)]
#[derive(Clone, Copy)]
pub struct guid_t {
    pub b: [u8; 16],
}

/// A UUID.
#[allow(non_camel_case_types)]
#[derive(Clone, Copy)]
pub struct uuid_t {
    pub b: [u8; 16],
}

/// The length of the text form `xxxxxxxx-xxxx-xxxx-xxxx-xxxxxxxxxxxx`.
pub const UUID_STRING_LEN: usize = 36;

/// The argument is not a UUID.
pub const EINVAL: i32 = 22;

/// Whether `c` is a hexadecimal digit.
pub open spec fn is_hex(c: u8) -> bool {
    DIGIT_0 <= c <= DIGIT_9 || UPPER_A <= c <= UPPER_F || LOWER_A <= c <= LOWER_F
}

/// The value of a hexadecimal digit.
pub open spec fn hex_value(c: u8) -> int {
    if DIGIT_0 <= c <= DIGIT_9 {
        c - DIGIT_0
    } else if UPPER_A <= c <= UPPER_F {
        c - UPPER_A + 10
    } else {
        c - LOWER_A + 10
    }
}

/// Whether a position of the text form holds a hyphen.
pub open spec fn is_separator(i: int) -> bool {
    i == 8 || i == 13 || i == 18 || i == 23
}

/// Whether `s` begins with the text form of a UUID.
pub open spec fn is_uuid(s: Seq<u8>) -> bool {
    forall|i: int|
        0 <= i < 36 ==> if is_separator(i) {
            #[trigger] byte_at(s, i) == HYPHEN
        } else {
            is_hex(byte_at(s, i))
        }
}

/// Where the two digits of byte `i` are in the text form.
pub open spec fn digits_at(i: int) -> int {
    2 * i + if i < 4 {
        0int
    } else if i < 6 {
        1
    } else if i < 8 {
        2
    } else if i < 10 {
        3
    } else {
        4
    }
}

/// The byte `i` of the text form.
pub open spec fn text_byte(s: Seq<u8>, i: int) -> int {
    hex_value(byte_at(s, digits_at(i))) * 16 + hex_value(byte_at(s, digits_at(i) + 1))
}

/// Where byte `i` of the text form is in a GUID.
pub open spec fn guid_place(i: int) -> int {
    if i < 4 {
        3 - i
    } else if i < 6 {
        9 - i
    } else if i < 8 {
        13 - i
    } else {
        i
    }
}

/// The UUID of all zeroes.
pub fn uuid_null() -> (u: uuid_t)
    ensures
        forall|i: int| 0 <= i < 16 ==> #[trigger] u.b@[i] == 0,
{
    uuid_t { b: [0u8; 16] }
}

/// The GUID of all zeroes.
pub fn guid_null() -> (u: guid_t)
    ensures
        forall|i: int| 0 <= i < 16 ==> #[trigger] u.b@[i] == 0,
{
    guid_t { b: [0u8; 16] }
}

/// Where byte `i` of the text form goes in a GUID.
pub fn guid_index(i: usize) -> (place: usize)
    requires
        i < 16,
    ensures
        place == guid_place(i as int),
        place < 16,
{
    if i < 4 {
        3 - i
    } else if i < 6 {
        9 - i
    } else if i < 8 {
        13 - i
    } else {
        i
    }
}

/// Where byte `i` of the text form goes in a UUID.
pub fn uuid_index(i: usize) -> (place: usize)
    requires
        i < 16,
    ensures
        place == i,
{
    i
}

/// Whether `b` are random bytes with the variant and, at `version_at`, the version of random UUIDs.
pub open spec fn randomized(b: Seq<u8>, random: Seq<u8>, version_at: int) -> bool {
    &&& b.len() == 16
    &&& b[version_at] == 0x40 + random[version_at] % 16
    &&& b[8] == 0x80 + random[8] % 64
    &&& forall|i: int| 0 <= i < 16 && i != version_at && i != 8 ==> #[trigger] b[i] == random[i]
}

/// Makes a random UUID of random bytes.
pub fn generate_random_uuid(uuid: &mut [u8; 16], random: [u8; 16])
    ensures
        randomized(final(uuid)@, random@, 6),
{
    *uuid = random;
    let version: u8 = uuid[6] % 16 + 0x40;
    uuid[6] = version;
    let variant: u8 = uuid[8] % 64 + 0x80;
    uuid[8] = variant;
}

/// Makes a random GUID of random bytes.
pub fn generate_random_guid(guid: &mut [u8; 16], random: [u8; 16])
    ensures
        randomized(final(guid)@, random@, 7),
{
    *guid = random;
    let version: u8 = guid[7] % 16 + 0x40;
    guid[7] = version;
    let variant: u8 = guid[8] % 64 + 0x80;
    guid[8] = variant;
}

/// Takes random bytes, and sets the variant.
fn uuid_gen_common(b: &mut [u8; 16], random: [u8; 16])
    ensures
        final(b)@ == random@.update(8, (0x80 + random@[8] % 64) as u8),
{
    *b = random;
    let variant: u8 = b[8] % 64 + 0x80;
    b[8] = variant;
}

/// Makes a random GUID of random bytes.
pub fn guid_gen(lu: &mut guid_t, random: [u8; 16])
    ensures
        randomized(final(lu).b@, random@, 7),
{
    uuid_gen_common(&mut lu.b, random);
    let version: u8 = lu.b[7] % 16 + 0x40;
    lu.b[7] = version;
}

/// Makes a random UUID of random bytes.
pub fn uuid_gen(bu: &mut uuid_t, random: [u8; 16])
    ensures
        randomized(final(bu).b@, random@, 6),
{
    uuid_gen_common(&mut bu.b, random);
    let version: u8 = bu.b[6] % 16 + 0x40;
    bu.b[6] = version;
}

/// Checks whether a string begins with the text form of a UUID.
pub fn uuid_is_valid(uuid: &[u8]) -> (valid: bool)
    ensures
        valid == is_uuid(uuid@),
{
    let mut i: usize = 0;
    while i < UUID_STRING_LEN
        invariant
            i <= 36,
            forall|k: int|
                0 <= k < i ==> if is_separator(k) {
                    #[trigger] byte_at(uuid@, k) == HYPHEN
                } else {
                    is_hex(byte_at(uuid@, k))
                },
        decreases 36 - i,
    {
        let c: u8 = at(uuid, i);
        if i == 8 || i == 13 || i == 18 || i == 23 {
            if c != HYPHEN {
                return false;
            }
        } else if !isxdigit(c) {
            return false;
        }
        i = i + 1;
    }
    true
}

/// Whether `c` is a hexadecimal digit.
fn isxdigit(c: u8) -> (hex: bool)
    ensures
        hex == is_hex(c),
{
    DIGIT_0 <= c && c <= DIGIT_9 || UPPER_A <= c && c <= UPPER_F || LOWER_A <= c && c <= LOWER_F
}

/// The value of a hexadecimal digit, or -1.
fn hex_to_bin(ch: u8) -> (value: i32)
    ensures
        value == (if is_hex(ch) {
            hex_value(ch)
        } else {
            -1
        }),
{
    if DIGIT_0 <= ch && ch <= DIGIT_9 {
        (ch - DIGIT_0) as i32
    } else if UPPER_A <= ch && ch <= UPPER_F {
        (ch - UPPER_A) as i32 + 10
    } else if LOWER_A <= ch && ch <= LOWER_F {
        (ch - LOWER_A) as i32 + 10
    } else {
        -1
    }
}

/// Parses the text form of a UUID, in the byte order of a GUID if `guid`.
fn uuid_parse_common(uuid: &[u8], b: &mut [u8; 16], guid: bool) -> (err: i32)
    ensures
        err == (if is_uuid(uuid@) {
            0
        } else {
            -22
        }),
        err != 0 ==> final(b)@ == old(b)@,
        err == 0 ==> forall|i: int| 0 <= i < 16 ==> #[trigger] parsed(final(b)@, uuid@, guid, i),
{
    if !uuid_is_valid(uuid) {
        return -EINVAL;
    }
    let mut i: usize = 0;
    while i < 16
        invariant
            i <= 16,
            is_uuid(uuid@),
            forall|k: int| 0 <= k < i ==> parsed(b@, uuid@, guid, k),
        decreases 16 - i,
    {
        let pos: usize = if i < 4 {
            2 * i
        } else if i < 6 {
            2 * i + 1
        } else if i < 8 {
            2 * i + 2
        } else if i < 10 {
            2 * i + 3
        } else {
            2 * i + 4
        };
        proof {
            assert(is_hex(byte_at(uuid@, pos as int)));
            assert(is_hex(byte_at(uuid@, pos + 1)));
        }
        let hi: i32 = hex_to_bin(at(uuid, pos));
        let lo: i32 = hex_to_bin(at(uuid, pos + 1));
        let place: usize = if guid {
            guid_index(i)
        } else {
            uuid_index(i)
        };
        let ghost before = b@;
        b[place] = (hi * 16 + lo) as u8;
        proof {
            assert forall|k: int| 0 <= k < i + 1 implies parsed(b@, uuid@, guid, k) by {
                if k < i {
                    assert(parsed(before, uuid@, guid, k));
                }
            }
        }
        i = i + 1;
    }
    0
}

/// Whether byte `i` of the text form is in place.
spec fn parsed(b: Seq<u8>, s: Seq<u8>, guid: bool, i: int) -> bool {
    b[if guid {
        guid_place(i)
    } else {
        i
    }] == text_byte(s, i)
}

/// Parses the text form of a GUID.
pub fn guid_parse(uuid: &[u8], u: &mut guid_t) -> (err: i32)
    ensures
        err == (if is_uuid(uuid@) {
            0
        } else {
            -22
        }),
        err != 0 ==> final(u).b@ == old(u).b@,
        err == 0 ==> forall|i: int|
            0 <= i < 16 ==> final(u).b@[#[trigger] guid_place(i)] == text_byte(uuid@, i),
{
    let err: i32 = uuid_parse_common(uuid, &mut u.b, true);
    proof {
        assert forall|i: int| err == 0 && 0 <= i < 16 implies u.b@[#[trigger] guid_place(i)]
            == text_byte(uuid@, i) by {
            assert(parsed(u.b@, uuid@, true, i));
        }
    }
    err
}

/// Parses the text form of a UUID.
pub fn uuid_parse(uuid: &[u8], u: &mut uuid_t) -> (err: i32)
    ensures
        err == (if is_uuid(uuid@) {
            0
        } else {
            -22
        }),
        err != 0 ==> final(u).b@ == old(u).b@,
        err == 0 ==> forall|i: int|
            0 <= i < 16 ==> #[trigger] final(u).b@[i] == text_byte(uuid@, i),
        err == 0 ==> final(u).b@ == Seq::new(16, |i: int| text_byte(uuid@, i) as u8),
{
    let err: i32 = uuid_parse_common(uuid, &mut u.b, false);
    proof {
        assert forall|i: int| err == 0 && 0 <= i < 16 implies #[trigger] u.b@[i] == text_byte(
            uuid@,
            i,
        ) by {
            assert(parsed(u.b@, uuid@, false, i));
        }
        if err == 0 {
            assert(u.b@ =~= Seq::new(16, |i: int| text_byte(uuid@, i) as u8));
        }
    }
    err
}

/// The bytes of a GUID are those of the UUID with the same text form, in another order: every byte has
/// its place.
pub proof fn law_guid_order_is_a_permutation(i: int, j: int)
    requires
        0 <= i < 16,
        0 <= j < 16,
    ensures
        0 <= guid_place(i) < 16,
        guid_place(guid_place(i)) == i,
        guid_place(i) == guid_place(j) ==> i == j,
{
}

/// Every byte of the text form has two digits of its own, which are no hyphens.
pub proof fn law_digits_do_not_meet(i: int, j: int)
    requires
        0 <= i < j < 16,
    ensures
        0 <= digits_at(i),
        digits_at(i) + 1 < digits_at(j),
        digits_at(j) + 1 < 36,
        !is_separator(digits_at(i)),
        !is_separator(digits_at(i) + 1),
{
}

/// The value of a hexadecimal digit, in either case; nothing else is one.
pub proof fn law_hexadecimal_digits(c: u8)
    ensures
        0x30 <= c <= 0x39 ==> is_hex(c) && hex_value(c) == c - 0x30,
        0x41 <= c <= 0x46 ==> is_hex(c) && hex_value(c) == 10 + (c - 0x41),
        0x61 <= c <= 0x66 ==> is_hex(c) && hex_value(c) == 10 + (c - 0x61),
        is_hex(c) <==> 0x30 <= c <= 0x39 || 0x41 <= c <= 0x46 || 0x61 <= c <= 0x66,
{
}

/// The text form is groups of 8, 4, 4, 4 and 12 digits, with hyphens between them; anything may follow.
pub proof fn law_text_form(a: Seq<u8>, b: Seq<u8>, c: Seq<u8>, d: Seq<u8>, e: Seq<u8>, rest: Seq<u8>)
    requires
        a.len() == 8,
        b.len() == 4,
        c.len() == 4,
        d.len() == 4,
        e.len() == 12,
    ensures
        is_uuid(
            a + seq![HYPHEN] + b + seq![HYPHEN] + c + seq![HYPHEN] + d + seq![HYPHEN] + e + rest,
        ) <==> {
            &&& forall|i: int| 0 <= i < 8 ==> is_hex(#[trigger] a[i])
            &&& forall|i: int| 0 <= i < 4 ==> is_hex(#[trigger] b[i])
            &&& forall|i: int| 0 <= i < 4 ==> is_hex(#[trigger] c[i])
            &&& forall|i: int| 0 <= i < 4 ==> is_hex(#[trigger] d[i])
            &&& forall|i: int| 0 <= i < 12 ==> is_hex(#[trigger] e[i])
        },
{
    let s = a + seq![HYPHEN] + b + seq![HYPHEN] + c + seq![HYPHEN] + d + seq![HYPHEN] + e + rest;
    assert forall|i: int| 0 <= i < 8 implies byte_at(s, i) == a[i] by {}
    assert forall|i: int| 9 <= i < 13 implies byte_at(s, i) == b[i - 9] by {}
    assert forall|i: int| 14 <= i < 18 implies byte_at(s, i) == c[i - 14] by {}
    assert forall|i: int| 19 <= i < 23 implies byte_at(s, i) == d[i - 19] by {}
    assert forall|i: int| 24 <= i < 36 implies byte_at(s, i) == e[i - 24] by {}
    assert(byte_at(s, 8) == HYPHEN && byte_at(s, 13) == HYPHEN && byte_at(s, 18) == HYPHEN && byte_at(
        s,
        23,
    ) == HYPHEN);
    if is_uuid(s) {
        assert forall|i: int| 0 <= i < 8 implies is_hex(#[trigger] a[i]) by {
            assert(is_hex(byte_at(s, i)));
        }
        assert forall|i: int| 0 <= i < 4 implies is_hex(#[trigger] b[i]) by {
            assert(is_hex(byte_at(s, i + 9)));
        }
        assert forall|i: int| 0 <= i < 4 implies is_hex(#[trigger] c[i]) by {
            assert(is_hex(byte_at(s, i + 14)));
        }
        assert forall|i: int| 0 <= i < 4 implies is_hex(#[trigger] d[i]) by {
            assert(is_hex(byte_at(s, i + 19)));
        }
        assert forall|i: int| 0 <= i < 12 implies is_hex(#[trigger] e[i]) by {
            assert(is_hex(byte_at(s, i + 24)));
        }
    } else {
        let i = choose|i: int|
            0 <= i < 36 && !(if is_separator(i) {
                #[trigger] byte_at(s, i) == HYPHEN
            } else {
                is_hex(byte_at(s, i))
            });
        if i < 8 {
            assert(!is_hex(a[i]));
        } else if i < 13 {
            assert(!is_hex(b[i - 9]));
        } else if i < 18 {
            assert(!is_hex(c[i - 14]));
        } else if i < 23 {
            assert(!is_hex(d[i - 19]));
        } else {
            assert(!is_hex(e[i - 24]));
        }
    }
}

/// Where the digits of each byte are, and where a GUID holds the byte.
pub proof fn law_positions(i: int)
    requires
        0 <= i < 16,
    ensures
        digits_at(i) == seq![0int, 2, 4, 6, 9, 11, 14, 16, 19, 21, 24, 26, 28, 30, 32, 34][i],
        guid_place(i) == seq![3int, 2, 1, 0, 5, 4, 7, 6, 8, 9, 10, 11, 12, 13, 14, 15][i],
{
}

/// The upper digit of a byte comes first in the text form.
pub proof fn law_upper_digit_comes_first(s: Seq<u8>, i: int)
    requires
        0 <= i < 16,
        is_uuid(s),
    ensures
        0 <= text_byte(s, i) < 256,
        text_byte(s, i) / 16 == hex_value(s[digits_at(i)]),
        text_byte(s, i) % 16 == hex_value(s[digits_at(i) + 1]),
{
    let p = digits_at(i);
    assert(!is_separator(p) && !is_separator(p + 1));
    assert(0 <= p && p + 1 < 36);
    assert(is_hex(byte_at(s, p)));
    assert(is_hex(byte_at(s, p + 1)));
}

/// Random UUIDs have version 4 and the variant 2 in their upper bits, and are random otherwise.
pub proof fn law_random_uuid(b: Seq<u8>, random: Seq<u8>, version_at: int, i: int)
    requires
        random.len() == 16,
        version_at == 6 || version_at == 7,
        randomized(b, random, version_at),
        0 <= i < 16,
    ensures
        b.len() == 16,
        b[version_at] / 16 == 4,
        b[version_at] % 16 == random[version_at] % 16,
        b[8] / 64 == 2,
        b[8] % 64 == random[8] % 64,
        i != version_at && i != 8 ==> b[i] == random[i],
{
}

/// A text that is parsed as a UUID and as a GUID gives the same bytes, of which the GUID holds the first
/// three groups with the lowest byte first. A text that is not a UUID is refused, and nothing is stored.
pub proof fn law_parsing(text: &[u8], u: &mut uuid_t, err: i32, g: &mut guid_t, gerr: i32, i: int)
    requires
        call_ensures(uuid_parse, (text, u), err),
        call_ensures(guid_parse, (text, g), gerr),
        0 <= i < 16,
    ensures
        gerr == err,
        err == 0 || err == -22,
        err == 0 <==> is_uuid(text@),
        err == 0 ==> final(g).b@[seq![3int, 2, 1, 0, 5, 4, 7, 6, 8, 9, 10, 11, 12, 13, 14, 15][i]]
            == final(u).b@[i],
        err == 0 ==> final(u).b@[i] as int == hex_value(
            text@[seq![0int, 2, 4, 6, 9, 11, 14, 16, 19, 21, 24, 26, 28, 30, 32, 34][i]],
        ) * 16 + hex_value(
            text@[seq![1int, 3, 5, 7, 10, 12, 15, 17, 20, 22, 25, 27, 29, 31, 33, 35][i]],
        ),
        err != 0 ==> final(u).b@ == old(u).b@ && final(g).b@ == old(g).b@,
{
    law_positions(i);
    if err == 0 {
        let p = digits_at(i);
        assert(is_hex(byte_at(text@, p)) || is_separator(p));
        assert(is_hex(byte_at(text@, p + 1)) || is_separator(p + 1));
        assert(final(g).b@[guid_place(i)] == text_byte(text@, i));
        law_upper_digit_comes_first(text@, i);
    }
}

/// A random UUID and a random GUID of the same random bytes have the version in the same group of the
/// text form, and the variant in the same byte.
pub proof fn law_generating(u: &mut uuid_t, g: &mut guid_t, random: [u8; 16], i: int)
    requires
        call_ensures(uuid_gen, (u, random), ()),
        call_ensures(guid_gen, (g, random), ()),
        0 <= i < 16,
    ensures
        final(u).b@[6] / 16 == 4,
        final(g).b@[7] / 16 == 4,
        final(u).b@[8] / 64 == 2,
        final(g).b@[8] / 64 == 2,
        i != 6 && i != 8 ==> final(u).b@[i] == random@[i],
        i != 7 && i != 8 ==> final(g).b@[i] == random@[i],
        final(u).b@[6] % 16 == random@[6] % 16,
        final(u).b@[8] % 64 == random@[8] % 64,
        final(g).b@[7] % 16 == random@[7] % 16,
        final(g).b@[8] % 64 == random@[8] % 64,
{
}

/// What is taken for a UUID has its hyphens and its digits in place, and is not too short.
pub proof fn law_hyphens_are_in_place(s: Seq<u8>, i: int)
    requires
        is_uuid(s),
        0 <= i < 36,
    ensures
        s.len() >= 36,
        i == 8 || i == 13 || i == 18 || i == 23 ==> s[i] == 0x2d,
        i != 8 && i != 13 && i != 18 && i != 23 ==> 0x30 <= s[i] <= 0x39 || 0x41 <= s[i] <= 0x46 || 0x61
            <= s[i] <= 0x66,
{
    assert(is_hex(byte_at(s, 35)));
    assert(byte_at(s, i) == HYPHEN || is_hex(byte_at(s, i)));
}

/// A text is valid exactly if it can be parsed.
pub proof fn law_valid_texts_are_parsed(text: &[u8], valid: bool, u: &mut uuid_t, err: i32)
    requires
        call_ensures(uuid_is_valid, (text,), valid),
        call_ensures(uuid_parse, (text, u), err),
    ensures
        valid <==> err == 0,
{
}

} // verus!
