//! Parsing of command line and module options.

use vstd::prelude::*;

use crate::ascii::{COMMA, EQUALS, HYPHEN, QUOTE};
#[allow(unused_imports)]
use crate::ascii::DIGIT_0;
use crate::cstring::{at, strlen};
#[allow(unused_imports)]
use crate::cstring::{byte_at, cstr, lemma_cstr, lemma_cstr_unique, nul_free};
use crate::ctype::isspace;
#[allow(unused_imports)]
use crate::ctype::is_space;
use crate::strtox::{simple_strtol, simple_strtoull, skip_spaces};
#[allow(unused_imports)]
use crate::strtox::{
    digit_of, law_decimal_number, law_hexadecimal_number, law_no_number, law_signed_number,
    lemma_number_end, lemma_numeral, negated, number_end, number_value, numeral, signed_value,
    spaces_end,
};

verus! {

/// What the beginning of an option string holds.
pub ghost struct OptionScan {
    /// 0 if there is no integer, 1 for an integer, 2 if a comma follows it, 3 if a hyphen does.
    pub kind: int,
    /// The value that is stored, if any.
    pub value: Option<i32>,
    /// Where the rest of the string begins.
    pub rest: int,
}

/// What the option string `s` begins with.
pub open spec fn option_scan(s: Seq<u8>) -> OptionScan {
    if byte_at(s, 0) == 0 {
        OptionScan { kind: 0, value: None, rest: 0 }
    } else {
        let negative = byte_at(s, 0) == HYPHEN;
        let start: int = if negative {
            1
        } else {
            0
        };
        let t = s.skip(start);
        let v = if negative {
            negated(number_value(t))
        } else {
            number_value(t)
        };
        let end = start + number_end(t);
        let kind: int = if number_end(t) == 0 {
            0
        } else if byte_at(s, end) == COMMA {
            2
        } else if byte_at(s, end) == HYPHEN {
            3
        } else {
            1
        };
        OptionScan {
            kind,
            value: Some(v as i32),
            rest: if kind == 2 {
                end + 1
            } else {
                end
            },
        }
    }
}

pub proof fn lemma_option_scan(s: Seq<u8>)
    ensures
        0 <= option_scan(s).rest <= s.len(),
        option_scan(s).kind != 0 ==> option_scan(s).rest > 0,
        option_scan(s).kind == 3 ==> option_scan(s).rest < s.len(),
        0 <= option_scan(s).kind <= 3,
        option_scan(s).kind != 0 ==> option_scan(s).value is Some,
{
    lemma_number_end(s.skip(0));
    if s.len() > 0 {
        lemma_number_end(s.skip(1));
    }
}

/// The body of [`get_option()`], at `pos` of `s`.
fn parse_option(s: &[u8], pos: &mut usize, pint: &mut i32) -> (kind: i32)
    requires
        *old(pos) <= s@.len(),
    ensures
        ({
            let scan = option_scan(s@.skip(*old(pos) as int));
            &&& kind == scan.kind
            &&& *final(pos) == *old(pos) + scan.rest
            &&& *final(pos) <= s@.len()
            &&& *final(pint) == (match scan.value {
                Some(v) => v,
                None => *old(pint),
            })
        }),
{
    let cur = *pos;
    let first = at(s, cur);
    let ghost t = s@.skip(cur as int);
    proof {
        lemma_option_scan(t);
    }
    if first == 0 {
        return 0;
    }
    let start: usize;
    if first == HYPHEN {
        start = cur + 1;
        let (v, end) = simple_strtoull(s, start);
        *pint = 0u64.wrapping_sub(v) as i32;
        *pos = end;
        assert(t.skip(1) =~= s@.skip(start as int));
    } else {
        start = cur;
        let (v, end) = simple_strtoull(s, start);
        *pint = v as i32;
        *pos = end;
        assert(t.skip(0) =~= s@.skip(start as int));
    }
    if *pos == start {
        return 0;
    }
    let next = at(s, *pos);
    if next == COMMA {
        *pos = *pos + 1;
        2
    } else if next == HYPHEN {
        3
    } else {
        1
    }
}

/// Parses an integer from an option string; if available accepts a subsequent comma as well.
///
/// `pos` is where the string begins in `s`, and moves past what was read. Returns 0 for no integer
/// in the string, 1 for an integer without a subsequent comma, 2 for one with a subsequent comma,
/// and 3 for one that a hyphen follows, which denotes a range. A leading hyphen without an integer
/// is the case of no integer, and it is consumed. Where the string is absent or empty, `pint` keeps
/// its value; in the other cases it holds the value read, 0 where there is none.
pub fn get_option(s: Option<&[u8]>, pos: &mut usize, pint: Option<&mut i32>) -> (kind: i32)
    requires
        s matches Some(t) ==> *old(pos) <= t@.len(),
    ensures
        match s {
            None => kind == 0 && *final(pos) == *old(pos),
            Some(t) => {
                let scan = option_scan(t@.skip(*old(pos) as int));
                kind == scan.kind && *final(pos) == *old(pos) + scan.rest && *final(pos)
                    <= t@.len()
            },
        },
        pint matches Some(p) ==> *final(p) == (match s {
            None => *p,
            Some(t) => match option_scan(t@.skip(*old(pos) as int)).value {
                Some(v) => v,
                None => *p,
            },
        }),
{
    match s {
        None => 0,
        Some(t) => {
            match pint {
                Some(p) => parse_option(t, pos, p),
                None => {
                    let mut unused: i32 = 0;
                    parse_option(t, pos, &mut unused)
                },
            }
        },
    }
}

/// `ints` with up to `n` of the numbers from `lower` up to `upper`, without it, stored from `at` on.
pub open spec fn range_filled(ints: Seq<i32>, at: int, n: int, lower: i32, upper: i32) -> Seq<i32> {
    Seq::new(
        ints.len(),
        |k: int|
            if at <= k < at + n && k - at < upper - lower {
                (lower + (k - at)) as i32
            } else {
                ints[k]
            },
    )
}

/// Expands the range whose hyphen is at `pos` of `s`, and whose first number is at `slot` of `ints`:
/// stores up to `n` of its numbers, without the last one. Returns how many there are.
fn get_range(s: &[u8], pos: &mut usize, ints: &mut [i32], slot: usize, n: usize) -> (nums: i32)
    requires
        *old(pos) < s@.len(),
        slot < old(ints)@.len(),
        slot + n <= old(ints)@.len(),
    ensures
        *final(pos) == *old(pos) + 1,
        ({
            let lower = old(ints)@[slot as int];
            let upper = signed_value(s@.skip(*old(pos) + 1)) as i32;
            &&& nums == upper.wrapping_sub(lower)
            &&& final(ints)@ == range_filled(old(ints)@, slot as int, n as int, lower, upper)
        }),
{
    let _total: usize = s.len();
    *pos = *pos + 1;
    let upper = simple_strtol(s, *pos) as i32;
    let lower = ints[slot];
    let nums = upper.wrapping_sub(lower);
    let mut x: i32 = lower;
    let mut k: usize = slot;
    let end = slot + n;
    let ghost ints0 = ints@;
    while k < end && x < upper
        invariant
            ints0 == old(ints)@,
            slot <= k <= end,
            end == slot + n,
            end <= ints@.len(),
            ints@.len() == ints0.len(),
            x == lower + (k - slot) || k == slot && x == lower,
            x <= upper || x == lower,
            forall|j: int|
                #![trigger ints@[j]]
                0 <= j < ints@.len() ==> ints@[j] == (if slot <= j < k {
                    (lower + (j - slot)) as i32
                } else {
                    ints0[j]
                }),
        decreases end - k,
    {
        ints[k] = x;
        x = x + 1;
        k = k + 1;
    }
    proof {
        assert(ints@ =~= range_filled(ints0, slot as int, n as int, lower, upper));
    }
    nums
}

/// Where the parse of a list of integers has come to.
pub ghost struct Options {
    /// The position in the string.
    pub pos: int,
    /// One more than the number of integers collected.
    pub i: i32,
    /// The array of integers.
    pub ints: Seq<i32>,
}

/// The outcome of parsing `s` from `pos` on, with room for `nints` integers, the next one of which
/// goes to index `i` of `ints`. With `nints` 0 the integers are counted and not collected.
pub open spec fn options_from(s: Seq<u8>, pos: int, nints: i32, i: i32, ints: Seq<i32>) -> Options
    decreases s.len() - pos,
{
    let slot: int = if nints == 0 {
        0
    } else {
        i as int
    };
    let scan = option_scan(s.skip(pos));
    let stored = if scan.value is Some {
        ints.update(slot, scan.value->0)
    } else {
        ints
    };
    let rest = pos + scan.rest;
    if pos < 0 || i >= nints && nints != 0 || slot < 0 {
        Options { pos, i, ints }
    } else if scan.kind == 0 || scan.rest <= 0 || rest >= s.len() + 1 {
        Options { pos: rest, i, ints: stored }
    } else if scan.kind == 3 {
        let upper = signed_value(s.skip(rest + 1)) as i32;
        let lower = stored[slot];
        let n = if nints == 0 {
            0
        } else {
            nints - i
        };
        let nums = upper.wrapping_sub(lower);
        let filled = range_filled(stored, slot, n, lower, upper);
        if nums < 0 || rest >= s.len() {
            Options { pos: rest + 1, i, ints: filled }
        } else {
            options_from(s, rest + 1, nints, i.wrapping_add(nums), filled)
        }
    } else if scan.kind == 1 {
        Options { pos: rest, i: i.wrapping_add(1), ints: stored }
    } else {
        options_from(s, rest, nints, i.wrapping_add(1), stored)
    }
}

/// Parses a string into a list of integers.
///
/// The string holds a comma-separated list of integers, a hyphen-separated range of integers, or a
/// combination of both. The parse halts when the array is full, or when no more numbers can be
/// retrieved. The numbers go to `ints[1..nints]`, and `ints[0]` gets the number of integers that
/// were counted. When `nints` is 0, the integers are only counted.
///
/// Returns the position in the string which caused the parse to end.
pub fn get_options(s: &[u8], nints: i32, ints: &mut [i32]) -> (end: usize)
    requires
        old(ints)@.len() >= 1,
        old(ints)@.len() >= nints,
    ensures
        ({
            let r = options_from(s@, 0, nints, 1, old(ints)@);
            &&& end == r.pos
            &&& final(ints)@ == r.ints.update(0, r.i.wrapping_sub(1))
        }),
        end <= s@.len(),
        final(ints)@.len() == old(ints)@.len(),
{
    let validate = nints == 0;
    let mut pos: usize = 0;
    let mut i: i32 = 1;
    let ghost goal = options_from(s@, 0, nints, 1, ints@);
    while i < nints || validate
        invariant_except_break
            goal == options_from(s@, pos as int, nints, i, ints@),
        invariant
            validate == (nints == 0),
            pos <= s@.len(),
            ints@.len() == old(ints)@.len(),
            ints@.len() >= 1,
            ints@.len() >= nints,
        ensures
            goal == (Options { pos: pos as int, i, ints: ints@ }),
        decreases s@.len() - pos,
    {
        if !validate && i < 0 {
            break;
        }
        let slot: usize = if validate {
            0
        } else {
            i as usize
        };
        proof {
            lemma_option_scan(s@.skip(pos as int));
        }
        let mut value: i32 = ints[slot];
        let ghost before = ints@;
        let ghost pos0 = pos as int;
        let kind = parse_option(s, &mut pos, &mut value);
        ints[slot] = value;
        proof {
            if option_scan(s@.skip(pos0)).value is None {
                assert(ints@ =~= before);
            }
        }
        if kind == 0 {
            break;
        }
        if kind == 3 {
            let n: usize = if validate {
                0
            } else {
                (nints - i) as usize
            };
            let nums = get_range(s, &mut pos, ints, slot, n);
            if nums < 0 {
                break;
            }
            i = i.wrapping_add(nums - 1).wrapping_add(1);
        } else {
            i = i.wrapping_add(1);
        }
        if kind == 1 {
            break;
        }
    }
    ints[0] = i.wrapping_sub(1);
    pos
}

/// Counting the integers of a string gives the number, and the end, that collecting them into an
/// array with room for all of them gives.
pub proof fn law_counting_agrees_with_collecting(s: Seq<u8>, nints: i32, ints: Seq<i32>, other: Seq<i32>)
    requires
        1 <= nints <= ints.len(),
        other.len() >= 1,
        1 <= options_from(s, 0, nints, 1, ints).i < nints,
    ensures
        options_from(s, 0, 0, 1, other).i == options_from(s, 0, nints, 1, ints).i,
        options_from(s, 0, 0, 1, other).pos == options_from(s, 0, nints, 1, ints).pos,
{
    lemma_counting(s, 0, nints, 1, ints, other);
}

proof fn lemma_counting(s: Seq<u8>, pos: int, nints: i32, i: i32, ints: Seq<i32>, other: Seq<i32>)
    requires
        0 <= pos <= s.len(),
        1 <= nints <= ints.len(),
        1 <= i,
        other.len() >= 1,
        1 <= options_from(s, pos, nints, i, ints).i < nints,
    ensures
        options_from(s, pos, 0, i, other).i == options_from(s, pos, nints, i, ints).i,
        options_from(s, pos, 0, i, other).pos == options_from(s, pos, nints, i, ints).pos,
    decreases s.len() - pos,
{
    lemma_option_scan(s.skip(pos));
    let scan = option_scan(s.skip(pos));
    let rest = pos + scan.rest;
    if scan.kind == 3 {
        let upper = signed_value(s.skip(rest + 1)) as i32;
        let lower = scan.value->0;
        let nums = upper.wrapping_sub(lower);
        if nums >= 0 {
            let next = i.wrapping_add(nums);
            let a = range_filled(ints.update(i as int, lower), i as int, nints - i, lower, upper);
            let b = range_filled(other.update(0, lower), 0, 0, lower, upper);
            assert(options_from(s, pos, nints, i, ints) == options_from(
                s,
                rest + 1,
                nints,
                next,
                a,
            ));
            lemma_counting(s, rest + 1, nints, next, a, b);
        }
    } else if scan.kind == 2 {
        let v = scan.value->0;
        lemma_counting(s, rest, nints, i.wrapping_add(1), ints.update(i as int, v), other.update(0, v));
    }
}

/// What the suffix `c` of a size multiplies it with.
pub open spec fn suffix_factor(c: u8) -> int {
    if c == 75 || c == 107 {
        0x400
    } else if c == 77 || c == 109 {
        0x10_0000
    } else if c == 71 || c == 103 {
        0x4000_0000
    } else if c == 84 || c == 116 {
        0x100_0000_0000
    } else if c == 80 || c == 112 {
        0x4_0000_0000_0000
    } else if c == 69 || c == 101 {
        0x1000_0000_0000_0000
    } else {
        1
    }
}

/// The shift for the suffix `c` of a size, 0 if `c` is no suffix.
fn suffix_shift(c: u8) -> (shl: u32)
    ensures
        (shl == 0) == (suffix_factor(c) == 1),
        shl == 10 ==> suffix_factor(c) == 0x400,
        shl == 20 ==> suffix_factor(c) == 0x10_0000,
        shl == 30 ==> suffix_factor(c) == 0x4000_0000,
        shl == 40 ==> suffix_factor(c) == 0x100_0000_0000,
        shl == 50 ==> suffix_factor(c) == 0x4_0000_0000_0000,
        shl == 60 ==> suffix_factor(c) == 0x1000_0000_0000_0000,
        shl == 0 || shl == 10 || shl == 20 || shl == 30 || shl == 40 || shl == 50 || shl == 60,
{
    if c == 69 || c == 101 {
        60
    } else if c == 80 || c == 112 {
        50
    } else if c == 84 || c == 116 {
        40
    } else if c == 71 || c == 103 {
        30
    } else if c == 77 || c == 109 {
        20
    } else if c == 75 || c == 107 {
        10
    } else {
        0
    }
}

/// The size that `s` begins with, at most what a word can hold, and where it ends.
pub open spec fn mem_size(s: Seq<u8>) -> (int, int) {
    let end = number_end(s);
    let factor = if end == 0 {
        1
    } else {
        suffix_factor(byte_at(s, end))
    };
    let product = number_value(s) * factor;
    (
        if product > u64::MAX {
            u64::MAX as int
        } else {
            product
        },
        if factor == 1 {
            end
        } else {
            end + 1
        },
    )
}

/// Parses a number with an optional suffix K, M, G, T, P or E, in either case.
///
/// Returns the number multiplied by what its suffix stands for, or `u64::MAX` where that does not
/// fit, and where the parse ended. The suffix is consumed in both cases, but only behind a number.
pub fn memparse(s: &[u8]) -> (r: (u64, usize))
    ensures
        ({
            let end = number_end(s@);
            let factor = if end == 0 {
                1
            } else {
                suffix_factor(byte_at(s@, end))
            };
            let product = number_value(s@) * factor;
            &&& r.0 == (if product > u64::MAX {
                u64::MAX as int
            } else {
                product
            })
            &&& r.1 == (if factor == 1 {
                end
            } else {
                end + 1
            })
        }),
        r.1 <= s@.len(),
        (r.0 as int, r.1 as int) == mem_size(s@),
{
    assert(s@.skip(0) =~= s@);
    let (ret, end) = simple_strtoull(s, 0);
    let shl = suffix_shift(at(s, end));
    if shl != 0 && end != 0 {
        let shifted = ret << shl;
        assert(shl == 10 ==> (if ret * 0x400 <= 0xffff_ffff_ffff_ffff {
            (ret << shl) == ret * 0x400 && (ret << shl) >> shl == ret
        } else {
            (ret << shl) >> shl != ret
        })) by (bit_vector);
        assert(shl == 20 ==> (if ret * 0x10_0000 <= 0xffff_ffff_ffff_ffff {
            (ret << shl) == ret * 0x10_0000 && (ret << shl) >> shl == ret
        } else {
            (ret << shl) >> shl != ret
        })) by (bit_vector);
        assert(shl == 30 ==> (if ret * 0x4000_0000 <= 0xffff_ffff_ffff_ffff {
            (ret << shl) == ret * 0x4000_0000 && (ret << shl) >> shl == ret
        } else {
            (ret << shl) >> shl != ret
        })) by (bit_vector);
        assert(shl == 40 ==> (if ret * 0x100_0000_0000 <= 0xffff_ffff_ffff_ffff {
            (ret << shl) == ret * 0x100_0000_0000 && (ret << shl) >> shl == ret
        } else {
            (ret << shl) >> shl != ret
        })) by (bit_vector);
        assert(shl == 50 ==> (if ret * 0x4_0000_0000_0000 <= 0xffff_ffff_ffff_ffff {
            (ret << shl) == ret * 0x4_0000_0000_0000 && (ret << shl) >> shl == ret
        } else {
            (ret << shl) >> shl != ret
        })) by (bit_vector);
        assert(shl == 60 ==> (if ret * 0x1000_0000_0000_0000 <= 0xffff_ffff_ffff_ffff {
            (ret << shl) == ret * 0x1000_0000_0000_0000 && (ret << shl) >> shl == ret
        } else {
            (ret << shl) >> shl != ret
        })) by (bit_vector);
        if shifted >> shl != ret {
            (u64::MAX, end + 1)
        } else {
            (shifted, end + 1)
        }
    } else {
        (ret, end)
    }
}

/// The suffixes of sizes, in upper and in lower case.
pub open spec fn size_suffixes() -> (Seq<u8>, Seq<u8>) {
    (seq![0x4b, 0x4d, 0x47, 0x54, 0x50, 0x45], seq![0x6b, 0x6d, 0x67, 0x74, 0x70, 0x65])
}

/// The product of two numbers, or the largest word.
pub open spec fn saturated(v: int, factor: int) -> int {
    if v * factor > 0xffff_ffff_ffff_ffff {
        0xffff_ffff_ffff_ffff
    } else {
        v * factor
    }
}

/// The suffixes K, M, G, T, P and E stand for the powers of 1024 in turn, in either case, and nothing
/// else is a suffix.
pub proof fn law_suffixes(k: int, c: u8)
    requires
        0 <= k < 6,
    ensures
        suffix_factor(size_suffixes().0[k]) == vstd::arithmetic::power::pow(1024, (k + 1) as nat),
        suffix_factor(size_suffixes().1[k]) == vstd::arithmetic::power::pow(1024, (k + 1) as nat),
        !size_suffixes().0.contains(c) && !size_suffixes().1.contains(c) ==> suffix_factor(c) == 1,
{
    vstd::arithmetic::power::lemma_pow1(1024);
    vstd::arithmetic::power::lemma_pow_adds(1024, 1, 1);
    vstd::arithmetic::power::lemma_pow_adds(1024, 2, 1);
    vstd::arithmetic::power::lemma_pow_adds(1024, 3, 1);
    vstd::arithmetic::power::lemma_pow_adds(1024, 4, 1);
    vstd::arithmetic::power::lemma_pow_adds(1024, 5, 1);
    let upper = size_suffixes().0;
    let lower = size_suffixes().1;
    assert(upper[0] == 0x4b && upper[1] == 0x4d && upper[2] == 0x47 && upper[3] == 0x54 && upper[4]
        == 0x50 && upper[5] == 0x45);
    assert(lower[0] == 0x6b && lower[1] == 0x6d && lower[2] == 0x67 && lower[3] == 0x74 && lower[4]
        == 0x70 && lower[5] == 0x65);
    if !upper.contains(c) && !lower.contains(c) {
        assert(c != upper[0] && c != upper[1] && c != upper[2] && c != upper[3] && c != upper[4] && c
            != upper[5]);
        assert(c != lower[0] && c != lower[1] && c != lower[2] && c != lower[3] && c != lower[4] && c
            != lower[5]);
    }
}

/// A decimal number with a suffix, in either case, is multiplied by the power of 1024 that the suffix
/// stands for, and the suffix is taken with it. What does not fit becomes the largest word.
pub proof fn law_size_with_suffix(v: u64, k: int, c: u8, rest: Seq<u8>)
    requires
        0 <= k < 6,
        c == size_suffixes().0[k] || c == size_suffixes().1[k],
    ensures
        mem_size(numeral(v as int, 10) + seq![c] + rest) == (
            saturated(v as int, vstd::arithmetic::power::pow(1024, (k + 1) as nat)),
            numeral(v as int, 10).len() as int + 1,
        ),
{
    let n = numeral(v as int, 10);
    let s = n + seq![c] + rest;
    law_suffixes(k, c);
    assert(s =~= n + (seq![c] + rest));
    assert((seq![c] + rest)[0] == c);
    law_decimal_number(v as int, seq![c] + rest);
    lemma_numeral(v as int, 10);
    assert(s[n.len() as int] == c);
    assert(suffix_factor(c) != 1);
}

/// The same goes for hexadecimal numbers, where an E is a digit.
pub proof fn law_hexadecimal_size_with_suffix(v: u64, x: u8, k: int, c: u8, rest: Seq<u8>)
    requires
        x == 0x78 || x == 0x58,
        0 <= k < 5,
        c == size_suffixes().0[k] || c == size_suffixes().1[k],
    ensures
        mem_size(seq![DIGIT_0, x] + numeral(v as int, 16) + seq![c] + rest) == (
            saturated(v as int, vstd::arithmetic::power::pow(1024, (k + 1) as nat)),
            numeral(v as int, 16).len() as int + 3,
        ),
{
    let n = numeral(v as int, 16);
    let s = seq![DIGIT_0, x] + n + seq![c] + rest;
    law_suffixes(k, c);
    assert(s =~= seq![DIGIT_0, x] + n + (seq![c] + rest));
    assert((seq![c] + rest)[0] == c);
    law_hexadecimal_number(v as int, x, seq![c] + rest);
    assert(s[2 + n.len() as int] == c);
    assert(suffix_factor(c) != 1);
}

/// A decimal number without a suffix is the size itself, and nothing behind it is taken.
pub proof fn law_size_without_suffix(v: u64, rest: Seq<u8>)
    requires
        rest.len() > 0 ==> !(0x30 <= rest[0] <= 0x39) && !size_suffixes().0.contains(rest[0])
            && !size_suffixes().1.contains(rest[0]),
        v == 0 && rest.len() > 0 ==> rest[0] != 0x78 && rest[0] != 0x58,
    ensures
        mem_size(numeral(v as int, 10) + rest) == (v as int, numeral(v as int, 10).len() as int),
{
    let n = numeral(v as int, 10);
    law_decimal_number(v as int, rest);
    lemma_numeral(v as int, 10);
    if rest.len() > 0 {
        law_suffixes(0, rest[0]);
        assert((n + rest)[n.len() as int] == rest[0]);
    }
    let factor = suffix_factor(byte_at(n + rest, n.len() as int));
    assert(factor == 1);
    assert(v * factor == v) by (nonlinear_arith)
        requires
            factor == 1,
    ;
}

/// A suffix counts only behind a number: without one the size is 0, and nothing is taken.
pub proof fn law_no_size(s: Seq<u8>)
    requires
        s.len() > 0 ==> !(0x30 <= s[0] <= 0x39),
    ensures
        mem_size(s) == (0int, 0int),
{
    law_no_number(s);
}

/// The decimal text of an integer.
pub open spec fn int_text(v: int) -> Seq<u8> {
    if v < 0 {
        seq![HYPHEN] + numeral(-v, 10)
    } else {
        numeral(v, 10)
    }
}

/// Whether `rest` can follow a decimal number without being taken for a part of it.
pub open spec fn ends_number(rest: Seq<u8>) -> bool {
    rest.len() > 0 ==> !(0x30 <= rest[0] <= 0x39) && rest[0] != 0x78 && rest[0] != 0x58
}

proof fn lemma_negated_cast(w: u64, v: u64)
    requires
        0 < v <= 0x8000_0000,
        w == 0x1_0000_0000_0000_0000 - v,
    ensures
        w as i32 == -v,
{
    assert((w as i32) + v == 0) by (bit_vector)
        requires
            w + v == 0x1_0000_0000_0000_0000,
            0 < v,
            v <= 0x8000_0000,
    ;
}

/// An integer, and how the option string goes on: 2 for a comma, which is taken with it, 3 for a
/// hyphen, and 1 otherwise.
pub proof fn law_option(v: i32, rest: Seq<u8>)
    requires
        ends_number(rest),
    ensures
        ({
            let scan = option_scan(int_text(v as int) + rest);
            let len = int_text(v as int).len() as int;
            &&& scan.value == Some(v)
            &&& rest.len() > 0 && rest[0] == 0x2c ==> scan.kind == 2 && scan.rest == len + 1
            &&& rest.len() > 0 && rest[0] == 0x2d ==> scan.kind == 3 && scan.rest == len
            &&& rest.len() == 0 || rest[0] != 0x2c && rest[0] != 0x2d ==> scan.kind == 1 && scan.rest
                == len
        }),
{
    let t = int_text(v as int);
    let s = t + rest;
    if rest.len() > 0 {
        assert(s[t.len() as int] == rest[0]);
    }
    if v < 0 {
        let n = numeral(-v as int, 10);
        lemma_numeral(-v as int, 10);
        law_decimal_number(-v as int, rest);
        assert(s.skip(1) =~= n + rest);
        assert(s[0] == HYPHEN);
        lemma_negated_cast(negated(number_value(n + rest)), number_value(n + rest));
    } else {
        lemma_numeral(v as int, 10);
        law_decimal_number(v as int, rest);
        assert(s.skip(0) =~= s);
        assert(s[0] == t[0]);
    }
}

/// Without an integer nothing is taken but a hyphen, and 0 is stored; an empty string leaves the value
/// alone.
pub proof fn law_no_option(s: Seq<u8>)
    requires
        s.len() > 0 ==> s[0] != 0 && s[0] != 0x2d && !(0x30 <= s[0] <= 0x39),
    ensures
        option_scan(s).kind == 0 && option_scan(s).rest == 0,
        s.len() == 0 ==> option_scan(s).value is None,
        s.len() > 0 ==> option_scan(s).value == Some(0i32),
        option_scan(seq![0x2du8] + s).kind == 0 && option_scan(seq![0x2du8] + s).rest == 1,
        option_scan(seq![0x2du8] + s).value == Some(0i32),
{
    assert(s.skip(0) =~= s);
    assert((seq![0x2du8] + s).skip(1) =~= s);
    law_no_number(s);
}

/// An item of a list of integers: the integers from `lo` to `hi`, written as a range or, if there is
/// only one, as it is.
pub ghost struct Item {
    pub lo: i32,
    pub hi: i32,
    pub range: bool,
}

/// Whether an item can be written.
pub open spec fn item_ok(item: Item) -> bool {
    item.lo <= item.hi && (item.range || item.lo == item.hi)
}

/// The text of an item.
pub open spec fn item_text(item: Item) -> Seq<u8> {
    if item.range {
        int_text(item.lo as int) + seq![HYPHEN] + int_text(item.hi as int)
    } else {
        int_text(item.lo as int)
    }
}

/// The text of a list of items: a comma stands between each two.
pub open spec fn items_text(items: Seq<Item>) -> Seq<u8>
    decreases items.len(),
{
    if items.len() == 0 {
        Seq::empty()
    } else if items.len() == 1 {
        item_text(items[0])
    } else {
        item_text(items[0]) + seq![COMMA] + items_text(items.drop_first())
    }
}

/// The integers of a list of items.
pub open spec fn items_ints(items: Seq<Item>) -> Seq<i32>
    decreases items.len(),
{
    if items.len() == 0 {
        Seq::empty()
    } else {
        Seq::new((items[0].hi - items[0].lo + 1) as nat, |k: int| (items[0].lo + k) as i32)
            + items_ints(items.drop_first())
    }
}

/// A list of integers and ranges is collected: all its integers in turn, where there is room for them.
/// The rest of the array keeps what it held, and the parse ends behind the list.
pub proof fn law_list_is_collected(items: Seq<Item>, rest: Seq<u8>, nints: i32, ints: Seq<i32>)
    requires
        items.len() > 0,
        forall|k: int| 0 <= k < items.len() ==> item_ok(#[trigger] items[k]),
        ends_number(rest),
        rest.len() > 0 ==> rest[0] != COMMA && rest[0] != HYPHEN,
        items_ints(items).len() < nints <= ints.len(),
    ensures
        ({
            let r = options_from(items_text(items) + rest, 0, nints, 1, ints);
            let n = items_ints(items).len() as int;
            &&& r.i == n + 1
            &&& r.pos == items_text(items).len()
            &&& r.ints.len() == ints.len()
            &&& forall|k: int|
                0 <= k < ints.len() ==> #[trigger] r.ints[k] == (if 1 <= k <= n {
                    items_ints(items)[k - 1]
                } else {
                    ints[k]
                })
        }),
{
    let s = items_text(items) + rest;
    assert(s.skip(0) =~= s);
    lemma_items(s, 0, items, rest, nints, 1, ints);
}

proof fn lemma_signed_text(v: i32, rest: Seq<u8>)
    requires
        ends_number(rest),
    ensures
        signed_value(int_text(v as int) + rest) as i32 == v,
{
    let s = int_text(v as int) + rest;
    if v < 0 {
        let n = numeral(-v as int, 10);
        lemma_numeral(-v as int, 10);
        law_decimal_number(-v as int, rest);
        assert(s.skip(1) =~= n + rest);
        lemma_negated_cast(negated(number_value(n + rest)), number_value(n + rest));
    } else {
        lemma_numeral(v as int, 10);
        law_decimal_number(v as int, rest);
        assert(s[0] == numeral(v as int, 10)[0]);
        assert(digit_of(s[0]) < 10);
    }
}

/// How the list goes on behind its first item.
spec fn items_tail(items: Seq<Item>, rest: Seq<u8>) -> Seq<u8> {
    if items.len() <= 1 {
        rest
    } else {
        seq![COMMA] + items_text(items.drop_first()) + rest
    }
}

/// The step of the parse over the first number of a range.
proof fn lemma_range_step(
    s: Seq<u8>,
    pos: int,
    item: Item,
    tail: Seq<u8>,
    nints: i32,
    i: i32,
    ints: Seq<i32>,
)
    requires
        0 <= pos <= s.len(),
        item.range && item_ok(item),
        s.skip(pos) == item_text(item) + tail,
        ends_number(tail),
        1 <= i,
        i + (item.hi - item.lo) < nints <= ints.len(),
    ensures
        ({
            let next = pos + int_text(item.lo as int).len() + 1;
            &&& pos < next <= s.len()
            &&& s.skip(next) == int_text(item.hi as int) + tail
            &&& options_from(s, pos, nints, i, ints) == options_from(
                s,
                next,
                nints,
                (i + (item.hi - item.lo)) as i32,
                range_filled(ints.update(i as int, item.lo), i as int, nints - i, item.lo, item.hi),
            )
        }),
{
    let a = int_text(item.lo as int);
    lemma_numeral(if item.lo < 0 {
        -item.lo as int
    } else {
        item.lo as int
    }, 10);
    let after = seq![HYPHEN] + int_text(item.hi as int) + tail;
    assert(s.skip(pos) =~= a + after);
    lemma_option_scan(s.skip(pos));
    law_option(item.lo, after);
    let next = pos + a.len() + 1;
    assert(s.skip(next) =~= s.skip(pos).skip(a.len() as int + 1));
    assert(s.skip(next) =~= int_text(item.hi as int) + tail);
    lemma_signed_text(item.hi, tail);
    assert(ints.update(i as int, item.lo)[i as int] == item.lo);
}

/// The step of the parse over an integer that a comma follows.
proof fn lemma_comma_step(
    s: Seq<u8>,
    pos: int,
    v: i32,
    after: Seq<u8>,
    nints: i32,
    i: i32,
    ints: Seq<i32>,
)
    requires
        0 <= pos <= s.len(),
        s.skip(pos) == int_text(v as int) + seq![COMMA] + after,
        1 <= i < nints <= ints.len(),
    ensures
        ({
            let next = pos + int_text(v as int).len() + 1;
            &&& pos < next <= s.len()
            &&& s.skip(next) == after
            &&& options_from(s, pos, nints, i, ints) == options_from(
                s,
                next,
                nints,
                (i + 1) as i32,
                ints.update(i as int, v),
            )
        }),
{
    let a = int_text(v as int);
    assert(s.skip(pos) =~= a + (seq![COMMA] + after));
    lemma_option_scan(s.skip(pos));
    law_option(v, seq![COMMA] + after);
    let next = pos + a.len() + 1;
    assert(s.skip(next) =~= s.skip(pos).skip(a.len() as int + 1));
    assert(s.skip(next) =~= after);
}

#[verifier::spinoff_prover]
#[verifier::rlimit(30)]
proof fn lemma_items(
    s: Seq<u8>,
    pos: int,
    items: Seq<Item>,
    rest: Seq<u8>,
    nints: i32,
    i: i32,
    ints: Seq<i32>,
)
    requires
        0 <= pos <= s.len(),
        s.skip(pos) == items_text(items) + rest,
        items.len() > 0,
        forall|k: int| 0 <= k < items.len() ==> item_ok(#[trigger] items[k]),
        ends_number(rest),
        rest.len() > 0 ==> rest[0] != COMMA && rest[0] != HYPHEN,
        1 <= i,
        i + items_ints(items).len() <= nints <= ints.len(),
    ensures
        ({
            let r = options_from(s, pos, nints, i, ints);
            let n = items_ints(items).len() as int;
            &&& r.i == i + n
            &&& r.pos == pos + items_text(items).len()
            &&& r.ints.len() == ints.len()
            &&& forall|k: int|
                0 <= k < ints.len() ==> #[trigger] r.ints[k] == (if i <= k < i + n {
                    items_ints(items)[k - i]
                } else {
                    ints[k]
                })
        }),
    decreases s.len() - pos,
{
    let item = items[0];
    assert(item_ok(item));
    let more = items.drop_first();
    let tail = items_tail(items, rest);
    assert(items_text(items) + rest =~= item_text(item) + tail);
    assert(ends_number(tail));
    assert forall|k: int| 0 <= k < more.len() implies item_ok(#[trigger] more[k]) by {
        assert(more[k] == items[k + 1]);
    }
    let a = int_text(item.lo as int);
    let r = options_from(s, pos, nints, i, ints);
    let d = item.hi - item.lo;
    let all = items_ints(items);
    assert(all.len() == d + 1 + items_ints(more).len());
    if item.range {
        lemma_range_step(s, pos, item, tail, nints, i, ints);
        let next = pos + a.len() + 1;
        let last = Item { lo: item.hi, hi: item.hi, range: false };
        let others = seq![last] + more;
        assert(others.drop_first() =~= more);
        let filled = range_filled(
            ints.update(i as int, item.lo),
            i as int,
            nints - i,
            item.lo,
            item.hi,
        );
        assert(items_text(others) + rest =~= s.skip(next));
        assert forall|k: int| 0 <= k < others.len() implies item_ok(#[trigger] others[k]) by {
            if k > 0 {
                assert(others[k] == more[k - 1]);
            }
        }
        let left = items_ints(others);
        assert(left.len() == 1 + items_ints(more).len());
        lemma_items(s, next, others, rest, nints, (i + d) as i32, filled);
        assert((items_text(items) + rest).len() == (a.len() + 1) + (items_text(others) + rest).len());
        assert forall|k: int| 0 <= k < ints.len() implies #[trigger] r.ints[k] == (if i <= k < i
            + all.len() {
            all[k - i]
        } else {
            ints[k]
        }) by {
            if i + d <= k < i + all.len() {
                assert(left[k - i - d] == all[k - i]);
            } else {
                assert(r.ints[k] == filled[k]);
            }
        }
    } else if items.len() == 1 {
        assert(s.skip(pos) =~= a + rest);
        lemma_option_scan(s.skip(pos));
        law_option(item.lo, rest);
        assert(items_ints(more).len() == 0);
    } else {
        assert(s.skip(pos) =~= a + seq![COMMA] + (items_text(more) + rest));
        lemma_comma_step(s, pos, item.lo, items_text(more) + rest, nints, i, ints);
        let next = pos + a.len() + 1;
        lemma_items(s, next, more, rest, nints, (i + 1) as i32, ints.update(i as int, item.lo));
    }
}

/// Collecting integers writes to the array from index 1 up to `nints` only.
pub proof fn law_collecting_stays_in_the_array(s: Seq<u8>, nints: i32, ints: Seq<i32>, k: int)
    requires
        1 <= nints <= ints.len(),
        k == 0 || nints <= k < ints.len(),
    ensures
        options_from(s, 0, nints, 1, ints).ints[k] == ints[k],
        options_from(s, 0, nints, 1, ints).ints.len() == ints.len(),
{
    lemma_stays(s, 0, nints, 1, ints, k);
}

proof fn lemma_stays(s: Seq<u8>, pos: int, nints: i32, i: i32, ints: Seq<i32>, k: int)
    requires
        0 <= pos <= s.len(),
        1 <= nints <= ints.len(),
        i != 0,
        k == 0 || nints <= k < ints.len(),
    ensures
        options_from(s, pos, nints, i, ints).ints[k] == ints[k],
        options_from(s, pos, nints, i, ints).ints.len() == ints.len(),
    decreases s.len() - pos,
{
    lemma_option_scan(s.skip(pos));
    let scan = option_scan(s.skip(pos));
    let rest = pos + scan.rest;
    if 0 < i < nints && scan.kind == 3 {
        let upper = signed_value(s.skip(rest + 1)) as i32;
        let lower = scan.value->0;
        let nums = upper.wrapping_sub(lower);
        let a = range_filled(ints.update(i as int, lower), i as int, nints - i, lower, upper);
        assert(a[k] == ints[k]);
        if nums >= 0 {
            lemma_stays(s, rest + 1, nints, i.wrapping_add(nums), a, k);
        }
    } else if 0 < i < nints && scan.kind == 2 {
        lemma_stays(s, rest, nints, i.wrapping_add(1), ints.update(i as int, scan.value->0), k);
    }
}

/// A range that goes down ends the parse behind its hyphen, and counts for nothing.
pub proof fn law_descending_range_ends_the_list(lo: i32, hi: i32, rest: Seq<u8>, nints: i32, ints: Seq<i32>)
    requires
        hi < lo,
        lo - hi <= i32::MAX,
        ends_number(rest),
        2 <= nints <= ints.len(),
    ensures
        ({
            let s = int_text(lo as int) + seq![HYPHEN] + int_text(hi as int) + rest;
            let r = options_from(s, 0, nints, 1, ints);
            r.i == 1 && r.pos == int_text(lo as int).len() + 1 && r.ints == ints.update(1, lo)
        }),
{
    let a = int_text(lo as int);
    let s = a + seq![HYPHEN] + int_text(hi as int) + rest;
    let after = seq![HYPHEN] + int_text(hi as int) + rest;
    lemma_numeral(if lo < 0 {
        -lo as int
    } else {
        lo as int
    }, 10);
    assert(s.skip(0) =~= a + after);
    law_option(lo, after);
    assert(s.skip(a.len() as int + 1) =~= int_text(hi as int) + rest);
    lemma_signed_text(hi, rest);
    let stored = ints.update(1, lo);
    assert(range_filled(stored, 1, nints - 1, lo, hi) =~= stored);
}

/// Whether `s` has `option` at `i`.
pub open spec fn has_at(s: Seq<u8>, option: Seq<u8>, i: int) -> bool {
    0 <= i && i + option.len() <= s.len() && s.subrange(i, i + option.len()) == option
}

/// The position behind the next comma of `s` at or after `i`, or the length of `s`.
pub open spec fn element_after(s: Seq<u8>, i: int) -> int
    decreases s.len() - i,
{
    if i >= s.len() {
        s.len() as int
    } else if s[i] == COMMA {
        i + 1
    } else {
        element_after(s, i + 1)
    }
}

/// Whether one of the elements that start at `i` and behind the following commas of `s` is
/// `option`. An element that begins with `option` is left at the first comma behind that.
pub open spec fn option_set_from(s: Seq<u8>, option: Seq<u8>, i: int) -> bool
    decreases s.len() - i,
{
    if i < 0 || i >= s.len() {
        false
    } else if has_at(s, option, i) {
        let j = i + option.len();
        proof {
            lemma_element_after(s, j);
        }
        j == s.len() || s[j] == COMMA || option_set_from(s, option, element_after(s, j))
    } else {
        proof {
            lemma_element_after(s, i);
        }
        option_set_from(s, option, element_after(s, i))
    }
}

pub proof fn lemma_element_after(s: Seq<u8>, i: int)
    requires
        0 <= i <= s.len(),
    ensures
        i <= element_after(s, i) <= s.len(),
        i < s.len() ==> i < element_after(s, i),
        forall|k: int| i <= k < element_after(s, i) - 1 ==> s[k] != COMMA,
        element_after(s, i) < s.len() ==> s[element_after(s, i) - 1] == COMMA,
    decreases s.len() - i,
{
    if i < s.len() && s[i] != COMMA {
        lemma_element_after(s, i + 1);
    }
}

/// Whether an element of `s`, which starts at the beginning or behind a comma and ends at the end or
/// before a comma, is `option`.
pub open spec fn is_element_at(s: Seq<u8>, option: Seq<u8>, i: int) -> bool {
    &&& 0 <= i < s.len()
    &&& i == 0 || s[i - 1] == COMMA
    &&& has_at(s, option, i)
    &&& i + option.len() == s.len() || s[i + option.len()] == COMMA
}

/// An option without a comma is found exactly if it is an element of the comma-separated list.
pub proof fn law_option_is_found_as_an_element(s: Seq<u8>, option: Seq<u8>)
    requires
        !option.contains(COMMA),
    ensures
        option_set_from(s, option, 0) == exists|i: int| #[trigger] is_element_at(s, option, i),
{
    if s.len() > 0 {
        lemma_option_set(s, option, 0);
    }
}

proof fn lemma_option_set(s: Seq<u8>, option: Seq<u8>, i: int)
    requires
        !option.contains(COMMA),
        0 <= i <= s.len(),
        i == 0 || s[i - 1] == COMMA || i == s.len(),
    ensures
        option_set_from(s, option, i) == exists|k: int|
            i <= k && #[trigger] is_element_at(s, option, k),
    decreases s.len() - i,
{
    if i < s.len() {
        let j = if has_at(s, option, i) {
            i + option.len()
        } else {
            i
        };
        assert forall|k: int| i <= k < j implies s[k] != COMMA by {
            assert(s[k] == s.subrange(i, j)[k - i]);
            assert(option.contains(option[k - i]));
        }
        lemma_element_after(s, j);
        let next = element_after(s, j);
        if is_element_at(s, option, i) {
            assert(option_set_from(s, option, i));
        } else {
            if has_at(s, option, i) {
                assert(j < s.len() && s[j] != COMMA);
            }
            lemma_option_set(s, option, next);
            assert(option_set_from(s, option, i) == option_set_from(s, option, next));
            assert forall|k: int| i <= k && #[trigger] is_element_at(s, option, k) implies next <= k by {
                if i < k < next {
                    assert(s[k - 1] != COMMA);
                }
            }
        }
    }
}

/// Checks whether an option is set in a comma-separated list of options.
pub fn parse_option_str(s: &[u8], option: &[u8]) -> (found: bool)
    ensures
        found == option_set_from(cstr(s@), cstr(option@), 0),
{
    let len = strlen(s);
    let olen = strlen(option);
    proof {
        lemma_cstr(s@);
        lemma_cstr(option@);
    }
    let ghost t = cstr(s@);
    let ghost o = cstr(option@);
    let mut i: usize = 0;
    while i < len
        invariant
            len == t.len(),
            olen == o.len(),
            len <= s@.len(),
            olen <= option@.len(),
            i <= len,
            forall|k: int| 0 <= k < len ==> t[k] == s@[k],
            forall|k: int| 0 <= k < olen ==> o[k] == option@[k],
            option_set_from(t, o, 0) == option_set_from(t, o, i as int),
            t == cstr(s@),
            o == cstr(option@),
        decreases len - i,
    {
        let ghost i0 = i as int;
        let mut k: usize = 0;
        while k < olen && k < len - i && s[i + k] == option[k]
            invariant
                len == t.len(),
                olen == o.len(),
                len <= s@.len(),
                olen <= option@.len(),
                i < len,
                k <= olen,
                k <= len - i,
                forall|j: int| 0 <= j < len ==> t[j] == s@[j],
                forall|j: int| 0 <= j < olen ==> o[j] == option@[j],
                forall|j: int| 0 <= j < k ==> t[i + j] == #[trigger] o[j],
            decreases olen - k,
        {
            k = k + 1;
        }
        if k == olen {
            assert(t.subrange(i as int, i + olen) =~= o);
            i = i + olen;
            if i == len || s[i] == COMMA {
                return true;
            }
        } else {
            proof {
                if has_at(t, o, i as int) {
                    assert(t.subrange(i as int, i + olen)[k as int] == o[k as int]);
                }
            }
        }
        let ghost j0 = i as int;
        while i < len && s[i] != COMMA
            invariant
                len == t.len(),
                len <= s@.len(),
                j0 <= i <= len,
                forall|j: int| 0 <= j < len ==> t[j] == s@[j],
                element_after(t, j0) == element_after(t, i as int),
            decreases len - i,
        {
            i = i + 1;
        }
        if i < len {
            i = i + 1;
        }
        proof {
            lemma_element_after(t, j0);
        }
    }
    false
}

/// Where an argument lies in its string.
pub struct NextArg {
    /// Where the name of the parameter begins.
    pub param: usize,
    /// Where its value begins, if it has one.
    pub val: Option<usize>,
    /// Where the next argument begins.
    pub next: usize,
}

/// Where the argument of `a` begins: past an opening quote.
pub open spec fn arg_start(a: Seq<u8>) -> int {
    if byte_at(a, 0) == QUOTE {
        1
    } else {
        0
    }
}

/// Where the argument of `a` that goes on at `i` ends: at the end of the string, or at white space
/// that is not in quotes.
pub open spec fn arg_end_from(a: Seq<u8>, i: int, in_quote: bool) -> int
    decreases a.len() - i,
{
    if 0 <= i < a.len() && a[i] != 0 && (in_quote || !is_space(a[i])) {
        arg_end_from(a, i + 1, in_quote != (a[i] == QUOTE))
    } else {
        i
    }
}

/// Where the argument of `a` ends.
pub open spec fn arg_end(a: Seq<u8>) -> int {
    arg_end_from(a, arg_start(a), byte_at(a, 0) == QUOTE)
}

/// The first equals sign of `a` at or after `i` and before `end`, or `end`.
pub open spec fn equals_from(a: Seq<u8>, i: int, end: int) -> int
    decreases end - i,
{
    if i < end && byte_at(a, i) != EQUALS {
        equals_from(a, i + 1, end)
    } else if i < end {
        i
    } else {
        end
    }
}

/// The equals sign between the name and the value of the argument of `a`, which is not at the
/// beginning of the argument; where it ends, if there is none.
pub open spec fn arg_equals(a: Seq<u8>) -> int {
    equals_from(a, arg_start(a) + 1, arg_end(a))
}

/// Whether the argument of `a` has a value.
pub open spec fn arg_has_value(a: Seq<u8>) -> bool {
    arg_equals(a) < arg_end(a)
}

/// Whether the value of the argument of `a` begins with a quote.
pub open spec fn arg_quoted_value(a: Seq<u8>) -> bool {
    arg_has_value(a) && byte_at(a, arg_equals(a) + 1) == QUOTE
}

/// Whether the byte at `k` of `a` is replaced by a NUL: the equals sign, the closing quote that
/// goes with an opening one, and the white space behind the argument.
pub open spec fn arg_cleared(a: Seq<u8>, k: int) -> bool {
    let end = arg_end(a);
    ||| arg_has_value(a) && k == arg_equals(a)
    ||| (byte_at(a, 0) == QUOTE || arg_quoted_value(a)) && k == end - 1 && k >= arg_start(a) && a[k]
        == QUOTE
    ||| k == end
}

/// `a` with the NULs that split its first argument off.
pub open spec fn arg_split(a: Seq<u8>) -> Seq<u8> {
    Seq::new(
        a.len(),
        |k: int|
            if arg_cleared(a, k) {
                0
            } else {
                a[k]
            },
    )
}

proof fn lemma_equals(a: Seq<u8>, i: int, end: int)
    ensures
        equals_from(a, i, end) <= end,
        equals_from(a, i, end) >= i || i > end,
        i <= equals_from(a, i, end) < end ==> byte_at(a, equals_from(a, i, end)) == EQUALS,
        forall|k: int|
            i <= k < equals_from(a, i, end) ==> #[trigger] byte_at(a, k) != EQUALS,
    decreases end - i,
{
    if i < end && byte_at(a, i) != EQUALS {
        lemma_equals(a, i + 1, end);
    }
}

/// Clears the closing quote just before `end`, if there is one at or after `start`.
fn clear_closing_quote(buf: &mut [u8], start: usize, end: usize)
    requires
        end <= old(buf)@.len(),
    ensures
        final(buf)@ == (if end > start && old(buf)@[end - 1] == QUOTE {
            old(buf)@.update(end - 1, 0)
        } else {
            old(buf)@
        }),
{
    if end > start && buf[end - 1] == QUOTE {
        buf[end - 1] = 0;
    }
}

/// Splits the first argument, a parameter with an optional value, off a string.
///
/// Quotes can stand around spaces, but a quote cannot be escaped. They can stand around the whole
/// argument or around its value.
pub fn next_arg(args: &mut [u8]) -> (r: NextArg)
    ensures
        final(args)@ == arg_split(old(args)@),
        r.param == arg_start(old(args)@),
        r.val == (if !arg_has_value(old(args)@) {
            None::<usize>
        } else if arg_quoted_value(old(args)@) {
            Some((arg_equals(old(args)@) + 2) as usize)
        } else {
            Some((arg_equals(old(args)@) + 1) as usize)
        }),
        r.next == spaces_end(final(args)@, if arg_end(old(args)@) < cstr(old(args)@).len() {
            arg_end(old(args)@) + 1
        } else {
            arg_end(old(args)@)
        }),
        r.param <= r.next <= old(args)@.len(),
        r.val matches Some(v) ==> r.param < v <= r.next,
{
    let ghost a = args@;
    let len = args.len();
    let mut in_quote = at(args, 0) == QUOTE;
    let quoted = in_quote;
    let start: usize = if quoted {
        1
    } else {
        0
    };
    let mut i: usize = start;
    let mut equals: usize = start;
    proof {
        lemma_cstr(a);
    }
    while i < len && args[i] != 0 && (in_quote || !isspace(args[i]))
        invariant
            args@ == a,
            len == a.len(),
            start == arg_start(a),
            start <= i <= len,
            arg_end(a) == arg_end_from(a, i as int, in_quote),
            start <= equals < len || equals == start,
            equals == start ==> forall|k: int| start < k < i ==> #[trigger] byte_at(a, k) != EQUALS,
            equals != start ==> start < equals < i && a[equals as int] == EQUALS && forall|k: int|
                start < k < equals ==> #[trigger] byte_at(a, k) != EQUALS,
            forall|k: int| start <= k < i ==> a[k] != 0,
        decreases len - i,
    {
        let c = args[i];
        if equals == start && c == EQUALS {
            equals = i;
        }
        if c == QUOTE {
            in_quote = !in_quote;
        }
        i = i + 1;
    }
    proof {
        assert(i == arg_end(a));
        lemma_equals(a, start + 1, i as int);
        if equals == start {
            if arg_has_value(a) {
                assert(byte_at(a, arg_equals(a)) == EQUALS);
            }
        } else {
            if arg_equals(a) < equals {
                assert(byte_at(a, arg_equals(a)) == EQUALS);
            }
            if arg_equals(a) > equals {
                assert(byte_at(a, equals as int) != EQUALS);
            }
            assert(arg_equals(a) == equals);
        }
        assert(cstr(a).len() >= i && (i < cstr(a).len()) == (i < len && a[i as int] != 0)) by {
            let n = cstr(a).len() as int;
            assert(byte_at(a, n) == byte_at(cstr(a), n));
            assert(byte_at(a, i as int) == byte_at(cstr(a), i as int) || i > n);
            if n < i {
                assert(a[n] != 0);
            }
            if i < n {
                assert(cstr(a)[i as int] != 0);
            }
        }
    }
    let mut val: Option<usize> = None;
    if equals != start {
        args[equals] = 0;
        val = Some(equals + 1);
        // Quotes are not part of the value.
        if at(args, equals + 1) == QUOTE {
            val = Some(equals + 2);
            clear_closing_quote(args, start, i);
        }
    }
    if quoted {
        clear_closing_quote(args, start, i);
    }
    let mut next: usize = i;
    if i < len && args[i] != 0 {
        args[i] = 0;
        next = i + 1;
    }
    proof {
        assert(args@ =~= arg_split(a));
        if val is Some && arg_quoted_value(a) {
            assert(equals + 1 != i);
        }
    }
    let next = skip_spaces(args, next);
    NextArg { param: start, val, next }
}

proof fn lemma_arg_run(a: Seq<u8>, i: int, j: int, in_quote: bool)
    requires
        0 <= i <= j <= a.len(),
        forall|k: int|
            i <= k < j ==> #[trigger] a[k] != 0 && a[k] != QUOTE && (in_quote || !is_space(a[k])),
    ensures
        arg_end_from(a, i, in_quote) == arg_end_from(a, j, in_quote),
    decreases j - i,
{
    if i < j {
        assert(in_quote || !is_space(a[i]));
        lemma_arg_run(a, i + 1, j, in_quote);
    }
}

/// Whether `s` can stand in an argument without quotes.
pub open spec fn plain(s: Seq<u8>) -> bool {
    forall|k: int| 0 <= k < s.len() ==> s[k] != 0 && s[k] != QUOTE && !#[trigger] is_space(s[k])
}

/// An argument without quotes is split into its name, its value and the rest of the string.
pub proof fn law_plain_argument(name: Seq<u8>, value: Seq<u8>, rest: Seq<u8>)
    requires
        name.len() > 0,
        plain(name),
        !name.contains(EQUALS),
        plain(value),
    ensures
        ({
            let a = name + seq![EQUALS] + value + seq![32u8] + rest;
            let b = arg_split(a);
            &&& arg_start(a) == 0
            &&& arg_has_value(a) && !arg_quoted_value(a)
            &&& cstr(b) == name
            &&& cstr(b.skip(arg_equals(a) + 1)) == value
            &&& b.skip(arg_end(a) + 1) == rest
        }),
{
    let a = name + seq![EQUALS] + value + seq![32u8] + rest;
    let n = name.len() as int;
    let m = value.len() as int;
    assert forall|k: int| 0 <= k < n + 1 + m implies #[trigger] a[k] != 0 && a[k]
        != QUOTE && !is_space(a[k]) by {
        if k < n {
            assert(a[k] == name[k] && !is_space(name[k]));
        } else if k > n {
            assert(a[k] == value[k - n - 1] && !is_space(value[k - n - 1]));
        }
    }
    assert(!is_space(a[0]));
    lemma_arg_run(a, 0, n + 1 + m, false);
    assert(a[n + 1 + m] == 32u8);
    assert(arg_end(a) == n + 1 + m);
    lemma_name_end(name, a, n + 1 + m);
    let b = arg_split(a);
    assert forall|k: int| 0 <= k < n implies b[k] == name[k] && name[k] != 0 by {
        assert(a[k] == name[k] && !is_space(name[k]));
    }
    lemma_cstr_unique(b, n);
    assert(cstr(b) =~= name);
    let v = b.skip(n + 1);
    assert(byte_at(a, n + 1) != QUOTE) by {
        assert(m == 0 || !is_space(a[n + 1]));
    }
    assert forall|k: int| 0 <= k < m implies v[k] == value[k] && value[k] != 0 by {
        assert(a[n + 1 + k] == value[k] && !is_space(value[k]));
    }
    lemma_cstr_unique(v, m);
    assert(cstr(v) =~= value);
    assert(b.skip(n + 2 + m) =~= rest);
}

proof fn lemma_name_end(name: Seq<u8>, a: Seq<u8>, end: int)
    requires
        name.len() > 0,
        !name.contains(EQUALS),
        name.len() < a.len(),
        forall|k: int| 0 <= k < name.len() ==> a[k] == #[trigger] name[k],
        a[name.len() as int] == EQUALS,
        end == arg_end(a),
        arg_start(a) == 0,
        name.len() < end,
    ensures
        arg_equals(a) == name.len(),
{
    let n = name.len() as int;
    lemma_equals(a, 1, end);
    let e = arg_equals(a);
    if e < n {
        assert(byte_at(a, e) == EQUALS);
        assert(name.contains(name[e]));
    }
    if e > n {
        assert(byte_at(a, n) != EQUALS);
    }
}

/// A value in quotes, which can hold white space, is taken without its quotes.
pub proof fn law_quoted_value(name: Seq<u8>, value: Seq<u8>, rest: Seq<u8>)
    requires
        name.len() > 0,
        plain(name),
        !name.contains(EQUALS),
        nul_free(value),
        !value.contains(QUOTE),
    ensures
        ({
            let a = name + seq![EQUALS, QUOTE] + value + seq![QUOTE, 32u8] + rest;
            let b = arg_split(a);
            &&& arg_start(a) == 0
            &&& arg_quoted_value(a)
            &&& cstr(b) == name
            &&& cstr(b.skip(arg_equals(a) + 2)) == value
            &&& b.skip(arg_end(a) + 1) == rest
        }),
{
    let a = name + seq![EQUALS, QUOTE] + value + seq![QUOTE, 32u8] + rest;
    let n = name.len() as int;
    let m = value.len() as int;
    assert forall|k: int| 0 <= k < n + 1 implies #[trigger] a[k] != 0 && a[k]
        != QUOTE && !is_space(a[k]) by {
        if k < n {
            assert(a[k] == name[k] && !is_space(name[k]));
        }
    }
    assert(!is_space(a[0]));
    lemma_arg_run(a, 0, n + 1, false);
    assert(a[n + 1] == QUOTE && !is_space(QUOTE));
    assert(arg_end_from(a, n + 1, false) == arg_end_from(a, n + 2, true));
    assert forall|k: int| n + 2 <= k < n + 2 + m implies a[k] != 0 && a[k] != QUOTE by {
        assert(a[k] == value[k - n - 2]);
        assert(value.contains(value[k - n - 2]));
    }
    lemma_arg_run(a, n + 2, n + 2 + m, true);
    assert(a[n + 2 + m] == QUOTE);
    assert(arg_end_from(a, n + 2 + m, true) == arg_end_from(a, n + 3 + m, false));
    assert(a[n + 3 + m] == 32u8);
    assert(arg_end(a) == n + 3 + m);
    lemma_name_end(name, a, n + 3 + m);
    let b = arg_split(a);
    assert forall|k: int| 0 <= k < n implies b[k] == name[k] && name[k] != 0 by {
        assert(a[k] == name[k] && !is_space(name[k]));
    }
    lemma_cstr_unique(b, n);
    assert(cstr(b) =~= name);
    let v = b.skip(n + 2);
    assert forall|k: int| 0 <= k < m implies v[k] == value[k] by {
        assert(a[n + 2 + k] == value[k]);
    }
    assert(b[n + 2 + m] == 0);
    assert(v[m] == 0);
    lemma_cstr_unique(v, m);
    assert(cstr(v) =~= value);
    assert(b.skip(n + 4 + m) =~= rest);
}

/// An argument in quotes, which can hold white space, is taken without them.
pub proof fn law_quoted_argument(name: Seq<u8>, value: Seq<u8>, rest: Seq<u8>)
    requires
        name.len() > 0,
        nul_free(name),
        !name.contains(QUOTE),
        !name.contains(EQUALS),
        value.len() > 0,
        nul_free(value),
        !value.contains(QUOTE),
    ensures
        ({
            let a = seq![QUOTE] + name + seq![EQUALS] + value + seq![QUOTE, 32u8] + rest;
            let b = arg_split(a);
            &&& arg_start(a) == 1
            &&& arg_has_value(a) && !arg_quoted_value(a)
            &&& arg_equals(a) == name.len() + 1
            &&& cstr(b.skip(1)) == name
            &&& cstr(b.skip(arg_equals(a) + 1)) == value
            &&& b.skip(arg_end(a) + 1) == rest
        }),
{
    let a = seq![QUOTE] + name + seq![EQUALS] + value + seq![QUOTE, 32u8] + rest;
    let n = name.len() as int;
    let m = value.len() as int;
    assert forall|k: int| 1 <= k < n + 2 + m implies #[trigger] a[k] != 0 && a[k] != QUOTE by {
        if k < n + 1 {
            assert(a[k] == name[k - 1]);
            assert(name.contains(name[k - 1]));
        } else if k > n + 1 {
            assert(a[k] == value[k - n - 2]);
            assert(value.contains(value[k - n - 2]));
        }
    }
    assert(a[0] == QUOTE);
    lemma_arg_run(a, 1, n + 2 + m, true);
    assert(a[n + 2 + m] == QUOTE);
    assert(arg_end_from(a, n + 2 + m, true) == arg_end_from(a, n + 3 + m, false));
    assert(a[n + 3 + m] == 32u8);
    let end = n + 3 + m;
    assert(arg_end(a) == end);
    lemma_equals(a, 2, end);
    let e = arg_equals(a);
    assert(a[n + 1] == EQUALS);
    if e < n + 1 {
        assert(byte_at(a, e) == EQUALS);
        assert(a[e] == name[e - 1]);
        assert(name.contains(name[e - 1]));
    }
    if e > n + 1 {
        assert(byte_at(a, n + 1) != EQUALS);
    }
    let b = arg_split(a);
    let u = b.skip(1);
    assert(a[n + 2] == value[0] && value.contains(value[0]));
    assert forall|k: int| 0 <= k < n implies u[k] == name[k] && name[k] != 0 by {
        assert(a[k + 1] == name[k]);
    }
    lemma_cstr_unique(u, n);
    assert(cstr(u) =~= name);
    let v = b.skip(n + 2);
    assert forall|k: int| 0 <= k < m implies v[k] == value[k] && value[k] != 0 by {
        assert(a[n + 2 + k] == value[k]);
    }
    assert(b[n + 2 + m] == 0);
    lemma_cstr_unique(v, m);
    assert(cstr(v) =~= value);
    assert(b.skip(end + 1) =~= rest);
}

/// An argument without an equals sign behind its first character is a name without a value.
pub proof fn law_argument_without_value(name: Seq<u8>, rest: Seq<u8>)
    requires
        name.len() > 0,
        plain(name),
        !name.skip(1).contains(EQUALS),
    ensures
        ({
            let a = name + seq![32u8] + rest;
            let b = arg_split(a);
            &&& arg_start(a) == 0
            &&& !arg_has_value(a)
            &&& cstr(b) == name
            &&& b.skip(arg_end(a) + 1) == rest
        }),
{
    let a = name + seq![32u8] + rest;
    let n = name.len() as int;
    assert forall|k: int| 0 <= k < n implies #[trigger] a[k] != 0 && a[k] != QUOTE && !is_space(
        a[k],
    ) by {
        assert(a[k] == name[k] && !is_space(name[k]));
    }
    assert(!is_space(a[0]));
    lemma_arg_run(a, 0, n, false);
    assert(a[n] == 32u8);
    assert(arg_end(a) == n);
    lemma_equals(a, 1, n);
    let e = arg_equals(a);
    if e < n {
        assert(byte_at(a, e) == EQUALS);
        assert(name.skip(1)[e - 1] == EQUALS);
    }
    let b = arg_split(a);
    assert forall|k: int| 0 <= k < n implies b[k] == name[k] && name[k] != 0 by {
        assert(a[k] == name[k] && !is_space(name[k]));
    }
    lemma_cstr_unique(b, n);
    assert(cstr(b) =~= name);
    assert(b.skip(n + 1) =~= rest);
}

/// The last argument of a string reaches up to its end.
pub proof fn law_last_argument(name: Seq<u8>, value: Seq<u8>)
    requires
        name.len() > 0,
        plain(name),
        !name.contains(EQUALS),
        plain(value),
    ensures
        ({
            let a = name + seq![EQUALS] + value;
            let b = arg_split(a);
            &&& arg_start(a) == 0
            &&& arg_has_value(a) && !arg_quoted_value(a)
            &&& cstr(b) == name
            &&& b.skip(arg_equals(a) + 1) == value
            &&& arg_end(a) == a.len()
        }),
{
    let a = name + seq![EQUALS] + value;
    let n = name.len() as int;
    let m = value.len() as int;
    assert forall|k: int| 0 <= k < n + 1 + m implies #[trigger] a[k] != 0 && a[k]
        != QUOTE && !is_space(a[k]) by {
        if k < n {
            assert(a[k] == name[k] && !is_space(name[k]));
        } else if k > n {
            assert(a[k] == value[k - n - 1] && !is_space(value[k - n - 1]));
        }
    }
    assert(!is_space(a[0]));
    lemma_arg_run(a, 0, n + 1 + m, false);
    assert(arg_end(a) == n + 1 + m);
    lemma_name_end(name, a, n + 1 + m);
    let b = arg_split(a);
    assert forall|k: int| 0 <= k < n implies b[k] == name[k] && name[k] != 0 by {
        assert(a[k] == name[k] && !is_space(name[k]));
    }
    lemma_cstr_unique(b, n);
    assert(cstr(b) =~= name);
    assert(byte_at(a, n + 1) != QUOTE) by {
        assert(m == 0 || !is_space(a[n + 1]));
    }
    assert(b.skip(n + 1) =~= value);
}

/// Parsing a decimal size with a suffix gives the number times the power of 1024 that the suffix stands
/// for, and ends behind the suffix.
pub proof fn law_memparse(s: &[u8], r: (u64, usize), v: u64, k: int, c: u8, rest: Seq<u8>)
    requires
        call_ensures(memparse, (s,), r),
        0 <= k < 6,
        c == seq![0x4bu8, 0x4d, 0x47, 0x54, 0x50, 0x45][k] || c == seq![0x6bu8, 0x6d, 0x67, 0x74, 0x70, 0x65][k],
        s@ == numeral(v as int, 10) + seq![c] + rest,
    ensures
        r.0 == saturated(v as int, vstd::arithmetic::power::pow(1024, (k + 1) as nat)),
        r.1 == numeral(v as int, 10).len() + 1,
{
    law_size_with_suffix(v, k, c, rest);
}

/// Reading an integer from an option string gives it, tells how the string goes on, and moves behind
/// it.
pub proof fn law_get_option(s: &[u8], pos: &mut usize, pint: &mut i32, kind: i32, v: i32, rest: Seq<u8>)
    requires
        *old(pos) <= s@.len(),
        s@.skip(*old(pos) as int) == int_text(v as int) + rest,
        ends_number(rest),
        call_ensures(get_option, (Some(s), pos, Some(pint)), kind),
    ensures
        *final(pint) == v,
        kind == (if rest.len() > 0 && rest[0] == 0x2c {
            2
        } else if rest.len() > 0 && rest[0] == 0x2d {
            3
        } else {
            1int
        }),
        *final(pos) == *old(pos) + int_text(v as int).len() + if kind == 2 {
            1int
        } else {
            0
        },
{
    law_option(v, rest);
}

/// Reading a list of integers and ranges stores their number, and the integers in turn.
pub proof fn law_get_options(s: &[u8], nints: i32, ints: &mut [i32], end: usize, items: Seq<Item>, k: int)
    requires
        s@ == items_text(items),
        items.len() > 0,
        forall|j: int| 0 <= j < items.len() ==> item_ok(#[trigger] items[j]),
        items_ints(items).len() < nints <= old(ints)@.len(),
        call_ensures(get_options, (s, nints, ints), end),
        0 <= k < items_ints(items).len(),
    ensures
        final(ints)@[0] == items_ints(items).len(),
        final(ints)@[k + 1] == items_ints(items)[k],
        end == s@.len(),
{
    let none = Seq::<u8>::empty();
    law_list_is_collected(items, none, nints, old(ints)@);
    assert(items_text(items) + none =~= s@);
    let r = options_from(s@, 0, nints, 1, old(ints)@);
    assert(r.ints[k + 1] == items_ints(items)[k]);
}

/// Splitting an argument off gives where its name and its value begin, each ended by a NUL, and where the
/// next argument begins, past the white space.
pub proof fn law_next_arg(args: &mut [u8], r: NextArg, name: Seq<u8>, value: Seq<u8>, rest: Seq<u8>)
    requires
        name.len() > 0,
        plain(name),
        !name.contains(EQUALS),
        plain(value),
        rest.len() > 0,
        !is_space(rest[0]),
        old(args)@ == name + seq![EQUALS] + value + seq![32u8] + rest,
        call_ensures(next_arg, (args,), r),
    ensures
        r.param == 0,
        cstr(final(args)@) == name,
        r.val == Some((name.len() + 1) as usize),
        cstr(final(args)@.skip(name.len() as int + 1)) == value,
        r.next == name.len() + value.len() + 2,
        final(args)@.skip(r.next as int) == rest,
{
    let a = old(args)@;
    let n = name.len() as int;
    let m = value.len() as int;
    law_plain_argument(name, value, rest);
    lemma_plain_ends(name, value, rest);
    let b = arg_split(a);
    assert(b.skip(n + m + 2)[0] == rest[0]);
    assert(b[n + m + 2] == rest[0]);
    assert(cstr(a).len() > n + 1 + m) by {
        lemma_cstr(a);
        let k = cstr(a).len() as int;
        if k <= n + 1 + m {
            assert(byte_at(a, k) == byte_at(cstr(a), k));
            if k < n {
                assert(a[k] == name[k] && !is_space(name[k]));
            } else if n < k < n + 1 + m {
                assert(a[k] == value[k - n - 1] && !is_space(value[k - n - 1]));
            }
        }
    }
}

/// Where a plain argument has its equals sign and its end.
proof fn lemma_plain_ends(name: Seq<u8>, value: Seq<u8>, rest: Seq<u8>)
    requires
        name.len() > 0,
        plain(name),
        !name.contains(EQUALS),
        plain(value),
    ensures
        ({
            let a = name + seq![EQUALS] + value + seq![32u8] + rest;
            arg_equals(a) == name.len() && arg_end(a) == name.len() + 1 + value.len()
        }),
{
    let a = name + seq![EQUALS] + value + seq![32u8] + rest;
    let n = name.len() as int;
    let m = value.len() as int;
    assert forall|k: int| 0 <= k < n + 1 + m implies #[trigger] a[k] != 0 && a[k]
        != QUOTE && !is_space(a[k]) by {
        if k < n {
            assert(a[k] == name[k] && !is_space(name[k]));
        } else if k > n {
            assert(a[k] == value[k - n - 1] && !is_space(value[k - n - 1]));
        }
    }
    assert(!is_space(a[0]));
    lemma_arg_run(a, 0, n + 1 + m, false);
    assert(a[n + 1 + m] == 32u8);
    assert(arg_end(a) == n + 1 + m);
    lemma_name_end(name, a, n + 1 + m);
}

/// An option is found in a comma-separated list exactly if it is one of its elements.
pub proof fn law_parse_option_str(s: &[u8], option: &[u8], found: bool)
    requires
        call_ensures(parse_option_str, (s, option), found),
        nul_free(s@),
        nul_free(option@),
        !option@.contains(COMMA),
    ensures
        found <==> exists|i: int|
            {
                &&& 0 <= i < s@.len()
                &&& i == 0 || s@[i - 1] == COMMA
                &&& i + option@.len() <= s@.len()
                &&& #[trigger] s@.subrange(i, i + option@.len()) == option@
                &&& i + option@.len() == s@.len() || s@[i + option@.len()] == COMMA
            },
{
    lemma_cstr_unique(s@, s@.len() as int);
    lemma_cstr_unique(option@, option@.len() as int);
    assert(s@.take(s@.len() as int) =~= s@);
    assert(option@.take(option@.len() as int) =~= option@);
    law_option_is_found_as_an_element(s@, option@);
    if found {
        let i = choose|i: int| #[trigger] is_element_at(s@, option@, i);
        assert(s@.subrange(i, i + option@.len()) == option@);
    }
    if exists|i: int|
        {
            &&& 0 <= i < s@.len()
            &&& i == 0 || s@[i - 1] == COMMA
            &&& i + option@.len() <= s@.len()
            &&& #[trigger] s@.subrange(i, i + option@.len()) == option@
            &&& i + option@.len() == s@.len() || s@[i + option@.len()] == COMMA
        } {
        let i = choose|i: int|
            {
                &&& 0 <= i < s@.len()
                &&& i == 0 || s@[i - 1] == COMMA
                &&& i + option@.len() <= s@.len()
                &&& #[trigger] s@.subrange(i, i + option@.len()) == option@
                &&& i + option@.len() == s@.len() || s@[i + option@.len()] == COMMA
            };
        assert(is_element_at(s@, option@, i));
    }
}

/// A value in quotes is split off without them, and may hold white space.
pub proof fn law_next_arg_with_quotes(args: &mut [u8], r: NextArg, name: Seq<u8>, value: Seq<u8>, rest: Seq<u8>)
    requires
        name.len() > 0,
        plain(name),
        !name.contains(EQUALS),
        nul_free(value),
        !value.contains(QUOTE),
        old(args)@ == name + seq![EQUALS, QUOTE] + value + seq![QUOTE, 32u8] + rest,
        old(args)@.len() <= usize::MAX,
        call_ensures(next_arg, (args,), r),
    ensures
        r.param == 0,
        cstr(final(args)@) == name,
        r.val is Some,
        cstr(final(args)@.skip(r.val->0 as int)) == value,
{
    law_quoted_value(name, value, rest);
}

/// An argument in quotes is split off without them, and may hold white space.
pub proof fn law_next_arg_in_quotes(args: &mut [u8], r: NextArg, name: Seq<u8>, value: Seq<u8>, rest: Seq<u8>)
    requires
        name.len() > 0,
        nul_free(name),
        !name.contains(QUOTE),
        !name.contains(EQUALS),
        value.len() > 0,
        nul_free(value),
        !value.contains(QUOTE),
        old(args)@ == seq![QUOTE] + name + seq![EQUALS] + value + seq![QUOTE, 32u8] + rest,
        old(args)@.len() <= usize::MAX,
        call_ensures(next_arg, (args,), r),
    ensures
        r.param == 1,
        cstr(final(args)@.skip(1)) == name,
        r.val is Some,
        cstr(final(args)@.skip(r.val->0 as int)) == value,
{
    law_quoted_argument(name, value, rest);
}

} // verus!
