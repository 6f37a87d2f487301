use klib::cmdline::{get_option, get_options, memparse, next_arg, parse_option_str};
use klib::cstring::{at, strlen};
use klib::ctype::{
    _tolower, ctype_table, isalnum, isalpha, isascii, iscntrl, isdigit, isgraph, islower, isodigit,
    isprint, ispunct, isspace, isupper, isxdigit, toascii, tolower, toupper,
};
use klib::glob::{glob_match, glob_match_len};
use klib::strtox::{simple_strtol, simple_strtoull, skip_spaces};

#[test]
fn strings_end_at_nul() {
    assert_eq!(strlen(b"abc\0def"), 3);
    assert_eq!(strlen(b"abc"), 3);
    assert_eq!(at(b"abc", 1), b'b');
    assert_eq!(at(b"abc", 3), 0);
}

#[test]
fn classes_of_ascii_characters() {
    for c in 0..128u8 {
        assert_eq!(isalnum(c), c.is_ascii_alphanumeric());
        assert_eq!(isalpha(c), c.is_ascii_alphabetic());
        assert_eq!(iscntrl(c), c.is_ascii_control());
        assert_eq!(isgraph(c), c.is_ascii_graphic());
        assert_eq!(islower(c), c.is_ascii_lowercase());
        assert_eq!(isupper(c), c.is_ascii_uppercase());
        assert_eq!(ispunct(c), c.is_ascii_punctuation());
        assert_eq!(isxdigit(c), c.is_ascii_hexdigit());
        assert_eq!(isprint(c), c.is_ascii_graphic() || c == b' ');
        assert_eq!(isspace(c), c.is_ascii_whitespace() || c == 0x0b);
        assert_eq!(tolower(c), c.to_ascii_lowercase());
        assert_eq!(toupper(c), c.to_ascii_uppercase());
        assert!(isascii(c));
        assert_eq!(toascii(c), c);
    }
    for c in 0..=255u8 {
        assert_eq!(isdigit(c), c.is_ascii_digit());
        assert_eq!(isodigit(c), (b'0'..=b'7').contains(&c));
        assert_eq!(tolower(tolower(c)), tolower(c));
    }
}

#[test]
fn classes_of_latin_1_characters() {
    // The no-break space, a sign, letters with their cases, and the two signs among them.
    assert!(isspace(0xa0) && isprint(0xa0));
    assert!(ispunct(0xa1) && ispunct(0xbf));
    assert!(isupper(0xc0) && islower(0xe0));
    assert_eq!(tolower(0xc0), 0xe0);
    assert_eq!(toupper(0xe0), 0xc0);
    assert!(ispunct(0xd7) && ispunct(0xf7));
    assert!(!isascii(0x80));
    assert_eq!(toascii(0xc1), 0x41);
    let table = ctype_table();
    assert_eq!((table[0], table[9], table[b'a' as usize], table[0xff]), (0x08, 0x28, 0x42, 0x02));
}

#[test]
fn fast_lower_case_sets_a_bit() {
    assert_eq!(_tolower(b'A'), b'a');
    assert_eq!(_tolower(b'z'), b'z');
    assert_eq!(_tolower(b'@'), b'`');
}

#[test]
fn numbers_with_their_bases() {
    assert_eq!(simple_strtoull(b"123abc", 0), (123, 3));
    assert_eq!(simple_strtoull(b"0x1fg", 0), (0x1f, 4));
    assert_eq!(simple_strtoull(b"0X1F", 0), (0x1f, 4));
    assert_eq!(simple_strtoull(b"0178", 0), (0o17, 3));
    assert_eq!(simple_strtoull(b"0x", 0), (0, 1));
    assert_eq!(simple_strtoull(b"abc", 0), (0, 0));
    assert_eq!(simple_strtoull(b"a12", 1), (12, 3));
    assert_eq!(simple_strtol(b"-5", 0) as i64, -5);
    assert_eq!(simple_strtol(b"7", 0), 7);
    assert_eq!(skip_spaces(b"  \tx", 0), 3);
    assert_eq!(skip_spaces(b"x", 0), 0);
}

#[test]
fn options_are_told_apart() {
    let texts: [(&[u8], i32, i32, usize); 8] = [
        (b"", 0, 99, 0),
        (b"x", 0, 0, 0),
        (b"-", 0, 0, 1),
        (b"12", 1, 12, 2),
        (b"-12", 1, -12, 3),
        (b"12,", 2, 12, 3),
        (b"12-34", 3, 12, 2),
        (b"0x10,", 2, 16, 5),
    ];
    for (text, kind, value, rest) in texts {
        let mut pos = 0;
        let mut v = 99;
        assert_eq!(get_option(Some(text), &mut pos, Some(&mut v)), kind);
        assert_eq!((v, pos), (value, rest), "{}", String::from_utf8_lossy(text));
    }
    let mut pos = 0;
    let mut v = 99;
    assert_eq!(get_option(None, &mut pos, Some(&mut v)), 0);
    assert_eq!((v, pos), (99, 0));
    assert_eq!(get_option(Some(b"5,"), &mut pos, None), 2);
    assert_eq!(pos, 2);
}

#[test]
fn lists_and_ranges_of_integers() {
    let mut ints = [0; 8];
    assert_eq!(get_options(b"1,3-5,8", 8, &mut ints), 7);
    assert_eq!(ints[..6], [5, 1, 3, 4, 5, 8]);
    // A full array ends the parse.
    let mut ints = [0; 3];
    assert_eq!(get_options(b"1,2,3", 3, &mut ints), 4);
    assert_eq!(ints, [2, 1, 2]);
    // A range the wrong way round, or too long for the array, ends it too.
    let mut ints = [0; 4];
    assert_eq!(get_options(b"1,5-3,7", 4, &mut ints), 4);
    assert_eq!(ints[0], 1);
    // Only counted.
    let mut ints = [0; 1];
    assert_eq!(get_options(b"1,3-5,8", 0, &mut ints), 7);
    assert_eq!(ints, [5]);
}

#[test]
fn memory_sizes_have_suffixes() {
    assert_eq!(memparse(b"64"), (64, 2));
    assert_eq!(memparse(b"64K@"), (64 << 10, 3));
    assert_eq!(memparse(b"64k"), (64 << 10, 3));
    assert_eq!(memparse(b"2M"), (2 << 20, 2));
    assert_eq!(memparse(b"2g"), (2 << 30, 2));
    assert_eq!(memparse(b"1T"), (1 << 40, 2));
    assert_eq!(memparse(b"1P"), (1 << 50, 2));
    assert_eq!(memparse(b"1E"), (1 << 60, 2));
    // What does not fit becomes the largest size.
    assert_eq!(memparse(b"16E"), (u64::MAX, 3));
    assert_eq!(memparse(b"0x10K"), (16 << 10, 5));
}

#[test]
fn option_is_an_element_of_a_list() {
    assert!(parse_option_str(b"foo,bar,baz", b"bar"));
    assert!(parse_option_str(b"foo,bar,baz", b"foo"));
    assert!(parse_option_str(b"foo,bar,baz", b"baz"));
    assert!(!parse_option_str(b"foo,bar,baz", b"ba"));
    assert!(!parse_option_str(b"foo,barn", b"bar"));
    assert!(!parse_option_str(b"", b"bar"));
}

/// The argument that is split off, as its parts.
fn split(text: &[u8]) -> (Vec<u8>, Option<Vec<u8>>, Vec<u8>) {
    let mut buf = text.to_vec();
    let arg = next_arg(&mut buf);
    let part = |from: usize| buf[from..from + strlen(&buf[from..])].to_vec();
    (part(arg.param), arg.val.map(part), part(arg.next))
}

#[test]
fn arguments_are_split_off() {
    assert_eq!(split(b"a=1 b"), (b"a".to_vec(), Some(b"1".to_vec()), b"b".to_vec()));
    assert_eq!(split(b"quiet  b"), (b"quiet".to_vec(), None, b"b".to_vec()));
    assert_eq!(split(b"a=\"x y\" b"), (b"a".to_vec(), Some(b"x y".to_vec()), b"b".to_vec()));
    assert_eq!(split(b"\"a=x y\" b"), (b"a".to_vec(), Some(b"x y".to_vec()), b"b".to_vec()));
    assert_eq!(split(b"a=1=2"), (b"a".to_vec(), Some(b"1=2".to_vec()), b"".to_vec()));
    assert_eq!(split(b"a="), (b"a".to_vec(), Some(b"".to_vec()), b"".to_vec()));
}

#[test]
fn globs() {
    let yes: [(&[u8], &[u8]); 14] = [
        (b"a", b"a"),
        (b"", b""),
        (b"*", b""),
        (b"?", b"a"),
        (b"*a", b"aa"),
        (b"*ab*cd*", b"abcabcabcabcdefg"),
        (b"[a-c]b", b"bb"),
        (b"[!a-c]b", b"db"),
        (b"[^a-c]b", b"^b"),
        (b"[]a]", b"]"),
        (b"[a-]", b"-"),
        (b"\\*", b"*"),
        (b"[", b"["),
        (b"[a", b"[a"),
    ];
    for (pat, s) in yes {
        assert!(glob_match(pat, s), "{}", String::from_utf8_lossy(pat));
    }
    let no: [(&[u8], &[u8]); 8] = [
        (b"a", b"b"),
        (b"a", b"aa"),
        (b"a", b""),
        (b"?", b""),
        (b"?", b"aa"),
        (b"[!a-c]b", b"ab"),
        (b"*ab*cd*", b"abcabcabcabcefg"),
        (b"\\*", b"a"),
    ];
    for (pat, s) in no {
        assert!(!glob_match(pat, s), "{}", String::from_utf8_lossy(pat));
    }
}

#[test]
fn glob_of_a_part_of_a_string() {
    assert!(glob_match_len(b"ab*", b"abcdef", 3));
    assert!(glob_match_len(b"abc", b"abcdef", 3));
    assert!(!glob_match_len(b"abc", b"abcdef", 4));
    assert!(glob_match_len(b"", b"abcdef", 0));
}
