use klib::base64::{base64_decode, base64_encode, Base64Variant};
use klib::bcd::{_bcd2bin, _bin2bcd};
use klib::uuid::{
    generate_random_guid, generate_random_uuid, guid_gen, guid_index, guid_null, guid_parse, guid_t,
    uuid_gen, uuid_index, uuid_is_valid, uuid_null, uuid_parse, uuid_t, EINVAL, UUID_STRING_LEN,
};

fn encode(src: &[u8], padding: bool, variant: Base64Variant) -> Vec<u8> {
    let mut dst = vec![0u8; 64];
    let n = base64_encode(src, &mut dst, padding, variant);
    dst.truncate(n as usize);
    dst
}

fn decode(src: &[u8], padding: bool, variant: Base64Variant) -> Option<Vec<u8>> {
    let mut dst = vec![0u8; 64];
    let n = base64_decode(src, &mut dst, padding, variant);
    if n < 0 {
        assert_eq!(n, -1);
        return None;
    }
    dst.truncate(n as usize);
    Some(dst)
}

#[test]
fn base64_known_texts() {
    let texts: [(&[u8], &[u8]); 7] = [
        (b"", b""),
        (b"f", b"Zg=="),
        (b"fo", b"Zm8="),
        (b"foo", b"Zm9v"),
        (b"foob", b"Zm9vYg=="),
        (b"fooba", b"Zm9vYmE="),
        (b"foobar", b"Zm9vYmFy"),
    ];
    for (plain, coded) in texts {
        assert_eq!(encode(plain, true, Base64Variant::Standard), coded);
        assert_eq!(decode(coded, true, Base64Variant::Standard).unwrap(), plain);
    }
}

#[test]
fn base64_without_padding() {
    assert_eq!(encode(b"f", false, Base64Variant::Standard), b"Zg");
    assert_eq!(encode(b"fo", false, Base64Variant::Standard), b"Zm8");
    assert_eq!(decode(b"Zg", false, Base64Variant::Standard).unwrap(), b"f");
    assert_eq!(decode(b"Zm8", false, Base64Variant::Standard).unwrap(), b"fo");
}

#[test]
fn base64_variants_differ_in_two_characters() {
    let bytes = [0xfb, 0xff, 0xbf];
    assert_eq!(encode(&bytes, true, Base64Variant::Standard), b"+/+/");
    assert_eq!(encode(&bytes, true, Base64Variant::UrlSafe), b"-_-_");
    assert_eq!(encode(&bytes, true, Base64Variant::Imap), b"+,+,");
    assert_eq!(decode(b"-_-_", true, Base64Variant::UrlSafe).unwrap(), bytes);
    assert_eq!(decode(b"+,+,", true, Base64Variant::Imap).unwrap(), bytes);
    assert!(decode(b"-_-_", true, Base64Variant::Standard).is_none());
}

#[test]
fn base64_refuses_bad_input() {
    // A character that is not in the table.
    assert!(decode(b"Zm9*", true, Base64Variant::Standard).is_none());
    // Padding that is missing, or not wanted, or in the middle.
    assert!(decode(b"Zg", true, Base64Variant::Standard).is_none());
    assert!(decode(b"Zg==", false, Base64Variant::Standard).is_none());
    assert!(decode(b"Zg==Zg==", true, Base64Variant::Standard).is_none());
    // One character is too few, and bits that are left over have to be zero.
    assert!(decode(b"Z", false, Base64Variant::Standard).is_none());
    assert!(decode(b"Zh", false, Base64Variant::Standard).is_none());
    assert!(decode(b"Zm9", false, Base64Variant::Standard).is_none());
    assert!(decode(b"Zh==", true, Base64Variant::Standard).is_none());
}

#[test]
fn base64_fills_a_buffer_exactly() {
    let mut one = [0; 1];
    assert_eq!(base64_decode(b"QQ==", &mut one, true, Base64Variant::Standard), 1);
    assert_eq!(one, *b"A");
    let mut four = [0; 4];
    assert_eq!(base64_decode(b"Zm9vYg", &mut four, false, Base64Variant::Standard), 4);
    assert_eq!(four, *b"foob");
    // What is refused at once needs no room.
    assert_eq!(base64_decode(b"Q*==", &mut [], true, Base64Variant::Standard), -1);
}

#[test]
fn base64_round_trip_both_ways() {
    let bytes: Vec<u8> = (0..40).map(|i| (i * 37 + 11) as u8).collect();
    for n in 0..=bytes.len() {
        for padding in [false, true] {
            let coded = encode(&bytes[..n], padding, Base64Variant::UrlSafe);
            let plain = decode(&coded, padding, Base64Variant::UrlSafe).unwrap();
            assert_eq!(plain, &bytes[..n]);
            assert_eq!(encode(&plain, padding, Base64Variant::UrlSafe), coded);
        }
    }
}

#[test]
fn bcd_values() {
    assert_eq!(_bcd2bin(0x00), 0);
    assert_eq!(_bcd2bin(0x42), 42);
    assert_eq!(_bcd2bin(0x99), 99);
    // Nibbles beyond nine count as they are.
    assert_eq!(_bcd2bin(0xff), 165);
    assert_eq!(_bin2bcd(0), 0x00);
    assert_eq!(_bin2bcd(42), 0x42);
    assert_eq!(_bin2bcd(99), 0x99);
    for val in 0..100 {
        assert_eq!(_bcd2bin(_bin2bcd(val)), val);
    }
}

const TEXT: &[u8] = b"c33f4995-3701-450e-9fbf-206a2e98e576";

#[test]
fn uuid_string_is_parsed() {
    let mut u = uuid_null();
    assert!(uuid_is_valid(TEXT));
    assert_eq!(TEXT.len(), UUID_STRING_LEN);
    assert_eq!(uuid_parse(TEXT, &mut u), 0);
    assert_eq!(
        u.b,
        [
            0xc3, 0x3f, 0x49, 0x95, 0x37, 0x01, 0x45, 0x0e, 0x9f, 0xbf, 0x20, 0x6a, 0x2e, 0x98, 0xe5,
            0x76
        ]
    );
}

#[test]
fn guid_string_is_parsed_in_its_byte_order() {
    let mut u = guid_null();
    assert_eq!(guid_parse(TEXT, &mut u), 0);
    assert_eq!(
        u.b,
        [
            0x95, 0x49, 0x3f, 0xc3, 0x01, 0x37, 0x0e, 0x45, 0x9f, 0xbf, 0x20, 0x6a, 0x2e, 0x98, 0xe5,
            0x76
        ]
    );
}

#[test]
fn upper_case_digits_are_valid() {
    let mut u = uuid_null();
    assert_eq!(uuid_parse(b"C33F4995-3701-450E-9FBF-206A2E98E576", &mut u), 0);
    assert_eq!(u.b[0], 0xc3);
    assert_eq!(u.b[14], 0xe5);
}

#[test]
fn bad_uuid_strings_are_refused() {
    let bad: [&[u8]; 5] = [
        b"",
        b"c33f4995-3701-450e-9fbf206a2e98e576 ",
        b"c33f4995-3701-450e-9fbf-206a2e98e57",
        b"c33f4995-3701-450e-9fbf-206a2e98e57\0",
        b"g33f4995-3701-450e-9fbf-206a2e98e576",
    ];
    for text in bad {
        let mut u = uuid_t { b: [7; 16] };
        let mut g = guid_t { b: [7; 16] };
        assert!(!uuid_is_valid(text));
        assert_eq!(uuid_parse(text, &mut u), -EINVAL);
        assert_eq!(guid_parse(text, &mut g), -EINVAL);
        assert_eq!(u.b, [7; 16]);
        assert_eq!(g.b, [7; 16]);
    }
    // What follows a string is not looked at.
    assert!(uuid_is_valid(b"c33f4995-3701-450e-9fbf-206a2e98e576-and-more"));
}

#[test]
fn random_identifiers_have_version_and_variant() {
    let random = [0xff; 16];
    let mut b = [0; 16];
    generate_random_uuid(&mut b, random);
    assert_eq!((b[6], b[7], b[8], b[9]), (0x4f, 0xff, 0xbf, 0xff));
    generate_random_guid(&mut b, random);
    assert_eq!((b[6], b[7], b[8], b[9]), (0xff, 0x4f, 0xbf, 0xff));
    let mut g = guid_null();
    guid_gen(&mut g, [0x12; 16]);
    assert_eq!((g.b[6], g.b[7], g.b[8], g.b[0]), (0x12, 0x42, 0x92, 0x12));
    let mut u = uuid_null();
    uuid_gen(&mut u, [0; 16]);
    assert_eq!((u.b[6], u.b[7], u.b[8], u.b[0]), (0x40, 0, 0x80, 0));
}

#[test]
fn byte_orders_are_permutations() {
    let mut seen = [false; 16];
    for i in 0..16 {
        assert_eq!(uuid_index(i), i);
        seen[guid_index(i)] = true;
    }
    assert_eq!(seen, [true; 16]);
    assert_eq!((guid_index(0), guid_index(3), guid_index(4), guid_index(7)), (3, 0, 5, 6));
    assert_eq!(guid_null().b, [0; 16]);
    assert_eq!(uuid_null().b, [0; 16]);
}
