use everlasting::helpers::{
    base32_hash, decode, encode, hex_hash, prettier, range_to_array, try_decode, Timer,
};

#[test]
fn timer_elapses_after_its_duration() {
    let mut t = Timer::new(100, 3);
    assert!(!t.elapsed(100));
    assert!(!t.elapsed(102));
    assert!(t.elapsed(103));
    assert!(t.elapsed(500));
    t.reset(500);
    assert!(!t.elapsed(502));
    assert!(t.elapsed(503));
    // A clock that went back counts as no time passed.
    assert!(!t.elapsed(10));
    assert!(Timer::new(7, 0).elapsed(7));
}

#[test]
fn prettier_breaks_at_brackets_and_commas() {
    assert_eq!(prettier("a(b,c)".to_string()), "a(\nb,\nc\n)");
    assert_eq!(prettier("S{x}".to_string()), "S{\nx\n}");
    assert_eq!(prettier("plain".to_string()), "plain");
    assert_eq!(prettier(String::new()), "");
    assert_eq!(prettier("µ,é".to_string()), "µ,\né");
}

#[test]
fn range_to_array_takes_the_first_bytes() {
    let a: [u8; 4] = range_to_array(&[1, 2, 3, 4, 5, 6]);
    assert_eq!(a, [1, 2, 3, 4]);
    let b: [u8; 0] = range_to_array(&[9]);
    assert_eq!(b, []);
}

#[test]
fn decodes_hexadecimal_hashes() {
    let h = decode("0123456789abcdef0123456789ABCDEF01234567");
    assert_eq!(
        h,
        [
            0x01, 0x23, 0x45, 0x67, 0x89, 0xab, 0xcd, 0xef, 0x01, 0x23, 0x45, 0x67, 0x89, 0xab,
            0xcd, 0xef, 0x01, 0x23, 0x45, 0x67
        ]
    );
    assert_eq!(try_decode("0123456789abcdef0123456789abcdef0123456"), None);
    assert_eq!(try_decode("0123456789abcdef0123456789abcdef012345678"), None);
    assert_eq!(try_decode("g123456789abcdef0123456789abcdef01234567"), None);
    assert_eq!(hex_hash(b"+123456789abcdef0123456789abcdef01234567"), None);
    assert_eq!(try_decode(""), None);
}

#[test]
fn agrees_with_the_hex_crate() {
    let text = "00ff10a7DEADbeef0123456789abcdefABCDEF99";
    assert_eq!(decode(text).to_vec(), hex::decode(text).unwrap());
}

#[test]
fn decodes_base32_hashes() {
    // "AAAAAAAA" spells five zero bytes, "77777777" five bytes of ones.
    let h = base32_hash(b"AAAAAAAA77777777aaaaaaaaMFRGGZDF").unwrap();
    assert_eq!(&h[0..5], &[0, 0, 0, 0, 0]);
    assert_eq!(&h[5..10], &[255, 255, 255, 255, 255]);
    assert_eq!(&h[10..15], &[0, 0, 0, 0, 0]);
    // RFC 4648: "MFRGGZDF" is the base32 of "abcde".
    assert_eq!(&h[15..20], b"abcde");
    assert_eq!(base32_hash(b"AAAAAAAA77777777aaaaaaaaMFRGGZD1"), None);
    assert_eq!(base32_hash(b"AAAAAAAA"), None);
}

#[test]
fn url_encodes_bytes() {
    assert_eq!(encode(b"09AYay"), "09AYay");
    // `Z` and `z` are spelled out, like everything outside the plain ranges.
    assert_eq!(encode(b"Zz"), "%5A%7A");
    assert_eq!(encode(&[0x00, 0x1f, 0xff, b' ', b'-']), "%00%1F%FF%20%2D");
    assert_eq!(encode(&[]), "");
    let hash: [u8; 20] = [
        0x12, 0x34, 0x56, 0x78, 0x9a, 0xbc, 0xde, 0xf1, 0x23, 0x45, 0x67, 0x89, 0xab, 0xcd, 0xef,
        0x12, 0x34, 0x56, 0x78, 0x9a,
    ];
    assert_eq!(encode(&hash), "%124Vx%9A%BC%DE%F1%23Eg%89%AB%CD%EF%124Vx%9A");
}
