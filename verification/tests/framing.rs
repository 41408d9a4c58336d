use oxid::numeral::{parse_numeral, push_numeral, Radix};
use oxid::objects::object::{frame, unframe};
use oxid::objects::ObjectType;
use oxid::Error;

#[test]
fn frame_writes_tag_length_and_payload() {
    assert_eq!(frame(ObjectType::Blob, b"Hello World"), b"blob 11\0Hello World".to_vec());
    assert_eq!(frame(ObjectType::Tree, b""), b"tree 0\0".to_vec());
    assert_eq!(frame(ObjectType::Commit, b"x"), b"commit 1\0x".to_vec());
    assert_eq!(frame(ObjectType::Tag, &[0u8; 100]).len(), 8 + 100);
    assert_eq!(&frame(ObjectType::Tag, &[0u8; 100])[..8], b"tag 100\0");
}

#[test]
fn unframe_inverts_frame() {
    let payloads: [&[u8]; 5] = [b"", b"Hello World", b"\0\0\0", b"blob 3\0abc", &[255u8; 1000]];
    for kind in [ObjectType::Blob, ObjectType::Tree, ObjectType::Commit, ObjectType::Tag] {
        for payload in payloads {
            let framed = frame(kind, payload);
            assert_eq!(unframe(&framed), Ok((kind, payload.to_vec())));
        }
    }
}

#[test]
fn unframe_rejects_tampered_length() {
    assert_eq!(unframe(b"blob 12\0Hello World"), Err(Error::MalformedObject));
    assert_eq!(unframe(b"blob 10\0Hello World"), Err(Error::MalformedObject));
    assert_eq!(unframe(b"blob 011\0Hello World"), Err(Error::MalformedObject));
    assert_eq!(unframe(b"blob +11\0Hello World"), Err(Error::MalformedObject));
    assert_eq!(unframe(b"blob 1x\0Hello World"), Err(Error::MalformedObject));
    assert_eq!(unframe(b"blob \0"), Err(Error::MalformedObject));
    assert_eq!(
        unframe(b"blob 99999999999999999999999999\0Hello World"),
        Err(Error::MalformedObject)
    );
}

#[test]
fn unframe_rejects_broken_headers() {
    assert_eq!(unframe(b""), Err(Error::MalformedObject));
    assert_eq!(unframe(b"blob 11 Hello World"), Err(Error::MalformedObject));
    assert_eq!(unframe(b"blob11\0Hello World"), Err(Error::MalformedObject));
    assert_eq!(unframe(b"widget 11\0Hello World"), Err(Error::MalformedObject));
    assert_eq!(unframe(b"Blob 11\0Hello World"), Err(Error::MalformedObject));
    assert_eq!(unframe(b" 11\0Hello World"), Err(Error::MalformedObject));
    assert_eq!(unframe(b"blob  11\0Hello World"), Err(Error::MalformedObject));
    assert_eq!(unframe(b"blob 11 \0Hello World"), Err(Error::MalformedObject));
    assert_eq!(unframe(b"\0blob 0"), Err(Error::MalformedObject));
}

#[test]
fn unframe_accepts_payload_with_zero_bytes_and_spaces() {
    assert_eq!(unframe(b"tree 5\0a \0 b"), Ok((ObjectType::Tree, b"a \0 b".to_vec())));
    assert_eq!(unframe(b"tag 0\0"), Ok((ObjectType::Tag, Vec::new())));
}

fn numeral_of(n: u64, radix: Radix) -> Vec<u8> {
    let mut out = b">".to_vec();
    push_numeral(&mut out, n, radix);
    assert_eq!(out[0], b'>');
    out[1..].to_vec()
}

#[test]
fn numerals_are_canonical() {
    assert_eq!(numeral_of(0, Radix::Decimal), b"0".to_vec());
    assert_eq!(numeral_of(7, Radix::Decimal), b"7".to_vec());
    assert_eq!(numeral_of(10, Radix::Decimal), b"10".to_vec());
    assert_eq!(numeral_of(1700000000, Radix::Decimal), b"1700000000".to_vec());
    assert_eq!(numeral_of(u64::MAX, Radix::Decimal), b"18446744073709551615".to_vec());
    assert_eq!(numeral_of(0, Radix::Octal), b"0".to_vec());
    assert_eq!(numeral_of(8, Radix::Octal), b"10".to_vec());
    assert_eq!(numeral_of(0o100644, Radix::Octal), b"100644".to_vec());
    assert_eq!(numeral_of(0o40000, Radix::Octal), b"40000".to_vec());
    assert_eq!(numeral_of(u64::MAX, Radix::Octal), b"1777777777777777777777".to_vec());
}

#[test]
fn numerals_parse_back() {
    let input = b"ab100644cd";
    assert_eq!(parse_numeral(input, 2, 8, Radix::Octal), Some(0o100644));
    assert_eq!(parse_numeral(input, 2, 8, Radix::Decimal), Some(100644));
    assert_eq!(parse_numeral(input, 3, 5, Radix::Decimal), None);
    assert_eq!(parse_numeral(input, 3, 4, Radix::Decimal), Some(0));
    assert_eq!(parse_numeral(input, 2, 2, Radix::Decimal), None);
    assert_eq!(parse_numeral(input, 1, 8, Radix::Decimal), None);
    assert_eq!(parse_numeral(input, 2, 9, Radix::Decimal), None);
    assert_eq!(parse_numeral(b"8", 0, 1, Radix::Octal), None);
    assert_eq!(parse_numeral(b"9", 0, 1, Radix::Decimal), Some(9));
    assert_eq!(parse_numeral(b"18446744073709551615", 0, 20, Radix::Decimal), Some(u64::MAX));
    assert_eq!(parse_numeral(b"18446744073709551616", 0, 20, Radix::Decimal), None);
    assert_eq!(parse_numeral(b"1777777777777777777777", 0, 22, Radix::Octal), Some(u64::MAX));
    assert_eq!(parse_numeral(b"2000000000000000000000", 0, 22, Radix::Octal), None);
}
