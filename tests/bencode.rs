use torrent_tracker::bencode::{bytes_lt, decode, dict_insert, encode, DecodeErrorKind, Value};

fn kind_of(input: &[u8]) -> DecodeErrorKind {
    match decode(input) {
        Err(e) => e.kind,
        Ok(v) => panic!("decoded {:?}", v),
    }
}

#[test]
fn round_trip_canonical_dictionary() {
    let input = b"d3:cow3:moo4:spaml1:a1:bee";
    let v = decode(input).unwrap();
    assert_eq!(encode(&v), input.to_vec());
}

#[test]
fn round_trip_nested_values() {
    let input = b"li-42ei0elede0:d1:xi7eee";
    let v = decode(input).unwrap();
    assert_eq!(encode(&v), input.to_vec());
}

#[test]
fn decodes_negative_integer() {
    match decode(b"i-42e").unwrap() {
        Value::Int(n) => assert_eq!(n, -42),
        other => panic!("unexpected {:?}", other),
    }
}

#[test]
fn decodes_extreme_integers() {
    match decode(b"i-9223372036854775808e").unwrap() {
        Value::Int(n) => assert_eq!(n, i64::MIN),
        other => panic!("unexpected {:?}", other),
    }
    match decode(b"i9223372036854775807e").unwrap() {
        Value::Int(n) => assert_eq!(n, i64::MAX),
        other => panic!("unexpected {:?}", other),
    }
}

#[test]
fn decodes_byte_string() {
    match decode(b"4:spam").unwrap() {
        Value::Bytes(b) => assert_eq!(b, b"spam".to_vec()),
        other => panic!("unexpected {:?}", other),
    }
}

#[test]
fn short_string_is_malformed() {
    let e = decode(b"4:abc").unwrap_err();
    assert_eq!(e.kind, DecodeErrorKind::LengthBeyondInput);
    assert_eq!(e.offset, 0);
}

#[test]
fn huge_claimed_length_fails_fast() {
    assert_eq!(kind_of(b"18446744073709551615:a"), DecodeErrorKind::LengthBeyondInput);
}

#[test]
fn leading_zeros_are_malformed() {
    assert_eq!(kind_of(b"i03e"), DecodeErrorKind::LeadingZero);
    assert_eq!(kind_of(b"03:abc"), DecodeErrorKind::LeadingZero);
}

#[test]
fn negative_zero_is_malformed() {
    assert_eq!(kind_of(b"i-0e"), DecodeErrorKind::NegativeZero);
}

#[test]
fn integer_overflow_is_malformed() {
    assert_eq!(kind_of(b"i9223372036854775808e"), DecodeErrorKind::Overflow);
    assert_eq!(kind_of(b"i-9223372036854775809e"), DecodeErrorKind::Overflow);
}

#[test]
fn unterminated_containers_are_malformed() {
    assert_eq!(kind_of(b"l1:a"), DecodeErrorKind::UnexpectedEnd);
    assert_eq!(kind_of(b"d1:ai1e"), DecodeErrorKind::UnexpectedEnd);
    assert_eq!(kind_of(b""), DecodeErrorKind::UnexpectedEnd);
}

#[test]
fn non_string_key_is_malformed() {
    assert_eq!(kind_of(b"di1ei2ee"), DecodeErrorKind::KeyNotString);
}

#[test]
fn unsorted_or_repeated_keys_are_malformed() {
    assert_eq!(kind_of(b"d1:bi1e1:ai2ee"), DecodeErrorKind::UnsortedKeys);
    assert_eq!(kind_of(b"d1:ai1e1:ai2ee"), DecodeErrorKind::UnsortedKeys);
}

#[test]
fn trailing_bytes_are_malformed() {
    assert_eq!(kind_of(b"i1ei2e"), DecodeErrorKind::TrailingBytes);
}

#[test]
fn unknown_byte_is_malformed() {
    assert_eq!(kind_of(b"x"), DecodeErrorKind::UnexpectedByte);
}

#[test]
fn encodes_values() {
    let v = Value::List(vec![
        Value::Int(-7),
        Value::Bytes(b"ab".to_vec()),
        Value::Dict(vec![(b"k".to_vec(), Value::Int(0))]),
    ]);
    assert_eq!(encode(&v), b"li-7e2:abd1:ki0eee".to_vec());
    assert_eq!(encode(&Value::Int(i64::MIN)), b"i-9223372036854775808e".to_vec());
}

#[test]
fn insertion_order_does_not_change_encoding() {
    let mut es = Vec::new();
    dict_insert(&mut es, b"zeta".to_vec(), Value::Int(1));
    dict_insert(&mut es, b"alpha".to_vec(), Value::Int(2));
    dict_insert(&mut es, b"mid".to_vec(), Value::Int(3));
    dict_insert(&mut es, b"al".to_vec(), Value::Int(5));
    dict_insert(&mut es, b"alpha".to_vec(), Value::Int(4));
    let out = encode(&Value::Dict(es));
    assert_eq!(out, b"d2:ali5e5:alphai4e3:midi3e4:zetai1ee".to_vec());
    let v = decode(&out).unwrap();
    assert_eq!(encode(&v), out);
}

#[test]
fn byte_order_of_keys() {
    assert!(bytes_lt(b"a", b"ab"));
    assert!(!bytes_lt(b"ab", b"a"));
    assert!(bytes_lt(b"Z", b"a"));
    assert!(!bytes_lt(b"same", b"same"));
    assert!(bytes_lt(b"", b"\x00"));
}

#[test]
fn errors_name_their_offset() {
    let e = decode(b"li1ei03ee").unwrap_err();
    assert_eq!((e.offset, e.kind), (5, DecodeErrorKind::LeadingZero));
    let e = decode(b"d8:announce10:udp://x:80").unwrap_err();
    assert_eq!((e.offset, e.kind), (24, DecodeErrorKind::UnexpectedEnd));
    let e = decode(b"d1:al1:x").unwrap_err();
    assert_eq!((e.offset, e.kind), (8, DecodeErrorKind::UnexpectedEnd));
    let e = decode(b"di1ei2ee").unwrap_err();
    assert_eq!((e.offset, e.kind), (1, DecodeErrorKind::KeyNotString));
    let e = decode(b"l4:abc").unwrap_err();
    assert_eq!((e.offset, e.kind), (1, DecodeErrorKind::LengthBeyondInput));
    let e = decode(b"li-0ee").unwrap_err();
    assert_eq!((e.offset, e.kind), (1, DecodeErrorKind::NegativeZero));
}
