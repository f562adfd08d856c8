use bittorrent_starter_rust::codec::{decode_bencoded_value, encode_bencoded_value, DecodeError};
use bittorrent_starter_rust::value::Value;

fn bytes(s: &str) -> Value {
    Value::Bytes(s.as_bytes().to_vec())
}

#[test]
fn test_string() {
    let encoded_value = b"5:hello";
    let (value, _) = decode_bencoded_value(encoded_value).unwrap();
    assert_eq!(value, Value::Bytes(b"hello".to_vec()));
    assert_eq!(encoded_value, &encode_bencoded_value(&value)[..]);
}

#[test]
fn test_number() {
    let encoded_value = b"i52e";
    let (value, _) = decode_bencoded_value(encoded_value).unwrap();
    assert_eq!(value, Value::Integer(52));
    assert_eq!(encoded_value, &encode_bencoded_value(&value)[..]);

    let encoded_value = b"i-52e";
    let (value, _) = decode_bencoded_value(encoded_value).unwrap();
    assert_eq!(value, Value::Integer(-52));
    assert_eq!(encoded_value, &encode_bencoded_value(&value)[..]);
}

#[test]
fn test_list() {
    let encoded_value = b"l5:helloi52ee";
    let (value, _) = decode_bencoded_value(encoded_value).unwrap();
    assert_eq!(value, Value::List(vec![bytes("hello"), Value::Integer(52)]));
    assert_eq!(encoded_value, &encode_bencoded_value(&value)[..]);
}

#[test]
fn test_dictionary() {
    let encoded_value = b"d3:foo3:bar5:helloi52ee";
    let (value, _) = decode_bencoded_value(encoded_value).unwrap();
    let map = vec![
        (b"foo".to_vec(), Value::Bytes(b"bar".to_vec())),
        (b"hello".to_vec(), Value::Integer(52)),
    ];
    assert_eq!(value, Value::Dictionary(map));
    assert_eq!(encoded_value, &encode_bencoded_value(&value)[..]);
}

#[test]
fn primitives_report_bytes_consumed() {
    assert_eq!(decode_bencoded_value(b"5:hello"), Ok((bytes("hello"), 7)));
    assert_eq!(decode_bencoded_value(b"i52e"), Ok((Value::Integer(52), 4)));
    assert_eq!(decode_bencoded_value(b"i-52e"), Ok((Value::Integer(-52), 5)));
    assert_eq!(decode_bencoded_value(b"0:"), Ok((bytes(""), 2)));
    assert_eq!(decode_bencoded_value(b"i0e"), Ok((Value::Integer(0), 3)));
}

#[test]
fn trailing_bytes_are_left_alone() {
    assert_eq!(decode_bencoded_value(b"i7exyz"), Ok((Value::Integer(7), 3)));
    assert_eq!(decode_bencoded_value(b"3:abcd"), Ok((bytes("abc"), 5)));
}

#[test]
fn nested_list() {
    let (value, used) = decode_bencoded_value(b"l5:helloi52ee").unwrap();
    assert_eq!(used, 13);
    assert_eq!(value.into_list(), Some(vec![bytes("hello"), Value::Integer(52)]));
}

#[test]
fn canonical_input_reencodes_identically() {
    for input in [
        &b"d3:foo3:bar5:helloi52ee"[..],
        b"le",
        b"de",
        b"lli1eei2ed1:ai-3eee",
        b"d1:ad1:bi1eee",
        b"i9223372036854775807e",
        b"i-9223372036854775808e",
    ] {
        let (value, used) = decode_bencoded_value(input).unwrap();
        assert_eq!(used, input.len());
        assert_eq!(encode_bencoded_value(&value), input.to_vec());
    }
}

#[test]
fn round_trip_of_constructed_value() {
    let value = Value::List(vec![
        Value::Integer(-1),
        Value::Integer(i64::MAX),
        Value::Bytes(vec![0, 255, b':', b'e']),
        Value::Dictionary(vec![
            (b"a".to_vec(), Value::List(vec![])),
            (b"ab".to_vec(), Value::Integer(10)),
            (b"b".to_vec(), Value::Dictionary(vec![])),
        ]),
    ]);
    let encoded = encode_bencoded_value(&value);
    assert_eq!(decode_bencoded_value(&encoded), Ok((value, encoded.len())));
}

#[test]
fn encoding_of_each_kind() {
    assert_eq!(encode_bencoded_value(&bytes("spam")), b"4:spam".to_vec());
    assert_eq!(encode_bencoded_value(&Value::Integer(-3)), b"i-3e".to_vec());
    assert_eq!(encode_bencoded_value(&Value::Integer(1234567890)), b"i1234567890e".to_vec());
    assert_eq!(encode_bencoded_value(&Value::List(vec![])), b"le".to_vec());
    assert_eq!(
        encode_bencoded_value(&Value::Bytes(vec![b'x'; 12])),
        b"12:xxxxxxxxxxxx".to_vec()
    );
}

#[test]
fn dictionary_keys_come_out_sorted() {
    let (value, _) = decode_bencoded_value(b"d1:bi2e1:ai1e2:aai3ee").unwrap();
    assert_eq!(
        value,
        Value::Dictionary(vec![
            (b"a".to_vec(), Value::Integer(1)),
            (b"aa".to_vec(), Value::Integer(3)),
            (b"b".to_vec(), Value::Integer(2)),
        ])
    );
    assert_eq!(encode_bencoded_value(&value), b"d1:ai1e2:aai3e1:bi2ee".to_vec());
}

#[test]
fn repeated_key_keeps_last_value() {
    let (value, _) = decode_bencoded_value(b"d1:ai1e1:ai2ee").unwrap();
    assert_eq!(value, Value::Dictionary(vec![(b"a".to_vec(), Value::Integer(2))]));
}

#[test]
fn malformed_input_is_rejected() {
    for input in [
        &b""[..],
        b"x",
        b"e",
        b"5:hi",
        b"5hello",
        b"i52",
        b"ie",
        b"i-e",
        b"i-0e",
        b"i03e",
        b"i--1e",
        b"i9223372036854775808e",
        b"i-9223372036854775809e",
        b"l5:hello",
        b"li1e",
        b"d3:foo",
        b"di1ei2ee",
        b"d3:fooe",
        b"99999999999999999999999:x",
    ] {
        assert_eq!(decode_bencoded_value(input), Err(DecodeError), "{:?}", input);
    }
}

#[test]
fn length_prefix_with_leading_zero_is_read() {
    assert_eq!(decode_bencoded_value(b"03:abc"), Ok((bytes("abc"), 6)));
}

#[test]
fn conversions_pick_their_kind() {
    assert_eq!(bytes("x").into_bytes(), Some(b"x".to_vec()));
    assert_eq!(Value::Integer(3).into_bytes(), None);
    assert_eq!(Value::Integer(3).into_integer(), Some(3));
    assert_eq!(bytes("x").into_integer(), None);
    assert_eq!(Value::List(vec![]).into_list(), Some(vec![]));
    assert_eq!(Value::Dictionary(vec![]).into_list(), None);
    assert_eq!(Value::Dictionary(vec![]).into_dictionary(), Some(vec![]));
    assert_eq!(Value::List(vec![]).into_dictionary(), None);
}
