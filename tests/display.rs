use bittorrent_starter_rust::codec::decode_bencoded_value;
use bittorrent_starter_rust::hex::DisplayHex;
use bittorrent_starter_rust::value::Value;

#[test]
fn display_of_nested_values() {
    let (value, _) = decode_bencoded_value(b"l5:helloi52ee").unwrap();
    assert_eq!(value.to_string(), "[r#\"hello\"#,52]");
    let (value, _) = decode_bencoded_value(b"d3:foo3:bar5:helloi-52ee").unwrap();
    assert_eq!(value.to_string(), "{\"foo\":r#\"bar\"#,\"hello\":-52}");
    assert_eq!(Value::List(vec![]).to_string(), "[]");
    assert_eq!(Value::Dictionary(vec![]).to_string(), "{}");
}

#[test]
fn display_replaces_invalid_utf8() {
    assert_eq!(Value::Bytes(vec![b'a', 0xff]).to_string(), "r#\"a\u{FFFD}\"#");
    assert_eq!(
        Value::Dictionary(vec![(vec![0xc3], Value::Integer(0))]).to_string(),
        "{\"\u{FFFD}\":0}"
    );
}

#[test]
fn display_of_extreme_integers() {
    assert_eq!(Value::Integer(i64::MIN).to_string(), "-9223372036854775808");
    assert_eq!(Value::Integer(0).to_string(), "0");
}

#[test]
fn hex_display() {
    let bytes: &[u8] = &[0x00, 0x0f, 0xab, 0xff];
    assert_eq!(DisplayHex::from(bytes).to_string(), "000fabff");
    assert_eq!(DisplayHex::from(&[][..]).to_string(), "");
}
