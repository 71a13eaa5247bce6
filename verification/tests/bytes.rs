use serial_mock_service::bytes::{base64_bytes, decode_hex, Bytes, BytesRepr, TaggedBytes};

fn text_field(map: &serde_yaml::Mapping, key: &str) -> Option<String> {
    map.get(key).and_then(|v| v.as_str()).map(String::from)
}

fn repr(value: &serde_yaml::Value) -> Result<BytesRepr, String> {
    if let Some(s) = value.as_str() {
        return Ok(BytesRepr::Plain(s.to_string()));
    }
    let map = value.as_mapping().ok_or("neither a string nor a map")?;
    let bytes = map.get("bytes").and_then(|v| v.as_sequence()).map(|items| {
        items.iter().map(|b| b.as_u64().unwrap() as u8).collect::<Vec<u8>>()
    });
    Ok(BytesRepr::Tagged(TaggedBytes {
        hex: text_field(map, "hex"),
        base64: text_field(map, "base64"),
        utf8: text_field(map, "utf8"),
        bytes,
    }))
}

fn de(yaml: &str) -> Result<Bytes, String> {
    let value: serde_yaml::Value = serde_yaml::from_str(yaml).map_err(|e| e.to_string())?;
    Bytes::from_literal(repr(&value)?)
}

#[test]
fn plain_string_is_utf8_bytes() {
    assert_eq!(de("\"Q\\r\\n\"").unwrap().0, b"Q\r\n");
}

#[test]
fn hex_decodes_with_separators() {
    assert_eq!(de("{ hex: \"02 51 03\" }").unwrap().0, vec![0x02, 0x51, 0x03]);
    assert_eq!(de("{ hex: \"025103\" }").unwrap().0, vec![0x02, 0x51, 0x03]);
    assert_eq!(de("{ hex: \"0x02:0x51\" }").unwrap().0, vec![0x02, 0x51]);
}

#[test]
fn base64_decodes() {
    // "AlED" decodes to 0x02 0x51 0x03
    assert_eq!(de("{ base64: \"AlED\" }").unwrap().0, vec![0x02, 0x51, 0x03]);
}

#[test]
fn utf8_tag_equals_plain() {
    assert_eq!(de("{ utf8: \"Q\\r\\n\" }").unwrap().0, b"Q\r\n");
}

#[test]
fn byte_array_is_verbatim() {
    assert_eq!(de("{ bytes: [2, 81, 3] }").unwrap().0, vec![2, 81, 3]);
}

#[test]
fn empty_map_rejected() {
    assert!(de("{}").is_err());
}

#[test]
fn two_encodings_rejected() {
    let err = de("{ hex: \"02\", base64: \"AA==\" }").unwrap_err();
    assert!(err.contains("only one"), "{}", err);
}

#[test]
fn odd_hex_rejected() {
    let err = de("{ hex: \"025\" }").unwrap_err();
    assert!(err.contains("odd"), "{}", err);
}

#[test]
fn bad_hex_char_rejected() {
    let err = de("{ hex: \"02zz\" }").unwrap_err();
    assert!(err.contains("invalid hex"), "{}", err);
}

#[test]
fn literal_errors_read_well() {
    assert_eq!(
        de("{}").unwrap_err(),
        "byte literal map must set one of hex/base64/utf8/bytes"
    );
    assert_eq!(
        de("{ hex: \"02\", utf8: \"x\" }").unwrap_err(),
        "byte literal map must set only one of hex/base64/utf8/bytes"
    );
    assert_eq!(
        de("{ hex: \"025\" }").unwrap_err(),
        "hex has odd number of digits (3)"
    );
    assert_eq!(
        de("{ hex: \"02zz\" }").unwrap_err(),
        "invalid hex character 'z'"
    );
    assert!(de("{ base64: \"A\" }").unwrap_err().starts_with("invalid base64: "));
}

#[test]
fn hex_separators_and_prefixes_anywhere() {
    assert_eq!(decode_hex("").unwrap(), Vec::<u8>::new());
    assert_eq!(decode_hex("0X0aF_f\t0x10").unwrap(), vec![0x0a, 0xff, 0x10]);
    assert_eq!(decode_hex("0x").unwrap(), Vec::<u8>::new());
    assert_eq!(decode_hex("a0xb").unwrap(), vec![0xab]);
    assert_eq!(decode_hex("é").unwrap_err(), "invalid hex character 'é'");
    assert_eq!(decode_hex("\u{0}").unwrap_err(), "invalid hex character '\\0'");
}

#[test]
fn base64_is_trimmed_and_reported() {
    assert_eq!(de("{ base64: \"  AlED\\n\" }").unwrap().0, vec![0x02, 0x51, 0x03]);
    assert_eq!(base64_bytes(Ok(vec![1])), Ok(vec![1]));
    assert_eq!(
        base64_bytes(Err("why".to_string())),
        Err("invalid base64: why".to_string())
    );
}

#[test]
fn conversions_keep_the_bytes() {
    assert_eq!(Bytes::from("é\n").0, vec![0xc3, 0xa9, 10]);
    assert_eq!(Bytes::from("x".to_string()).0, vec![120]);
    assert_eq!(Bytes::from(vec![0u8, 255]).0, vec![0, 255]);
}
