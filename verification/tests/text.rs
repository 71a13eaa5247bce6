use serial_mock_service::table::Table;
use serial_mock_service::text::{
    decimal_text, parse_number, same_text, split_text, split_text_once, strip_leading_text,
    trim_text, words_of,
};

#[test]
fn numbers_are_written_and_read() {
    for n in [0u64, 7, 10, 42, 1000, u64::MAX] {
        assert_eq!(decimal_text(n), n.to_string());
        assert_eq!(parse_number(&n.to_string()), Some(n));
    }
    assert_eq!(parse_number("+5"), Some(5));
    assert_eq!(parse_number("007"), Some(7));
    assert_eq!(parse_number(""), None);
    assert_eq!(parse_number("+"), None);
    assert_eq!(parse_number("-1"), None);
    assert_eq!(parse_number(" 1"), None);
    assert_eq!(parse_number("18446744073709551616"), None);
    assert_eq!(parse_number("99999999999999999999x"), None);
}

#[test]
fn texts_are_split_like_std_does() {
    for s in ["", "a", "/", "a/b", "/a//b/", "é/ü"] {
        assert_eq!(split_text(s, '/'), s.split('/').map(String::from).collect::<Vec<_>>());
        assert_eq!(
            split_text_once(s, '/'),
            s.split_once('/').map(|(a, b)| (a.to_string(), b.to_string()))
        );
        assert_eq!(strip_leading_text(s, '/'), s.trim_start_matches('/'));
    }
}

#[test]
fn whitespace_is_what_std_takes_for_it() {
    for s in ["", " a b ", "\t\u{a0}x\u{2003}y\r\n", "\u{3000}", "a\u{200b}b"] {
        assert_eq!(trim_text(s), s.trim());
        assert_eq!(words_of(s), s.split_whitespace().map(String::from).collect::<Vec<_>>());
    }
    for code in 0..0x3100u32 {
        if let Some(c) = char::from_u32(code) {
            assert_eq!(serial_mock_service::text::char_is_space(c), c.is_whitespace());
        }
    }
}

#[test]
fn tables_keep_order_and_replace() {
    let mut table: Table<String> = Table::new();
    table.insert("b".to_string(), "1".to_string());
    table.insert("a".to_string(), "2".to_string());
    table.insert("b".to_string(), "3".to_string());
    assert_eq!(table.names(), vec!["b", "a"]);
    assert_eq!(table.get("b").unwrap(), "3");
    assert_eq!(table.remove("b").unwrap(), "3");
    assert_eq!(table.remove("b"), None);
    assert_eq!(table.len(), 1);
    assert!(same_text("é", "é") && !same_text("a", "ab"));
}
