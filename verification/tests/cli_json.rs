use qzt::cli_json::{escape, hex};

#[test]
fn escape_plain_string_unchanged() {
    assert_eq!(escape("hello"), "hello");
}

#[test]
fn escape_quote_and_backslash() {
    assert_eq!(escape("a\"b\\c\nd"), r#"a\"b\\c\nd"#);
}

#[test]
fn escape_control_character() {
    assert_eq!(escape("\u{1}"), "\\u0001");
}

#[test]
fn escape_tab_cr_lf() {
    assert_eq!(escape("\t"), "\\t");
    assert_eq!(escape("\r"), "\\r");
    assert_eq!(escape("\n"), "\\n");
}

#[test]
fn hex_two_bytes() {
    assert_eq!(hex(&[0x00, 0xff]), "00ff");
}

#[test]
fn hex_empty() {
    assert_eq!(hex(&[]), "");
}

#[test]
fn hex_single_byte() {
    assert_eq!(hex(&[0xab]), "ab");
}

#[test]
fn escape_keeps_non_ascii_and_escapes_unit_separator() {
    assert_eq!(escape("é\u{1f}x"), "é\\u001fx");
}
