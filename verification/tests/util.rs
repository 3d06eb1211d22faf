use live::util::{command_output, file_text, list, number, object, or_null, quote, quoted_list};

#[test]
fn json_escapes_control_characters_and_quotes() {
    assert_eq!(quote("a\"\\\n\0é"), "\"a\\\"\\\\\\n\\u0000é\"");
    assert_eq!(number(None), "null");
}

#[test]
fn quote_escapes_every_control_character_in_lower_case_hex() {
    assert_eq!(quote("\t\r\u{1f}\u{1b}"), "\"\\t\\r\\u001f\\u001b\"");
    assert_eq!(quote(""), "\"\"");
    assert_eq!(quote(" ~\u{7f}"), "\" ~\u{7f}\"");
}

#[test]
fn number_writes_decimal_digits() {
    assert_eq!(number(Some(0)), "0");
    assert_eq!(number(Some(1024000)), "1024000");
    assert_eq!(number(Some(u64::MAX)), "18446744073709551615");
}

#[test]
fn object_keeps_member_order_and_quotes_keys() {
    assert_eq!(object(&[]), "{}");
    assert_eq!(
        object(&[("a", "1".to_string()), ("b\"", "null".to_string())]),
        "{\"a\":1,\"b\\\"\":null}"
    );
}

#[test]
fn preserves_partial_command_output_when_one_unit_is_missing() {
    // What `printf 'Id=live.service\nActiveState=active\n'; exit 1` writes.
    assert_eq!(
        command_output(true, "Id=live.service\nActiveState=active\n"),
        Some("Id=live.service\nActiveState=active".to_string())
    );
}

#[test]
fn command_output_needs_a_finished_command_with_some_text() {
    assert_eq!(command_output(false, "Id=live.service\n"), None);
    assert_eq!(command_output(true, " \n\t\n"), None);
    assert_eq!(command_output(true, ""), None);
    assert_eq!(command_output(true, "\t 3.5 \u{a0}"), Some("3.5".to_string()));
}

#[test]
fn file_text_strips_nuls_line_breaks_and_spaces_only() {
    assert_eq!(file_text("Raspberry Pi 4 Model B\0"), "Raspberry Pi 4 Model B");
    assert_eq!(file_text(" \r\n6.1.21-v8+\n\0"), "6.1.21-v8+");
    assert_eq!(file_text("\t42\t"), "\t42\t");
    assert_eq!(file_text("\0\n \r"), "");
}

#[test]
fn lists_and_nulls() {
    assert_eq!(list(&vec![]), "[]");
    assert_eq!(list(&vec!["1.5".to_string(), "null".to_string()]), "[1.5,null]");
    assert_eq!(quoted_list(&vec!["eth0".to_string(), "w\"0".to_string()]), r#"["eth0","w\"0"]"#);
    assert_eq!(or_null(None), "null");
    assert_eq!(or_null(Some("0.25")), "0.25");
}
