use sync_strings::{extract_key_from_text, parse_multiline_entry, parse_strings_with_order, split_lines};

#[test]
fn key_plain() {
    assert_eq!(extract_key_from_text("\"Hello\" "), Some("Hello".to_string()));
}

#[test]
fn key_leading_whitespace() {
    assert_eq!(extract_key_from_text("  \t\"A B\""), Some("A B".to_string()));
}

#[test]
fn key_escaped_quote_kept_literal() {
    assert_eq!(extract_key_from_text("\"say \\\"hi\\\"\""), Some("say \"hi\"".to_string()));
}

#[test]
fn key_escaped_backslash() {
    assert_eq!(extract_key_from_text("\"a\\\\b\""), Some("a\\b".to_string()));
}

#[test]
fn key_escaped_letter_is_literal() {
    assert_eq!(extract_key_from_text("\"a\\nb\""), Some("anb".to_string()));
}

#[test]
fn key_needs_opening_quote() {
    assert_eq!(extract_key_from_text("Hello\""), None);
    assert_eq!(extract_key_from_text(""), None);
}

#[test]
fn key_unterminated() {
    assert_eq!(extract_key_from_text("\"abc"), None);
    assert_eq!(extract_key_from_text("\"abc\\"), None);
}

#[test]
fn key_empty_literal() {
    assert_eq!(extract_key_from_text("\"\""), Some(String::new()));
}

#[test]
fn lines_split_like_std() {
    assert_eq!(split_lines("a\nb\r\nc"), vec!["a", "b", "c"]);
    assert_eq!(split_lines("a\n"), vec!["a"]);
    assert_eq!(split_lines("a\n\nb"), vec!["a", "", "b"]);
    assert!(split_lines("").is_empty());
    assert_eq!(split_lines("x\r"), vec!["x\r"]);
}

#[test]
fn parse_two_records() {
    let e = parse_strings_with_order("\"A\" = \"1\";\n\"B\" = \"2\";\n");
    assert_eq!(e.len(), 2);
    assert_eq!(e[0].key, "A");
    assert_eq!(e[0].raw_lines, vec!["\"A\" = \"1\";".to_string()]);
    assert_eq!(e[1].key, "B");
}

#[test]
fn parse_continuation_keeps_both_lines() {
    let e = parse_strings_with_order("\"A\" = \"one \\\n  two\";\n\"B\" = \"2\";");
    assert_eq!(e.len(), 2);
    assert_eq!(e[0].key, "A");
    assert_eq!(
        e[0].raw_lines,
        vec!["\"A\" = \"one \\".to_string(), "  two\";".to_string()]
    );
}

#[test]
fn parse_blank_lines_bind_to_next_record() {
    let e = parse_strings_with_order("\n  \n\"A\" = \"1\";");
    assert_eq!(e.len(), 1);
    assert_eq!(
        e[0].raw_lines,
        vec![String::new(), "  ".to_string(), "\"A\" = \"1\";".to_string()]
    );
}

#[test]
fn parse_comment_before_key_does_not_hide_it() {
    let e = parse_strings_with_order("/* note */\n\"A\" = \"1\";\n// b\n\"B\" = \"2\";");
    let keys: Vec<String> = e.iter().map(|x| x.key.clone()).collect();
    assert_eq!(keys, vec!["A".to_string(), "B".to_string()]);
    assert_eq!(e[0].raw_lines, vec!["\"A\" = \"1\";".to_string()]);
}

#[test]
fn parse_comment_inside_continuation_kept() {
    let e = parse_strings_with_order("\"A\" = \"1 \\\n// inside\n2\";");
    assert_eq!(e.len(), 1);
    assert_eq!(e[0].raw_lines.len(), 3);
}

#[test]
fn parse_skips_stretch_without_key() {
    let e = parse_strings_with_order("garbage;\n\"A\" = \"1\";\nno equals here\n\"B\"=\"2\";");
    let keys: Vec<String> = e.iter().map(|x| x.key.clone()).collect();
    assert_eq!(keys, vec!["A".to_string(), "B".to_string()]);
}

#[test]
fn parse_drops_empty_key() {
    let e = parse_strings_with_order("\"\" = \"x\";\n\"A\" = \"1\";");
    assert_eq!(e.len(), 1);
    assert_eq!(e[0].key, "A");
}

#[test]
fn parse_unterminated_continuation_at_end() {
    let e = parse_strings_with_order("\"A\" = \"1\";\n\"B\" = \"2 \\");
    assert_eq!(e.len(), 1);
    assert_eq!(e[0].key, "A");
}

#[test]
fn parse_equals_in_leading_comment_does_not_hide_key() {
    let e = parse_strings_with_order("// a=b\n\"A\" = \"1\";");
    assert_eq!(e.len(), 1);
    assert_eq!(e[0].key, "A");
}

#[test]
fn entry_reports_next_line() {
    let lines = ["", "\"K\" = \"v\";", "\"L\" = \"w\";"];
    let (e, next) = parse_multiline_entry(&lines, 0);
    let e = e.unwrap();
    assert_eq!(e.key, "K");
    assert_eq!(e.raw_lines.len(), 2);
    assert_eq!(next, 2);
    let (e2, next2) = parse_multiline_entry(&lines, 2);
    assert_eq!(e2.unwrap().key, "L");
    assert_eq!(next2, 3);
}

#[test]
fn entry_without_key_resumes_after_it() {
    let lines = ["junk", "\"K\" = \"v\";"];
    let (e, next) = parse_multiline_entry(&lines, 0);
    assert!(e.is_none());
    assert_eq!(next, 1);
}

#[test]
fn entry_past_end() {
    let lines = ["\"K\" = \"v\";"];
    let (e, next) = parse_multiline_entry(&lines, 5);
    assert!(e.is_none());
    assert_eq!(next, 5);
    let open = ["\"K\" = \"v \\", "// still going"];
    let (e2, next2) = parse_multiline_entry(&open, 0);
    assert!(e2.is_none());
    assert_eq!(next2, 2);
}

#[test]
fn whitespace_is_unicode_aware() {
    let e = parse_strings_with_order("\u{3000}\"A\" = \"1\";\u{a0}\\\u{2003}\n \"x\";");
    assert_eq!(e.len(), 1);
    assert_eq!(e[0].key, "A");
    assert_eq!(e[0].raw_lines.len(), 2);
}
