use sync_strings::{normalize_lines, parse_strings_with_order, reconcile, render_lines};

fn lines(v: &[&str]) -> Vec<String> {
    v.iter().map(|s| s.to_string()).collect()
}

#[test]
fn missing_key_copied_in_original_order() {
    let orig = parse_strings_with_order("\"A\" = \"1\";\n\"B\" = \"2\";\n");
    let out = reconcile(&orig, "\"B\" = \"x\";\n");
    assert_eq!(out.lines, lines(&["\"A\" = \"1\";", "\"B\" = \"x\";"]));
    assert_eq!(out.added_keys, lines(&["A"]));
}

#[test]
fn continued_value_copied_whole_from_either_side() {
    let orig = parse_strings_with_order("\"A\" = \"a1 \\\na2\";\n\"B\" = \"b1 \\\nb2\";\n");
    let out = reconcile(&orig, "\"B\" = \"x1 \\\nx2\";\n");
    assert_eq!(
        out.lines,
        lines(&["\"A\" = \"a1 \\", "a2\";", "\"B\" = \"x1 \\", "x2\";"])
    );
}

#[test]
fn blank_run_collapsed_to_one() {
    let orig = parse_strings_with_order("\"A\" = \"1\";\n\"B\" = \"2\";\n");
    let out = reconcile(&orig, "\"A\" = \"x\";\n\n\n\n\"B\" = \"y\";\n");
    assert_eq!(out.lines, lines(&["\"A\" = \"x\";", "", "\"B\" = \"y\";"]));
    assert!(out.added_keys.is_empty());
}

#[test]
fn key_absent_from_original_dropped() {
    let orig = parse_strings_with_order("\"A\" = \"1\";\n");
    let out = reconcile(&orig, "\"Z\" = \"old\";\n\"A\" = \"mine\";\n");
    assert_eq!(out.lines, lines(&["\"A\" = \"mine\";"]));
    assert!(out.added_keys.is_empty());
}

#[test]
fn leading_comments_preserved_with_gap() {
    let orig = parse_strings_with_order("\"A\" = \"1\";\n");
    let out = reconcile(&orig, "/* header */\n// more\n\n\"Z\" = \"z\";\n");
    assert_eq!(
        out.lines,
        lines(&["/* header */", "// more", "", "\"A\" = \"1\";"])
    );
    assert_eq!(out.added_keys, lines(&["A"]));
}

#[test]
fn first_target_record_wins_for_repeated_key() {
    let orig = parse_strings_with_order("\"A\" = \"1\";\n");
    let out = reconcile(&orig, "\"A\" = \"first\";\n\"A\" = \"second\";\n");
    assert_eq!(out.lines, lines(&["\"A\" = \"first\";"]));
}

#[test]
fn empty_target_gets_every_original_record() {
    let orig = parse_strings_with_order("\n\"A\" = \"1\";\n\"B\" = \"2\";\n");
    let out = reconcile(&orig, "");
    assert_eq!(out.lines, lines(&["\"A\" = \"1\";", "\"B\" = \"2\";"]));
    assert_eq!(out.added_keys, lines(&["A", "B"]));
}

#[test]
fn empty_original_empties_target() {
    let orig = parse_strings_with_order("");
    let out = reconcile(&orig, "\"A\" = \"1\";\n");
    assert!(out.lines.is_empty());
    assert_eq!(render_lines(&out.lines), "");
}

#[test]
fn second_run_changes_nothing() {
    let orig = parse_strings_with_order("\"A\" = \"1\";\n\"B\" = \"2 \\\nmore\";\n\"C\" = \"3\";\n");
    let first = reconcile(&orig, "\"C\" = \"c\";\n\n\n\"Z\" = \"z\";\n\"A\" = \"a\";\n");
    let text = render_lines(&first.lines);
    let second = reconcile(&orig, &text);
    assert_eq!(second.lines, first.lines);
    assert!(second.added_keys.is_empty());
}

#[test]
fn render_ends_each_line() {
    assert_eq!(render_lines(&lines(&["a", "", "b"])), "a\n\nb\n");
    assert_eq!(render_lines(&Vec::new()), "");
}

#[test]
fn normalize_trims_and_collapses() {
    let out = normalize_lines(lines(&["", "  ", "a", " ", "\t", "b", "", ""]));
    assert_eq!(out, lines(&["a", "", "b"]));
}

#[test]
fn commented_target_entries_keep_their_values_across_runs() {
    let orig = parse_strings_with_order("\"A\" = \"1\";\n\"B\" = \"2\";\n");
    let first = reconcile(&orig, "/* h */\n\"B\" = \"x\";\n// about A\n\"A\" = \"y\";\n");
    assert_eq!(
        first.lines,
        lines(&["/* h */", "", "\"A\" = \"y\";", "\"B\" = \"x\";"])
    );
    assert!(first.added_keys.is_empty());
    let second = reconcile(&orig, &render_lines(&first.lines));
    assert_eq!(second.lines, first.lines);
    assert!(second.added_keys.is_empty());
}
