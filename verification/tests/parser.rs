use sam_env_diff::parser::{parse_env, strip_quotes};

#[test]
fn basic_key_value() {
    let m = parse_env("FOO=bar\nBAZ=qux\n");
    assert_eq!(m.get("FOO").unwrap(), "bar");
    assert_eq!(m.get("BAZ").unwrap(), "qux");
}

#[test]
fn skips_comments_and_blank_lines() {
    let m = parse_env("# comment\n\nFOO=bar\n");
    assert_eq!(m.len(), 1);
    assert_eq!(m.get("FOO").unwrap(), "bar");
}

#[test]
fn strips_export_prefix() {
    let m = parse_env("export FOO=bar\n");
    assert_eq!(m.get("FOO").unwrap(), "bar");
}

#[test]
fn double_quotes() {
    let m = parse_env(r#"FOO="hello world""#);
    assert_eq!(m.get("FOO").unwrap(), "hello world");
}

#[test]
fn single_quotes() {
    let m = parse_env("FOO='hello world'");
    assert_eq!(m.get("FOO").unwrap(), "hello world");
}

#[test]
fn multiline_double_quote() {
    let m = parse_env("FOO=\"line1\nline2\"");
    assert_eq!(m.get("FOO").unwrap(), "line1\nline2");
}

#[test]
fn multiline_single_quote() {
    let m = parse_env("FOO='line1\nline2'");
    assert_eq!(m.get("FOO").unwrap(), "line1\nline2");
}

#[test]
fn inline_comment() {
    let m = parse_env("FOO=bar # this is a comment");
    assert_eq!(m.get("FOO").unwrap(), "bar");
}

#[test]
fn key_with_equals_in_value() {
    let m = parse_env("FOO=a=b=c");
    assert_eq!(m.get("FOO").unwrap(), "a=b=c");
}

#[test]
fn duplicate_keys_last_wins() {
    let m = parse_env("FOO=first\nFOO=second\n");
    assert_eq!(m.get("FOO").unwrap(), "second");
}

#[test]
fn crlf_line_endings() {
    let m = parse_env("FOO=bar\r\nBAZ=qux\r\n");
    assert_eq!(m.get("FOO").unwrap(), "bar");
    assert_eq!(m.get("BAZ").unwrap(), "qux");
}

#[test]
fn utf8_bom() {
    let content = "\u{FEFF}FOO=bar\n";
    let m = parse_env(content);
    assert_eq!(m.get("FOO").unwrap(), "bar");
}

#[test]
fn empty_value() {
    let m = parse_env("FOO=\n");
    assert_eq!(m.get("FOO").unwrap(), "");
}

#[test]
fn no_equals_skipped() {
    let m = parse_env("JUSTKEY\nFOO=bar\n");
    assert_eq!(m.len(), 1);
    assert_eq!(m.get("FOO").unwrap(), "bar");
}

#[test]
fn empty_key_skipped() {
    let m = parse_env("=value\nFOO=bar\n");
    assert_eq!(m.len(), 1);
}

#[test]
fn strip_quotes_cases() {
    assert_eq!(strip_quotes("\"abc\""), "abc");
    assert_eq!(strip_quotes("'abc'"), "abc");
    assert_eq!(strip_quotes("\"abc'"), "\"abc'");
    assert_eq!(strip_quotes("\""), "\"");
    assert_eq!(strip_quotes("\"\""), "");
    assert_eq!(strip_quotes("abc"), "abc");
}

#[test]
fn quoted_hash_is_kept() {
    let m = parse_env("FOO=\"a # b\"\nBAR='c # d'\nBAZ=e#f\n");
    assert_eq!(m.get("FOO").unwrap(), "a # b");
    assert_eq!(m.get("BAR").unwrap(), "c # d");
    assert_eq!(m.get("BAZ").unwrap(), "e#f");
}

#[test]
fn lone_carriage_returns_end_lines() {
    let m = parse_env("A=1\rB=2\r\rC=3");
    assert_eq!(m.len(), 3);
    assert_eq!(m.get("B").unwrap(), "2");
    assert_eq!(m.get("C").unwrap(), "3");
}

#[test]
fn crlf_gives_same_map_as_lf() {
    let lf = parse_env("A=1\nexport B = 'x y' \n# c\nC=\"p\nq\"\n");
    let crlf = parse_env("A=1\r\nexport B = 'x y' \r\n# c\r\nC=\"p\r\nq\"\r\n");
    assert_eq!(lf.len(), crlf.len());
    for k in ["A", "B", "C"] {
        assert_eq!(lf.get(k), crlf.get(k));
    }
    assert_eq!(lf.get("B").unwrap(), "x y");
    assert_eq!(lf.get("C").unwrap(), "p\nq");
}

#[test]
fn keys_are_trimmed() {
    let m = parse_env("  export   KEY  =  value  \n\tOTHER\t=\tv\t\n");
    assert_eq!(m.get("KEY").unwrap(), "value");
    assert_eq!(m.get("OTHER").unwrap(), "v");
    assert!(!m.contains_key("  KEY  "));
}

#[test]
fn unterminated_quote_runs_to_end() {
    let m = parse_env("A=\"open\nB=2\nC=3");
    assert_eq!(m.len(), 1);
    assert_eq!(m.get("A").unwrap(), "\"open\nB=2\nC=3");
}

#[test]
fn multiline_single_quoted_value_keeps_double_quote() {
    let m = parse_env("A='x\ny\" z'\nB=1");
    assert_eq!(m.get("A").unwrap(), "x\ny\" z");
    assert_eq!(m.get("B").unwrap(), "1");
}

#[test]
fn bom_only_once() {
    let m = parse_env("\u{FEFF}\u{FEFF}A=1");
    assert!(m.get("A").is_none());
    assert_eq!(m.get("\u{FEFF}A").unwrap(), "1");
}

#[test]
fn empty_input_gives_empty_map() {
    assert!(parse_env("").is_empty());
    assert!(parse_env("\n\n   \n# x\n").is_empty());
}

#[test]
fn double_quoted_value_with_trailing_comment() {
    let m = parse_env("FOO=\"bar\" # note\nBAZ=qux\n");
    assert_eq!(m.len(), 2);
    assert_eq!(m.get("FOO").unwrap(), "bar");
    assert_eq!(m.get("BAZ").unwrap(), "qux");
}

#[test]
fn single_quoted_value_with_trailing_comment() {
    let m = parse_env("FOO='bar'   # note\nBAZ=qux\n");
    assert_eq!(m.len(), 2);
    assert_eq!(m.get("FOO").unwrap(), "bar");
    assert_eq!(m.get("BAZ").unwrap(), "qux");
}

#[test]
fn quoted_value_with_trailing_whitespace_or_text() {
    let m = parse_env("A=\"x # y\"\t# note\nB='it's' # c\nC=\"a\"b\nD=1\n");
    assert_eq!(m.get("A").unwrap(), "x # y");
    assert_eq!(m.get("B").unwrap(), "it's");
    assert_eq!(m.get("C").unwrap(), "\"a\"b\nD=1");
    assert!(m.get("D").is_none());
}

#[test]
fn multiline_value_closed_before_comment() {
    let m = parse_env("A=\"one\ntwo\" # end\nB=2\n");
    assert_eq!(m.get("A").unwrap(), "one\ntwo");
    assert_eq!(m.get("B").unwrap(), "2");
}

#[test]
fn lone_quote_value_stays() {
    let m = parse_env("A=\"\nB=2\n");
    assert_eq!(m.get("A").unwrap(), "\"");
    assert_eq!(m.get("B").unwrap(), "2");
}

#[test]
fn concatenated_texts_override() {
    let a = "A=1\nB=\"two\nlines\"\nC='c' # note\n";
    let b = "B=3\nD=4";
    let joined = parse_env(&format!("{}{}", a, b));
    let first = parse_env(a);
    let second = parse_env(b);
    assert_eq!(joined.len(), 4);
    assert_eq!(joined.get("A"), first.get("A"));
    assert_eq!(joined.get("B"), second.get("B"));
    assert_eq!(joined.get("C").unwrap(), "c");
    assert_eq!(joined.get("D"), second.get("D"));
    assert_eq!(first.get("B").unwrap(), "two\nlines");
}
