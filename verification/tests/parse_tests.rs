use node_ini::from_str;
use node_ini::Item;
use node_ini::ParseError;
use node_ini::Parser;
use node_ini::SectionMap;

fn value_of<'a>(m: &'a SectionMap, key: &str) -> &'a str {
    match m.get(&key.to_string()) {
        Some(Item::Value(s)) => s.as_str(),
        Some(_) => panic!("entry {} is not a plain value", key),
        None => panic!("missing key {}", key),
    }
}

fn section_of<'a>(m: &'a SectionMap, key: &str) -> &'a SectionMap {
    match m.get(&key.to_string()) {
        Some(Item::Section(s)) => s,
        Some(_) => panic!("entry {} is not a section", key),
        None => panic!("missing section {}", key),
    }
}

#[test]
fn empty_document_is_empty() {
    let m = from_str("").unwrap();
    assert_eq!(m.len(), 0);
}

#[test]
fn pairs_in_document_order() {
    let m = from_str("a = 1\nb = 2\nc = 3\n").unwrap();
    assert_eq!(m.len(), 3);
    assert_eq!(value_of(&m, "a"), "1");
    assert_eq!(value_of(&m, "b"), "2");
    assert_eq!(value_of(&m, "c"), "3");
}

#[test]
fn duplicate_key_in_one_body_is_rejected() {
    let r = from_str("a = 1\na = 2\n");
    assert_eq!(r.unwrap_err(), ParseError::DuplicateKey);
}

#[test]
fn duplicate_key_in_one_section_body_is_rejected() {
    let r = from_str("[s]\nx = 1\nx = 2\n");
    assert_eq!(r.unwrap_err(), ParseError::DuplicateKey);
}

#[test]
fn quoting_preserves_comment_marker() {
    let m = from_str("k = \"a;b\"\n").unwrap();
    assert_eq!(value_of(&m, "k"), "a;b");
}

#[test]
fn unescaped_comment_marker_ends_value() {
    let m = from_str("k = a;b\n").unwrap();
    assert_eq!(value_of(&m, "k"), "a");
}

#[test]
fn bare_key_gets_value_true() {
    let m = from_str("standalone\n").unwrap();
    assert_eq!(value_of(&m, "standalone"), "true");
}

#[test]
fn bare_key_with_inline_comment() {
    let m = from_str("standalone ; note\n").unwrap();
    assert_eq!(value_of(&m, "standalone"), "true");
    assert_eq!(m.len(), 1);
}

#[test]
fn escaping_neutralizes_comment_marker() {
    let m = from_str("k = a\\;b\n").unwrap();
    assert_eq!(value_of(&m, "k"), "a;b");
}

#[test]
fn repeated_header_accumulates_into_one_section() {
    let m = from_str("[a.b]\nx = 1\n[a.b]\ny = 2\n").unwrap();
    let a = section_of(&m, "a");
    let b = section_of(a, "b");
    assert_eq!(value_of(b, "x"), "1");
    assert_eq!(value_of(b, "y"), "2");
    assert_eq!(b.len(), 2);
}

#[test]
fn nested_header_extends_parent_section() {
    let m = from_str("[a]\nx = 1\n[a.b]\ny = 1\n").unwrap();
    let a = section_of(&m, "a");
    assert_eq!(value_of(a, "x"), "1");
    let b = section_of(a, "b");
    assert_eq!(value_of(b, "y"), "1");
    assert_eq!(a.len(), 2);
}

#[test]
fn header_path_over_value_is_conflict() {
    let r = from_str("[a]\nb = 1\n[a.b]\ny = 1\n");
    assert_eq!(r.unwrap_err(), ParseError::SectionPathConflict);
}

#[test]
fn unterminated_header_is_fatal() {
    let r = from_str("[a");
    assert_eq!(r.unwrap_err(), ParseError::UnterminatedSectionHeader);
}

#[test]
fn header_cut_by_line_end_is_fatal() {
    let r = from_str("[a\nx = 1\n");
    assert_eq!(r.unwrap_err(), ParseError::UnterminatedSectionHeader);
}

#[test]
fn header_cut_by_comment_marker_is_fatal() {
    let r = from_str("[a;b]\n");
    assert_eq!(r.unwrap_err(), ParseError::UnterminatedSectionHeader);
}

#[test]
fn escape_table_substitutions() {
    let m = from_str("k = a\\tb\\nc\\rd\\be\\ff\\\\g\\zh\n").unwrap();
    assert_eq!(value_of(&m, "k"), "a\tb\nc\rd\u{8}e\u{C}f\\gzh");
}

#[test]
fn trailing_backslash_is_kept_literally() {
    let m = from_str("k = abc\\").unwrap();
    assert_eq!(value_of(&m, "k"), "abc\\");
}

#[test]
fn quotes_are_stripped_and_inside_kept_verbatim() {
    let m = from_str("k = \"  padded  \"\n").unwrap();
    assert_eq!(value_of(&m, "k"), "  padded  ");
}

#[test]
fn single_quotes_are_stripped_too() {
    let m = from_str("k = 'v'\n").unwrap();
    assert_eq!(value_of(&m, "k"), "v");
}

#[test]
fn mismatched_quotes_are_kept() {
    let m = from_str("k = \"abc'\n").unwrap();
    assert_eq!(value_of(&m, "k"), "\"abc'");
}

#[test]
fn unterminated_quote_defers_to_comment_marker() {
    let m = from_str("k = \"a;b\n").unwrap();
    assert_eq!(value_of(&m, "k"), "\"a");
}

#[test]
fn inline_comments_after_values() {
    let m = from_str("k = v ; c\nj = w # d\n").unwrap();
    assert_eq!(value_of(&m, "k"), "v");
    assert_eq!(value_of(&m, "j"), "w");
}

#[test]
fn inline_comment_ends_at_carriage_return() {
    let m = from_str("k = v ; c\rj = w\n").unwrap();
    assert_eq!(m.len(), 2);
    assert_eq!(value_of(&m, "k"), "v");
    assert_eq!(value_of(&m, "j"), "w");
}

#[test]
fn full_line_comment_ends_at_carriage_return() {
    let m = from_str("# c\rk = v\n").unwrap();
    assert_eq!(m.len(), 1);
    assert_eq!(value_of(&m, "k"), "v");
}

#[test]
fn full_line_comments_are_skipped() {
    let m = from_str("; one\n# two\nk = v\n").unwrap();
    assert_eq!(m.len(), 1);
    assert_eq!(value_of(&m, "k"), "v");
}

#[test]
fn escaped_dot_in_header_is_one_segment() {
    let m = from_str("[a\\.b]\nx = 1\n").unwrap();
    let s = section_of(&m, "a.b");
    assert_eq!(value_of(s, "x"), "1");
}

#[test]
fn later_body_overwrites_value_across_headers() {
    let m = from_str("[a]\nx = 1\n[a]\nx = 2\n").unwrap();
    let a = section_of(&m, "a");
    assert_eq!(value_of(a, "x"), "2");
    assert_eq!(a.len(), 1);
}

#[test]
fn surrounding_whitespace_is_trimmed() {
    let m = from_str("   k   =   v   \n").unwrap();
    assert_eq!(value_of(&m, "k"), "v");
    assert_eq!(m.len(), 1);
}

#[test]
fn quoted_key_is_stripped() {
    let m = from_str("\"a b\" = c\n").unwrap();
    assert_eq!(value_of(&m, "a b"), "c");
}

#[test]
fn equals_in_value_is_literal() {
    let m = from_str("k = a=b\n").unwrap();
    assert_eq!(value_of(&m, "k"), "a=b");
}

#[test]
fn escaped_comment_marker_in_key() {
    let m = from_str("a\\;b = 1\n").unwrap();
    assert_eq!(value_of(&m, "a;b"), "1");
}

#[test]
fn crlf_lines_are_handled() {
    let m = from_str("k = v\r\nj = w\r\n").unwrap();
    assert_eq!(value_of(&m, "k"), "v");
    assert_eq!(value_of(&m, "j"), "w");
}

#[test]
fn deep_dotted_path_creates_nested_sections() {
    let m = from_str("[a.b.c]\nx = 1\n").unwrap();
    let c = section_of(section_of(section_of(&m, "a"), "b"), "c");
    assert_eq!(value_of(c, "x"), "1");
}

#[test]
fn parser_type_parses_directly() {
    let r = Parser::new("k = v\n[s]\nx = 1\n").parse();
    let m = r.unwrap();
    assert_eq!(value_of(&m, "k"), "v");
    let s = section_of(&m, "s");
    assert_eq!(value_of(s, "x"), "1");
}

#[test]
fn absent_key_is_none() {
    let m = from_str("k = v\n").unwrap();
    assert!(m.get(&"missing".to_string()).is_none());
}

#[test]
fn values_are_never_arrays() {
    let m = from_str("k = v\nj = a, b, c\n").unwrap();
    assert!(matches!(m.get(&"k".to_string()), Some(Item::Value(_))));
    assert!(matches!(m.get(&"j".to_string()), Some(Item::Value(_))));
}

#[test]
fn header_section_with_comment_after_it() {
    let m = from_str("[s] ; trailing words\nx = 1\n").unwrap();
    let s = section_of(&m, "s");
    assert_eq!(value_of(s, "x"), "1");
}

#[test]
fn backslash_before_line_end_is_kept_and_line_ends() {
    let m = from_str("k = a\\\nb = 2\n").unwrap();
    assert_eq!(value_of(&m, "k"), "a\\");
    assert_eq!(value_of(&m, "b"), "2");
}

#[test]
fn lone_quote_is_not_a_pair() {
    let m = from_str("k = \"\n").unwrap();
    assert_eq!(value_of(&m, "k"), "\"");
}

#[test]
fn empty_quoted_value() {
    let m = from_str("k = \"\"\n").unwrap();
    assert_eq!(value_of(&m, "k"), "");
}

#[test]
fn unicode_whitespace_is_trimmed() {
    let m = from_str("k =\u{a0}v\u{2009}\n").unwrap();
    assert_eq!(value_of(&m, "k"), "v");
}

#[test]
fn try_insert_rejects_present_key() {
    let mut m = node_ini::from_str("a = 1\n").unwrap();
    let r = node_ini::try_insert(&mut m, "a".to_string(), Item::Value("2".to_string()));
    assert_eq!(r.unwrap_err(), ParseError::DuplicateKey);
    assert_eq!(value_of(&m, "a"), "1");
    let r2 = node_ini::try_insert(&mut m, "b".to_string(), Item::Value("2".to_string()));
    assert!(r2.is_ok());
    assert_eq!(value_of(&m, "b"), "2");
}

#[test]
fn map_insert_replaces_and_remove_takes_out() {
    let mut m = from_str("a = 1\n").unwrap();
    m.insert("a".to_string(), Item::Value("9".to_string()));
    assert_eq!(value_of(&m, "a"), "9");
    assert_eq!(m.len(), 1);
    match m.remove(&"a".to_string()) {
        Some(Item::Value(s)) => assert_eq!(s, "9"),
        _ => panic!("expected the replaced value"),
    }
    assert!(m.get(&"a".to_string()).is_none());
    assert_eq!(m.len(), 0);
}

#[test]
fn blank_lines_are_ignored() {
    let m = from_str("\n\n  \nk = v\n\n").unwrap();
    assert_eq!(m.len(), 1);
    assert_eq!(value_of(&m, "k"), "v");
}
