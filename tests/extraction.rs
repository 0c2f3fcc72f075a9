use comment_scan::{
    comment_rules, extract_regions, scan_for_comments, ConfigError, ConsumeAction,
    DelimiterRule, DelimiterTable, Lex,
};

fn keep(start: &str, end: &str) -> DelimiterRule {
    DelimiterRule::new(start, end, ConsumeAction::Keep)
}

fn discard(start: &str, end: &str) -> DelimiterRule {
    DelimiterRule::new(start, end, ConsumeAction::Discard)
}

#[test]
fn start_markers_inside_a_region_are_not_recognized() {
    let rules = comment_rules();
    assert_eq!(extract_regions("/** a // b */", &rules), " a // b ");
}

#[test]
fn longest_start_marker_wins() {
    let rules = vec![keep("//", "\n"), keep("///", "\n")];
    assert_eq!(extract_regions("///doc\n", &rules), "doc");
    let rules = vec![keep("///", "\n"), keep("//", "\n")];
    assert_eq!(extract_regions("///doc\n", &rules), "doc");
}

#[test]
fn escape_in_discarded_string_emits_nothing() {
    let rules = vec![discard("\"", "\"").with_escape("\\\"", "\"")];
    assert_eq!(extract_regions("\"a\\\"b\"", &rules), "");
}

#[test]
fn escape_in_kept_region_is_substituted() {
    let rules = vec![keep("\"", "\"").with_escape("\\\"", "\"")];
    assert_eq!(extract_regions("\"a\\\"b\"", &rules), "a\"b");
}

#[test]
fn escape_does_not_close_the_region() {
    let rules = vec![keep("'", "'").with_escape("\\'", "'")];
    assert_eq!(extract_regions("x 'it\\'s' y 'z'", &rules), "it's\nz");
}

#[test]
fn first_listed_escape_wins() {
    let rules = vec![keep("<", ">").with_escape("ab", "1").with_escape("a", "2")];
    assert_eq!(extract_regions("<xaby a>", &rules), "x1y 2");
}

#[test]
fn empty_escape_marker_is_never_recognized() {
    let rules = vec![keep("<", ">").with_escape("", "!")];
    assert_eq!(extract_regions("<ab>", &rules), "ab");
}

#[test]
fn discarded_region_is_consumed() {
    let rules = vec![discard("\"\"\"", "\"\"\""), keep("//", "\n")];
    assert_eq!(extract_regions("\"\"\"x\"\"\"//y\n", &rules), "y");
}

#[test]
fn discarded_region_hides_start_markers() {
    let rules = vec![discard("\"", "\""), keep("//", "\n")];
    assert_eq!(extract_regions("\"//no\" //yes\n", &rules), "yes");
}

#[test]
fn regions_come_out_in_discovery_order() {
    let rules = vec![keep("/**", "*/"), keep("//", "\n")];
    assert_eq!(extract_regions("/** A */ code //B\n", &rules), " A \nB");
}

#[test]
fn empty_input_gives_empty_output() {
    let rules = comment_rules();
    assert_eq!(extract_regions("", &rules), "");
}

#[test]
fn empty_rules_give_empty_output() {
    assert_eq!(extract_regions("/** a */ // b\n", &[]), "");
}

#[test]
fn first_rule_of_a_start_marker_takes_effect() {
    let rules = vec![keep("//", "\n"), discard("//", "\n")];
    assert_eq!(extract_regions("//a\n", &rules), "a");
    let rules = vec![discard("//", "\n"), keep("//", "\n")];
    assert_eq!(extract_regions("//a\n", &rules), "");
    let rules = vec![keep("#", "\n"), keep("#", ";")];
    assert_eq!(extract_regions("#a;b\n", &rules), "a;b");
}

#[test]
fn unterminated_kept_region_runs_to_the_end() {
    let rules = vec![keep("/*", "*/")];
    assert_eq!(extract_regions("x /* open", &rules), " open");
}

#[test]
fn unterminated_discarded_region_is_dropped() {
    let rules = vec![discard("\"", "\""), keep("//", "\n")];
    assert_eq!(extract_regions("\"abc //x\n", &rules), "");
}

#[test]
fn region_at_end_of_input_keeps_empty_content() {
    let rules = vec![keep("//", "\n")];
    assert_eq!(extract_regions("a //", &rules), "");
    assert_eq!(extract_regions("//\n//b\n", &rules), "\nb");
}

#[test]
fn empty_end_marker_closes_at_once() {
    let rules = vec![keep("#", "")];
    assert_eq!(extract_regions("#ab#c", &rules), "\n");
}

#[test]
fn non_ascii_text_is_scanned_by_character() {
    let rules = vec![keep("«", "»")];
    assert_eq!(extract_regions("é «ünï» ç", &rules), "ünï");
}

#[test]
fn table_refuses_empty_start_marker() {
    let rules = vec![keep("//", "\n"), keep("", "x"), keep("", "y")];
    assert!(matches!(
        DelimiterTable::new(&rules),
        Err(ConfigError::EmptyStartMarker(1))
    ));
}

#[test]
fn table_is_deduplicated_and_longest_first() {
    let rules = comment_rules();
    let table = DelimiterTable::new(&rules).ok().unwrap();
    assert_eq!(table.order, vec![0, 1, 3, 2, 4]);
    let rules = vec![keep("//", "\n"), keep("/**", "*/"), discard("//", "\n"), keep("x", "y")];
    let table = DelimiterTable::new(&rules).ok().unwrap();
    assert_eq!(table.order, vec![1, 0, 3]);
}

#[test]
fn table_of_no_rules_is_empty() {
    let table = DelimiterTable::new(&[]).ok().unwrap();
    assert!(table.order.is_empty());
}

#[test]
fn first_match_picks_longest_marker_at_position() {
    let rules = comment_rules();
    let table = DelimiterTable::new(&rules).ok().unwrap();
    let text: Vec<char> = "a ///x //y \"s\"".chars().collect();
    assert_eq!(table.first_match(&rules, &text, 0), None);
    assert_eq!(table.first_match(&rules, &text, 2), Some(1));
    assert_eq!(table.first_match(&rules, &text, 3), Some(2));
    assert_eq!(table.first_match(&rules, &text, 7), Some(2));
    assert_eq!(table.first_match(&rules, &text, 11), Some(4));
    assert_eq!(table.first_match(&rules, &text, 40), None);
}

#[test]
fn lexer_extracts_between_markers() {
    let rules = vec![keep("[", "]"), discard("(", ")")];
    let lex = Lex { str: "[one] (two) [three]" };
    assert_eq!(lex.get_substrings_between_two_strings(&rules), "one\nthree");
}

#[test]
fn comments_are_scanned_and_strings_skipped() {
    let text = "let s = \"// no\"; /// doc\nlet t = \"\"\"/** no */\"\"\"; /**block*/ // line\n";
    assert_eq!(scan_for_comments(text), " doc\nblock\n line");
}

#[test]
fn escaped_quote_does_not_end_a_string() {
    let text = "x = \"a \\\" // b\"; // c\n";
    assert_eq!(scan_for_comments(text), " c");
}

#[test]
fn rule_builder_converts_markers() {
    let r = DelimiterRule::new("/*", "*/", ConsumeAction::Keep).with_escape("\\n", "\n");
    assert_eq!(r.start, vec!['/', '*']);
    assert_eq!(r.end, vec!['*', '/']);
    assert_eq!(r.escapes, vec![(vec!['\\', 'n'], vec!['\n'])]);
    assert_eq!(r.action, ConsumeAction::Keep);
}
