use ramilang::fenced::extract_all;
use ramilang::text::{chars_eq, str_to_chars};
use ramilang::translation_file::{TranslationEntry, TranslationFile, TranslationFileError};
use ramilang::ts_file::{
    add_usage_keys, find_format_message_usages, find_formatted_message_usages, find_misc_usages,
    keys_contain,
};

fn cs(s: &str) -> Vec<char> {
    s.chars().collect()
}

fn table(path: &str, text: &str) -> TranslationFile {
    TranslationFile::from_text(cs(path), &cs(text)).expect("table should load")
}

fn key_strings(usages: &[(usize, Vec<char>)]) -> Vec<String> {
    usages.iter().map(|(_, k)| k.iter().collect()).collect()
}

#[test]
fn non_overlapping_single_capture() {
    let text = cs("X(a)Y(b)");
    let r = extract_all(&text, &cs("X("), &cs(")"));
    assert_eq!(r.len(), 1);
    assert_eq!(r[0].0, 2);
    assert_eq!(r[0].1, cs("a"));
}

#[test]
fn captures_resume_after_end_marker() {
    let text = cs("X(a)X(b)X(c)");
    let r = extract_all(&text, &cs("X("), &cs(")"));
    assert_eq!(r.len(), 3);
    assert_eq!(r[0].1, cs("a"));
    assert_eq!(r[1].1, cs("b"));
    assert_eq!(r[2].1, cs("c"));
    assert_eq!(r[0].0, 2);
    assert_eq!(r[1].0, 6);
    assert_eq!(r[2].0, 10);
}

#[test]
fn nearest_end_marker_wins() {
    let text = cs("X(a X(b) c");
    let r = extract_all(&text, &cs("X("), &cs(")"));
    assert_eq!(r.len(), 1);
    assert_eq!(r[0].1, cs("a X(b"));
}

#[test]
fn extraction_is_deterministic() {
    let text = cs("X(a)X(b) X( X(c)");
    let first = extract_all(&text, &cs("X("), &cs(")"));
    let second = extract_all(&text, &cs("X("), &cs(")"));
    assert_eq!(first, second);
}

#[test]
fn unterminated_span_yields_no_capture() {
    let text = cs("X(a) and then X(b with no end");
    let r = extract_all(&text, &cs("X("), &cs(")"));
    assert_eq!(r.len(), 1);
    assert_eq!(r[0].1, cs("a"));
}

#[test]
fn unterminated_span_alone_yields_nothing() {
    let text = cs("only a start X(marker here");
    let r = extract_all(&text, &cs("X("), &cs(")"));
    assert_eq!(r.len(), 0);
}

#[test]
fn formatted_message_usage_found() {
    let text = cs("<FormattedMessage id=\"hello\" />");
    let r = find_formatted_message_usages(&text);
    assert_eq!(key_strings(&r), vec!["hello".to_string()]);
}

#[test]
fn format_message_usages_both_quoting_styles() {
    let text = cs("formatMessage('first') then formatMessage(\"second\")");
    let r = find_format_message_usages(&text);
    assert_eq!(key_strings(&r), vec!["first".to_string(), "second".to_string()]);
}

#[test]
fn misc_usages_both_quoting_styles() {
    let text = cs("{ id: 'alpha' } { id: \"beta\" }");
    let r = find_misc_usages(&text);
    assert_eq!(key_strings(&r), vec!["alpha".to_string(), "beta".to_string()]);
}

#[test]
fn used_keys_fold_collapses_duplicates() {
    let mut used: Vec<Vec<char>> = Vec::new();
    let usages = vec![(0usize, cs("a")), (5usize, cs("b")), (9usize, cs("a"))];
    add_usage_keys(&mut used, &usages);
    assert_eq!(used.len(), 2);
    assert!(keys_contain(&used, &cs("a")));
    assert!(keys_contain(&used, &cs("b")));
    let more = vec![(2usize, cs("b")), (7usize, cs("c"))];
    add_usage_keys(&mut used, &more);
    assert_eq!(used.len(), 3);
    assert!(keys_contain(&used, &cs("c")));
}

#[test]
fn table_loads_entries_in_file_order() {
    let t = table("en.txt", "hello=Hello\nbye=Goodbye\n");
    assert_eq!(t.entries.len(), 2);
    assert_eq!(t.entries[0].key, cs("hello"));
    assert_eq!(t.entries[0].value, cs("Hello"));
    assert_eq!(t.entries[1].key, cs("bye"));
    assert_eq!(t.entries[1].value, cs("Goodbye"));
}

#[test]
fn table_trims_keys_and_values_and_skips_blank_lines() {
    let t = table("en.txt", "  hello =  Hi there \n\n   \nbye=Later\n");
    assert_eq!(t.entries.len(), 2);
    assert_eq!(t.entries[0].key, cs("hello"));
    assert_eq!(t.entries[0].value, cs("Hi there"));
    assert_eq!(t.entries[1].key, cs("bye"));
}

#[test]
fn table_splits_on_first_equals_sign() {
    let t = table("en.txt", "greeting=a=b\n");
    assert_eq!(t.entries.len(), 1);
    assert_eq!(t.entries[0].key, cs("greeting"));
    assert_eq!(t.entries[0].value, cs("a=b"));
}

#[test]
fn table_keeps_first_of_duplicate_keys() {
    let t = table("en.txt", "a=1\na=2\n");
    assert_eq!(t.entries.len(), 1);
    assert_eq!(t.entries[0].value, cs("1"));
}

#[test]
fn malformed_line_fails_load() {
    let r = TranslationFile::from_text(cs("en.txt"), &cs("not_a_pair"));
    assert_eq!(r.unwrap_err(), TranslationFileError::ParseError { line: 0 });
}

#[test]
fn malformed_line_position_counted_from_zero() {
    let r = TranslationFile::from_text(cs("en.txt"), &cs("a=1\nnot_a_pair\nb=2\n"));
    assert_eq!(r.unwrap_err(), TranslationFileError::ParseError { line: 1 });
}

#[test]
fn empty_key_is_malformed() {
    let r = TranslationFile::from_text(cs("en.txt"), &cs("=value\n"));
    assert_eq!(r.unwrap_err(), TranslationFileError::ParseError { line: 0 });
}

#[test]
fn missing_key_reported_against_smaller_table() {
    let en = table("en.txt", "hello=Hello\nbye=Goodbye\n");
    let sv = table("sv.txt", "hello=Hej\n");
    let (en_errors, sv_errors) = en.is_compatible_with(&sv).unwrap_err();
    assert!(en_errors.is_empty());
    assert_eq!(sv_errors.len(), 1);
    assert_eq!(
        sv_errors[0],
        TranslationFileError::MissingKey { key: cs("bye"), missing_in: cs("sv.txt") }
    );
}

#[test]
fn empty_value_reported_whatever_the_other_table_holds() {
    let en = table("en.txt", "hello=\n");
    let sv = table("sv.txt", "hello=Hej\n");
    let (en_errors, sv_errors) = en.is_compatible_with(&sv).unwrap_err();
    assert_eq!(en_errors, vec![TranslationFileError::EmptyValue(cs("hello"))]);
    assert!(sv_errors.is_empty());
}

#[test]
fn value_of_only_blanks_counts_as_empty() {
    let en = table("en.txt", "hello=   \n");
    let sv = table("sv.txt", "hello=Hej\n");
    let (en_errors, _) = en.is_compatible_with(&sv).unwrap_err();
    assert_eq!(en_errors, vec![TranslationFileError::EmptyValue(cs("hello"))]);
}

#[test]
fn compatible_tables_give_ok() {
    let en = table("en.txt", "hello=Hello\nbye=Goodbye\n");
    let sv = table("sv.txt", "bye=Hejda\nhello=Hej\n");
    assert!(en.is_compatible_with(&sv).is_ok());
}

#[test]
fn compatibility_is_symmetric() {
    let en = table("en.txt", "hello=Hello\nbye=Goodbye\nempty=\n");
    let sv = table("sv.txt", "hello=Hej\nextra=Mer\n");
    let (en_list, sv_list) = en.is_compatible_with(&sv).unwrap_err();
    let (sv_list_swapped, en_list_swapped) = sv.is_compatible_with(&en).unwrap_err();
    assert_eq!(en_list, en_list_swapped);
    assert_eq!(sv_list, sv_list_swapped);
}

#[test]
fn both_lists_reported_with_their_owners() {
    let en = table("en.txt", "a=1\n");
    let sv = table("sv.txt", "b=2\n");
    let (en_errors, sv_errors) = en.is_compatible_with(&sv).unwrap_err();
    assert_eq!(
        en_errors,
        vec![TranslationFileError::MissingKey { key: cs("b"), missing_in: cs("en.txt") }]
    );
    assert_eq!(
        sv_errors,
        vec![TranslationFileError::MissingKey { key: cs("a"), missing_in: cs("sv.txt") }]
    );
}

#[test]
fn invalid_usage_found_for_undefined_key() {
    let en = table("en.txt", "hello=Hello\n");
    let text = cs("formatMessage('missing_key')");
    let usages = find_format_message_usages(&text);
    let mut used: Vec<Vec<char>> = Vec::new();
    add_usage_keys(&mut used, &usages);
    let invalid = en.find_invalid_usages(&used);
    assert_eq!(invalid, vec![cs("missing_key")]);
}

#[test]
fn defined_usages_are_not_invalid() {
    let en = table("en.txt", "hello=Hello\n");
    let used = vec![cs("hello")];
    assert!(en.find_invalid_usages(&used).is_empty());
}

#[test]
fn unused_key_reported_when_never_observed() {
    let en = table("en.txt", "hello=Hello\nbye=Goodbye\n");
    let used = vec![cs("hello")];
    let ignored: Vec<Vec<char>> = Vec::new();
    let unused = en.find_unused_keys(&used, &ignored);
    assert_eq!(unused, vec![TranslationEntry { key: cs("bye"), value: cs("Goodbye") }]);
}

#[test]
fn ignored_keys_are_not_reported_unused() {
    let en = table("en.txt", "hello=Hello\nbye=Goodbye\n");
    let used = vec![cs("hello")];
    let ignored = vec![cs("bye")];
    assert!(en.find_unused_keys(&used, &ignored).is_empty());
}

#[test]
fn scan_feeds_compatibility_checks_end_to_end() {
    let en = table("en.txt", "hello=Hello\nbye=Goodbye\n");
    let source = cs("<FormattedMessage id=\"hello\" /> and formatMessage('ghost')");
    let mut used: Vec<Vec<char>> = Vec::new();
    add_usage_keys(&mut used, &find_formatted_message_usages(&source));
    add_usage_keys(&mut used, &find_format_message_usages(&source));
    add_usage_keys(&mut used, &find_misc_usages(&source));
    let invalid = en.find_invalid_usages(&used);
    assert_eq!(invalid, vec![cs("ghost")]);
    let unused = en.find_unused_keys(&used, &Vec::new());
    assert_eq!(unused.len(), 1);
    assert_eq!(unused[0].key, cs("bye"));
}

#[test]
fn str_to_chars_matches_char_iteration() {
    let v = str_to_chars("abc def");
    assert_eq!(v, cs("abc def"));
    assert!(str_to_chars("").is_empty());
}

#[test]
fn chars_eq_compares_contents() {
    assert!(chars_eq(&cs("abc"), &cs("abc")));
    assert!(!chars_eq(&cs("abc"), &cs("abd")));
    assert!(!chars_eq(&cs("abc"), &cs("ab")));
}
