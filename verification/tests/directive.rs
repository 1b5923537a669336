use librbs_core::directive::{is_type_name_resolution_disabled, match_magic_comment};

fn matches(s: &str) -> bool {
    match_magic_comment(s).is_some()
}

#[test]
fn matches_true_form() {
    let m = match_magic_comment("# resolve-type-names: true\nclass A end\n").unwrap();
    assert!(m.value_true);
}

#[test]
fn matches_false_form() {
    let m = match_magic_comment("# resolve-type-names: false\n").unwrap();
    assert!(!m.value_true);
}

#[test]
fn rejects_no_space_after_colon() {
    assert!(!matches("# resolve-type-names:false\n"));
}

#[test]
fn rejects_unrelated_comment() {
    assert!(!matches("# something else\n"));
}

#[test]
fn rejects_when_not_at_start() {
    assert!(!matches("\n# resolve-type-names: true\n"));
}

#[test]
fn allows_no_space_before_keyword() {
    let m = match_magic_comment("#resolve-type-names: true\n").unwrap();
    assert!(m.value_true);
}

#[test]
fn magic_comment_offsets_count_characters() {
    let m = match_magic_comment("#  resolve-type-names :\tfalse").unwrap();
    assert_eq!(m.keyword_start, 3);
    assert_eq!(m.keyword_end, 21);
    assert_eq!(m.colon_start, 22);
    assert_eq!(m.colon_end, 23);
    assert_eq!(m.value_start, 24);
    assert_eq!(m.value_end, 29);
    assert_eq!(m.start, 3);
    assert_eq!(m.end, 29);
    assert!(!m.value_true);
    assert!(!matches("# resolve-type-names: truex\n"));
    assert!(matches("# resolve-type-names: true\r\n"));
}

#[test]
fn detects_resolve_type_names_false_at_start() {
    assert!(is_type_name_resolution_disabled("# resolve-type-names: false\n"));
    assert!(is_type_name_resolution_disabled("#  resolve-type-names :    false\n"));
    // No newline at end of input — the directive on the only line
    // still counts.
    assert!(is_type_name_resolution_disabled("# resolve-type-names: false"));
}

#[test]
fn ignores_resolve_type_names_true() {
    assert!(!is_type_name_resolution_disabled("# resolve-type-names: true\n"));
}

#[test]
fn ignores_directive_not_at_start() {
    let src = "class Foo end\n# resolve-type-names: false\n";
    assert!(!is_type_name_resolution_disabled(src));
}

#[test]
fn ignores_unrelated_comment() {
    assert!(!is_type_name_resolution_disabled("# coding: utf-8\n"));
}

#[test]
fn requires_whitespace_between_colon_and_value() {
    assert!(!is_type_name_resolution_disabled("#resolve-type-names:false\n"));
}

#[test]
fn ignores_trailing_garbage_on_directive_line() {
    assert!(!is_type_name_resolution_disabled("# resolve-type-names: false junk\n"));
}

#[test]
fn crlf_line_end_still_disables() {
    assert!(is_type_name_resolution_disabled("# resolve-type-names: false\r\nclass A end\n"));
    assert!(!is_type_name_resolution_disabled(""));
    assert!(!is_type_name_resolution_disabled("# resolve-type-names: false "));
}
