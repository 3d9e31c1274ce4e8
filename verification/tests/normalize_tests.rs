use lib::normalize::{
    collapse_whitespace, ensure_single_trailing_newline, normalize_whitespace, remove_empty_lines,
    trim_lines,
};

#[test]
fn normalizes_whitespace() {
    assert_eq!(normalize_whitespace("  composable   text\n\nprimitives  "), "composable text primitives");
    assert_eq!(normalize_whitespace("\t spaced \t"), "spaced");
}

#[test]
fn collapses_whitespace_without_trimming() {
    assert_eq!(collapse_whitespace("  hello\nworld  "), " hello world ");
    assert_eq!(collapse_whitespace("a\t\tb"), "a b");
}

#[test]
fn trims_each_line() {
    assert_eq!(trim_lines("  one  \n\t two\t\n"), "one\ntwo\n");
    assert_eq!(trim_lines(" line "), "line");
}

#[test]
fn removes_empty_lines_after_trimming() {
    assert_eq!(remove_empty_lines(" one \n\n  \n two "), "one\ntwo");
    assert_eq!(remove_empty_lines("\n\t\n"), "");
}

#[test]
fn ensures_exactly_one_trailing_newline() {
    assert_eq!(ensure_single_trailing_newline("hello"), "hello\n");
    assert_eq!(ensure_single_trailing_newline("hello\n\n"), "hello\n");
    assert_eq!(ensure_single_trailing_newline(""), "\n");
}

#[test]
fn normalizing_is_idempotent_on_examples() {
    let once = normalize_whitespace("\u{3000}wide\u{a0}space\r\nhere ");
    assert_eq!(once, "wide space here");
    assert_eq!(normalize_whitespace(&once), once);
    assert_eq!(normalize_whitespace(""), "");
    assert_eq!(collapse_whitespace(""), "");
    assert_eq!(collapse_whitespace("   "), " ");
}

#[test]
fn trailing_newline_is_idempotent_and_keeps_inner_blank_lines() {
    let once = ensure_single_trailing_newline("a\n\nb\n\n\n");
    assert_eq!(once, "a\n\nb\n");
    assert_eq!(ensure_single_trailing_newline(&once), once);
    assert_eq!(ensure_single_trailing_newline("a\r\n"), "a\r\n");
}

#[test]
fn line_helpers_split_on_line_feeds_only() {
    assert_eq!(trim_lines(" a \r\n b "), "a\nb");
    assert_eq!(trim_lines(""), "");
    assert_eq!(remove_empty_lines(""), "");
}

#[test]
fn line_cleanups_are_idempotent() {
    let once = trim_lines("  a  \n\n\t b \n");
    assert_eq!(once, "a\n\nb\n");
    assert_eq!(trim_lines(&once), once);
    let removed = remove_empty_lines(" x \n\n y \n \n");
    assert_eq!(removed, "x\ny");
    assert_eq!(remove_empty_lines(&removed), removed);
    let collapsed = collapse_whitespace(" a \t\n b ");
    assert_eq!(collapsed, " a b ");
    assert_eq!(collapse_whitespace(&collapsed), collapsed);
}
