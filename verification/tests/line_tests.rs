use lib::line::{
    dedent_lines, indent_lines, line_count, lines_with_numbers, non_empty_line_count,
    normalize_line_endings, trim_lines, LineEnding, LineNumber, LineStats,
};

#[test]
fn counts_empty_and_whitespace_only_inputs() {
    assert_eq!(line_count(""), 0);
    assert_eq!(line_count("\n"), 1);
    assert_eq!(non_empty_line_count("  \n\t"), 0);
}

#[test]
fn trims_and_normalizes_multiline_text() {
    assert_eq!(trim_lines(" alpha \n beta "), "alpha\nbeta");
    assert_eq!(normalize_line_endings("a\r\nb\rc\n", LineEnding::Lf), "a\nb\nc\n");
    assert_eq!(normalize_line_endings("a\nb", LineEnding::Crlf), "a\r\nb");
}

#[test]
fn indents_and_dedents_lines() {
    assert_eq!(indent_lines("alpha\nbeta", "  "), "  alpha\n  beta");
    assert_eq!(dedent_lines("    alpha\n      beta\n    \n    gamma"), "alpha\n  beta\n\ngamma");
}

#[test]
fn numbers_lines_and_builds_stats() {
    let lines = lines_with_numbers("alpha\nbeta\n");
    assert_eq!(lines.len(), 2);
    assert_eq!(lines[0].number.get(), 1);
    assert_eq!(lines[1].text, "beta");

    let stats = LineStats::from_text("alpha\n\n beta ");
    assert_eq!(stats.total, 3);
    assert_eq!(stats.non_empty, 2);
}

#[test]
fn handles_unicode_text_without_special_cases() {
    assert_eq!(trim_lines(" café \n Straße "), "café\nStraße");
}

#[test]
fn line_endings_as_str_and_cr_only_input() {
    assert_eq!(LineEnding::Lf.as_str(), "\n");
    assert_eq!(LineEnding::Crlf.as_str(), "\r\n");
    assert_eq!(LineEnding::Cr.as_str(), "\r");
    assert_eq!(normalize_line_endings("a\nb\n", LineEnding::Cr), "a\rb\r");
    assert_eq!(normalize_line_endings("a\rb", LineEnding::Lf), "a\nb");
    assert_eq!(normalize_line_endings("a\r\nb", LineEnding::Crlf), "a\r\nb");
    assert_eq!(line_count("a\r\nb\r\n"), 2);
}

#[test]
fn normalizing_endings_round_trips() {
    let input = "one\r\ntwo\rthree\nfour";
    let crlf = normalize_line_endings(input, LineEnding::Crlf);
    assert_eq!(crlf, "one\r\ntwo\r\nthree\r\nfour");
    assert_eq!(normalize_line_endings(&crlf, LineEnding::Lf), "one\ntwo\nthree\nfour");
}

#[test]
fn dedent_ignores_blank_lines_and_keeps_unindented_text() {
    assert_eq!(dedent_lines("alpha\n  beta"), "alpha\n  beta");
    assert_eq!(dedent_lines("\t\talpha\n\tbeta"), "\talpha\nbeta");
    assert_eq!(dedent_lines(""), "");
    assert_eq!(indent_lines("", "> "), "");
}

#[test]
fn line_numbers_are_one_based() {
    let number = LineNumber::new(7);
    assert_eq!(number.get(), 7);
    let lines = lines_with_numbers("a\nb\nc");
    assert_eq!(lines[2].number.get(), 3);
    assert_eq!(lines[2].text, "c");
}

#[test]
fn readme_line_examples() {
    assert_eq!(line_count("alpha\nbeta\n"), 2);
    assert_eq!(dedent_lines("    alpha\n      beta"), "alpha\n  beta");
    assert_eq!(lines_with_numbers("alpha")[0].number.get(), 1);
    assert_eq!(LineEnding::Crlf.as_str(), "\r\n");
}

#[test]
fn dedent_undoes_indent_and_endings_split_back() {
    let text = "alpha\n  beta\n\ngamma";
    for indent in ["  ", "\t", " \t "] {
        assert_eq!(dedent_lines(&indent_lines(text, indent)), text);
    }
    let input = "a\r\nb\rc\n";
    for ending in [LineEnding::Lf, LineEnding::Crlf, LineEnding::Cr] {
        let out = normalize_line_endings(input, ending);
        let pieces: Vec<&str> = out.split(ending.as_str()).collect();
        assert_eq!(pieces, vec!["a", "b", "c", ""]);
        assert_eq!(normalize_line_endings(&out, LineEnding::Lf), normalize_line_endings(input, LineEnding::Lf));
    }
}
