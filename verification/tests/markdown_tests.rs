use lib::markdown::{
    extract_code_fences, extract_frontmatter, extract_headings, extract_images, extract_links,
    extract_outline, has_frontmatter, heading_to_anchor, is_blockquote, is_horizontal_rule,
    is_ordered_list_item, is_unordered_list_item, markdown_to_plain_text, strip_frontmatter,
    MarkdownOutline,
};

#[test]
fn extracts_headings_with_levels_lines_and_anchors() {
    let markdown = "# Intro\n\n## Getting Started\n### API Reference ###\n";

    let headings = extract_headings(markdown);

    assert_eq!(headings.len(), 3);
    assert_eq!(headings[0].level, 1);
    assert_eq!(headings[0].text, "Intro");
    assert_eq!(headings[0].line, 1);
    assert_eq!(headings[0].anchor, "intro");
    assert_eq!(headings[2].text, "API Reference");
    assert_eq!(headings[2].anchor, "api-reference");
}

#[test]
fn extracts_links_without_counting_images() {
    let markdown = "See [Rust](https://www.rust-lang.org/ \"Rust\") and ![Logo](logo.png).";

    let links = extract_links(markdown);

    assert_eq!(links.len(), 1);
    assert_eq!(links[0].text, "Rust");
    assert_eq!(links[0].target, "https://www.rust-lang.org/");
    assert_eq!(links[0].title.as_deref(), Some("Rust"));
    assert_eq!(links[0].line, 1);
}

#[test]
fn extracts_images() {
    let markdown = "![Diagram](./diagram.svg 'Architecture')";

    let images = extract_images(markdown);

    assert_eq!(images.len(), 1);
    assert_eq!(images[0].alt, "Diagram");
    assert_eq!(images[0].source, "./diagram.svg");
    assert_eq!(images[0].title.as_deref(), Some("Architecture"));
    assert_eq!(images[0].line, 1);
}

#[test]
fn extracts_code_fences_with_language_and_content() {
    let markdown = "~~~rust\nfn main() {}\n~~~\n\n```text\nalpha\nbeta\n```";

    let fences = extract_code_fences(markdown);

    assert_eq!(fences.len(), 2);
    assert_eq!(fences[0].language.as_deref(), Some("rust"));
    assert_eq!(fences[0].content, "fn main() {}");
    assert_eq!(fences[0].start_line, 1);
    assert_eq!(fences[0].end_line, 3);
    assert_eq!(fences[1].language.as_deref(), Some("text"));
    assert_eq!(fences[1].content, "alpha\nbeta");
}

#[test]
fn ignores_headings_inside_code_fences() {
    let markdown = "# Visible\n```md\n## Hidden\n```\n## Also Visible";

    let headings = extract_headings(markdown);
    let texts: Vec<&str> = headings.iter().map(|heading| heading.text.as_str()).collect();

    assert_eq!(texts, vec!["Visible", "Also Visible"]);
}

#[test]
fn extracts_and_detects_frontmatter() {
    let markdown = "---\ntitle: Example\ntags:\n  - rust\n---\n# Heading\n";

    assert!(has_frontmatter(markdown));
    assert_eq!(extract_frontmatter(markdown), Some("title: Example\ntags:\n  - rust"));
}

#[test]
fn strips_frontmatter() {
    let markdown = "+++\ntitle = \"Example\"\n+++\n# Heading\n";

    assert_eq!(strip_frontmatter(markdown), "# Heading\n");
}

#[test]
fn converts_markdown_to_plain_text() {
    let markdown = "---\ntitle: Demo\n---\n# Hello *World*\n\n> quoted [link](https://example.com)\n- Item one\n1. Item two\n![Logo](logo.png)\n\n```rust\nfn main() {}\n```\n---\n";

    assert_eq!(
        markdown_to_plain_text(markdown),
        "Hello World\nquoted link\nItem one\nItem two\nLogo\nfn main() {}"
    );
}

#[test]
fn extracts_outline_from_headings() {
    let markdown = "# Intro\n## Setup\n## Usage\n### Advanced";
    let outline = extract_outline(markdown);

    assert_eq!(outline.headings.len(), 4);
    assert_eq!(outline.headings[3].anchor, "advanced");
}

#[test]
fn generates_heading_anchors() {
    assert_eq!(heading_to_anchor("Hello, World!"), "hello-world");
    assert_eq!(heading_to_anchor("Rust's Markdown Guide"), "rusts-markdown-guide");
    assert_eq!(heading_to_anchor("  Already--Spaced  "), "already-spaced");
}

#[test]
fn detects_list_items() {
    assert!(is_unordered_list_item("- first item"));
    assert!(is_unordered_list_item("  * nested item"));
    assert!(is_ordered_list_item("1. first"));
    assert!(is_ordered_list_item("42) second"));
    assert!(!is_unordered_list_item("---"));
    assert!(!is_ordered_list_item("1.no-space"));
}

#[test]
fn detects_blockquotes() {
    assert!(is_blockquote("> quote"));
    assert!(is_blockquote("   > nested"));
    assert!(!is_blockquote("quote"));
}

#[test]
fn detects_horizontal_rules() {
    assert!(is_horizontal_rule("---"));
    assert!(is_horizontal_rule("* * *"));
    assert!(is_horizontal_rule("_ _ _ _"));
    assert!(!is_horizontal_rule("--"));
    assert!(!is_horizontal_rule("- item"));
}

#[test]
fn handles_empty_input() {
    assert!(extract_headings("").is_empty());
    assert!(extract_links("").is_empty());
    assert!(extract_images("").is_empty());
    assert!(extract_code_fences("").is_empty());
    assert_eq!(markdown_to_plain_text(""), "");
    assert_eq!(extract_frontmatter(""), None);
}

#[test]
fn handles_malformed_markdown_without_panicking() {
    let markdown = "# Heading\n[broken link](\n![image]\n```rust\n# not a heading\n";

    assert_eq!(extract_headings(markdown).len(), 1);
    assert!(extract_links(markdown).is_empty());
    assert!(extract_images(markdown).is_empty());

    let fences = extract_code_fences(markdown);
    assert_eq!(fences.len(), 1);
    assert_eq!(fences[0].end_line, markdown.lines().count());
}

#[test]
fn readme_example_holds() {
    let markdown = "# Hello World\n\nSee [Rust](https://www.rust-lang.org/).";
    assert_eq!(extract_headings(markdown)[0].anchor, "hello-world");
    assert_eq!(extract_links(markdown)[0].target, "https://www.rust-lang.org/");
    assert_eq!(markdown_to_plain_text(markdown), "Hello World\nSee Rust.");
}

#[test]
fn link_targets_in_angle_brackets_and_nested_labels() {
    let links = extract_links("[a](<my file.md> (Title))");
    assert_eq!(links.len(), 1);
    assert_eq!(links[0].text, "a");
    assert_eq!(links[0].target, "my file.md");
    assert_eq!(links[0].title.as_deref(), Some("Title"));

    let nested = extract_links("[see [docs]](url)");
    assert_eq!(nested.len(), 1);
    assert_eq!(nested[0].text, "see [docs]");
    assert_eq!(nested[0].target, "url");
    assert_eq!(nested[0].title, None);
}

#[test]
fn link_parts_that_are_not_titles_are_dropped() {
    let links = extract_links("[x](a link)\n[y](  )\n[z](b \"t\")");
    assert_eq!(links.len(), 2);
    assert_eq!(links[0].target, "a");
    assert_eq!(links[0].title, None);
    assert_eq!(links[1].text, "z");
    assert_eq!(links[1].title.as_deref(), Some("t"));
    assert_eq!(links[1].line, 3);
}

#[test]
fn images_and_links_on_one_line_are_told_apart() {
    let markdown = "![a](x.png \"T\") [b](y)";
    let images = extract_images(markdown);
    assert_eq!(images.len(), 1);
    assert_eq!(images[0].alt, "a");
    assert_eq!(images[0].source, "x.png");
    assert_eq!(images[0].title.as_deref(), Some("T"));
    let links = extract_links(markdown);
    assert_eq!(links.len(), 1);
    assert_eq!(links[0].text, "b");
    assert_eq!(links[0].target, "y");
}

#[test]
fn heading_edge_cases() {
    let headings = extract_headings("# C#\n####### seven\n#nospace\n   ## indented ##\n    # code");
    let texts: Vec<&str> = headings.iter().map(|h| h.text.as_str()).collect();
    assert_eq!(texts, vec!["C#", "indented"]);
    assert_eq!(headings[0].anchor, "c");
    assert_eq!(headings[1].level, 2);
    assert_eq!(headings[1].line, 4);
}

#[test]
fn frontmatter_lines_are_not_headings() {
    let headings = extract_headings("---\ntitle: x\n---\n# Real");
    assert_eq!(headings.len(), 1);
    assert_eq!(headings[0].text, "Real");
    assert_eq!(headings[0].line, 4);
}

#[test]
fn fences_close_only_on_a_matching_run() {
    let fences = extract_code_fences("~~~\ncode\n~~~~\n");
    assert_eq!(fences.len(), 1);
    assert_eq!(fences[0].language, None);
    assert_eq!(fences[0].content, "code");
    assert_eq!(fences[0].end_line, 3);

    let open = extract_code_fences("```\na\n~~~\n```");
    assert_eq!(open.len(), 1);
    assert_eq!(open[0].content, "a\n~~~");
    assert_eq!(open[0].start_line, 1);
    assert_eq!(open[0].end_line, 4);
}

#[test]
fn plain_text_drops_markers_and_keeps_escapes() {
    assert_eq!(
        markdown_to_plain_text("Use `code` and **bold** \\*literal\\*"),
        "Use code and bold *literal*"
    );
    assert_eq!(markdown_to_plain_text("> > - item\n***\n2) two"), "item\ntwo");
}

#[test]
fn outline_default_is_empty() {
    let outline = MarkdownOutline::default();
    assert!(outline.headings.is_empty());
    assert_eq!(extract_outline("").headings.len(), 0);
}

#[test]
fn frontmatter_is_detected_only_at_the_top() {
    assert!(!has_frontmatter("# Title\n---\na: b\n---\n"));
    assert_eq!(strip_frontmatter("# Title\n"), "# Title\n");
    assert_eq!(extract_frontmatter("---\nunclosed"), None);
}

#[test]
fn fences_are_ordered_and_do_not_overlap() {
    let fences = extract_code_fences("```\na\n```\n~~~ sh\nb");
    assert_eq!(fences.len(), 2);
    assert_eq!((fences[0].start_line, fences[0].end_line), (1, 3));
    assert_eq!((fences[1].start_line, fences[1].end_line), (4, 5));
    assert_eq!(fences[1].language.as_deref(), Some("sh"));
    assert!(fences[0].end_line < fences[1].start_line);
}

#[test]
fn references_come_only_from_text_lines() {
    let markdown = "[a](x)\n```\n[b](y)\n```\n[c](z) [d](w)";
    let links = extract_links(markdown);
    let found: Vec<(&str, usize)> = links.iter().map(|l| (l.text.as_str(), l.line)).collect();
    assert_eq!(found, vec![("a", 1), ("c", 5), ("d", 5)]);
    assert!(extract_images("```\n![i](x)\n```").is_empty());
}

#[test]
fn ascii_anchors_are_clean_and_stable() {
    for text in ["Hello, World!", "  --Already--Spaced--  ", "C# & C++ 2024", "'quoted' \"words\""] {
        let anchor = heading_to_anchor(text);
        assert!(anchor.chars().all(|c| c.is_ascii_lowercase() || c.is_ascii_digit() || c == '-'));
        assert!(!anchor.starts_with('-') && !anchor.ends_with('-') && !anchor.contains("--"));
        let letters: String = text
            .chars()
            .filter(|c| c.is_ascii_alphanumeric())
            .map(|c| c.to_ascii_lowercase())
            .collect();
        assert_eq!(anchor.replace('-', ""), letters);
        assert_eq!(heading_to_anchor(&anchor), anchor);
    }
    assert_eq!(heading_to_anchor("C# & C++ 2024"), "c-c-2024");
}

#[test]
fn plain_text_lines_are_clean_and_frontmatter_can_be_stripped_first() {
    let markdown = "---\ntitle: x\n---\n#  Title  \n\n```\n  code  \n```\n- item\n";
    let text = markdown_to_plain_text(markdown);
    assert_eq!(text, "Title\ncode\nitem");
    assert!(text.split('\n').all(|l| !l.is_empty() && l == l.trim()));
    assert!(text.split('\n').count() <= markdown.lines().count());
    assert_eq!(markdown_to_plain_text(strip_frontmatter(markdown)), text);
}

#[test]
fn frontmatter_needs_a_matching_closing_line() {
    assert!(has_frontmatter("\u{feff}+++\na = 1\n +++ \nbody"));
    assert!(!has_frontmatter("---\na: 1\n+++\n"));
    assert!(has_frontmatter("---\r\na: 1\r\n---"));
    assert_eq!(extract_frontmatter("---\r\na: 1\r\n---"), Some("a: 1"));
}
