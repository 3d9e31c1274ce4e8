use lib::case::to_snake_case;
use lib::line::LineEnding;
use lib::markdown::{extract_headings, heading_to_anchor};
use lib::slug::slugify;
use lib::token::token_count;
use lib::word::word_count;

#[test]
fn facade_exposes_focused_crates() {
    assert_eq!(to_snake_case("HelloWorld"), "hello_world");
    assert_eq!(extract_headings("# Hello")[0].text, "Hello");
    assert_eq!(heading_to_anchor("Hello World"), "hello-world");
    assert_eq!(slugify("Hello World"), "hello-world");
    assert_eq!(token_count("Hello world"), 2);
    assert_eq!(word_count("Hello world"), 2);
    assert_eq!(LineEnding::Lf.as_str(), "\n");
}
