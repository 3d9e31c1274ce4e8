use lib::slug::{slugify, slugify_with_separator};

#[test]
fn generates_default_slugs() {
    assert_eq!(slugify("RustUse: Composable Text Primitives!"), "rustuse-composable-text-primitives");
    assert_eq!(slugify("  hello---world  "), "hello-world");
    assert_eq!(slugify("hello_world"), "hello-world");
}

#[test]
fn removes_punctuation_and_duplicate_separators() {
    assert_eq!(slugify("Hello,,, world!!!"), "hello-world");
    assert_eq!(slugify("---hello   world---"), "hello-world");
}

#[test]
fn supports_custom_separators() {
    assert_eq!(slugify_with_separator("Hello, World!", '_'), "hello_world");
    assert_eq!(slugify_with_separator("a/b/c", '.'), "a.b.c");
}

#[test]
fn drops_non_ascii_characters() {
    assert_eq!(slugify("naïve café"), "na-ve-caf");
    assert_eq!(slugify("你好，世界"), "");
}

#[test]
fn trims_leading_and_trailing_separators() {
    assert_eq!(slugify("___hello___"), "hello");
    assert_eq!(slugify_with_separator("***hello***", '_'), "hello");
}

#[test]
fn slugs_are_stable_under_reslugging() {
    let once = slugify("Ünïcode & ASCII -- Mixed 42");
    assert_eq!(once, "n-code-ascii-mixed-42");
    assert_eq!(slugify(&once), once);
    assert_eq!(slugify(""), "");
    assert_eq!(slugify_with_separator("x y", '→'), "x→y");
}

#[test]
fn readme_slug_example_and_separator_choices() {
    assert_eq!(slugify(" Release Candidate 1 "), "release-candidate-1");
    assert_eq!(slugify_with_separator("a b", 'x'), "axb");
    assert_eq!(slugify_with_separator("a b", 'X'), "aXb");
}
