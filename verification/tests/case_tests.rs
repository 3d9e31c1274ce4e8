use lib::case::{to_camel_case, to_kebab_case, to_pascal_case, to_snake_case, to_title_case};

#[test]
fn converts_to_snake_case() {
    assert_eq!(to_snake_case("hello world"), "hello_world");
    assert_eq!(to_snake_case("hello-world"), "hello_world");
    assert_eq!(to_snake_case("hello_world"), "hello_world");
    assert_eq!(to_snake_case("HelloWorld"), "hello_world");
    assert_eq!(to_snake_case("helloWorld"), "hello_world");
    assert_eq!(to_snake_case("HTTPServer"), "http_server");
    assert_eq!(to_snake_case("__Hello---World__"), "hello_world");
}

#[test]
fn converts_to_kebab_case() {
    assert_eq!(to_kebab_case("hello world"), "hello-world");
    assert_eq!(to_kebab_case("hello_world"), "hello-world");
    assert_eq!(to_kebab_case("HTTPServer"), "http-server");
}

#[test]
fn converts_to_camel_case() {
    assert_eq!(to_camel_case("hello world"), "helloWorld");
    assert_eq!(to_camel_case("hello-world"), "helloWorld");
    assert_eq!(to_camel_case("HTTPServer"), "httpServer");
}

#[test]
fn converts_to_pascal_case() {
    assert_eq!(to_pascal_case("hello world"), "HelloWorld");
    assert_eq!(to_pascal_case("hello-world"), "HelloWorld");
    assert_eq!(to_pascal_case("HTTPServer"), "HttpServer");
}

#[test]
fn converts_to_title_case() {
    assert_eq!(to_title_case("hello world"), "Hello World");
    assert_eq!(to_title_case("hello-world"), "Hello World");
    assert_eq!(to_title_case("HTTPServer"), "Http Server");
}

#[test]
fn returns_empty_output_for_empty_input() {
    assert_eq!(to_snake_case(""), "");
    assert_eq!(to_kebab_case("---"), "");
    assert_eq!(to_camel_case("___"), "");
    assert_eq!(to_pascal_case("   "), "");
    assert_eq!(to_title_case("\n\t"), "");
}

#[test]
fn case_words_split_on_digits_to_letters_and_acronyms() {
    assert_eq!(to_snake_case("parseXMLDocument"), "parse_xml_document");
    assert_eq!(to_kebab_case("version2Update"), "version2-update");
    assert_eq!(to_pascal_case("élan vital"), "ÉlanVital");
    assert_eq!(to_title_case("ÉCOLE normale"), "École Normale");
}

#[test]
fn case_conversions_keep_only_alphanumerics() {
    assert_eq!(to_snake_case("a.b,c!"), "a_b_c");
    assert_eq!(to_camel_case("  many   spaces here "), "manySpacesHere");
}

#[test]
fn documented_case_examples() {
    assert_eq!(to_snake_case("HTTP Server Config"), "http_server_config");
    assert_eq!(to_kebab_case("HelloWorld"), "hello-world");
    assert_eq!(to_pascal_case("http_server"), "HttpServer");
}

#[test]
fn readme_case_example() {
    assert_eq!(to_snake_case("HTTPServerError"), "http_server_error");
}

#[test]
fn unicode_case_transitions_split_words() {
    assert_eq!(to_snake_case("ÉcoleNormale"), "école_normale");
}

#[test]
fn kebab_is_snake_with_dashes_and_pascal_is_title_without_spaces() {
    for input in ["HTTPServerError", "hello world", "__a1B2c__", "parseXMLDocument"] {
        assert_eq!(to_kebab_case(input), to_snake_case(input).replace('_', "-"));
        assert_eq!(to_pascal_case(input), to_title_case(input).replace(' ', ""));
    }
}

#[test]
fn case_relations_hold_beyond_ascii() {
    for input in ["ÉcoleNormale", "straße_Köln", "Ωmega ΣIGMA", "İstanbul trip"] {
        assert_eq!(to_kebab_case(input), to_snake_case(input).replace('_', "-"));
        assert_eq!(to_pascal_case(input), to_title_case(input).replace(' ', ""));
    }
}
