use markdown_render::url_utility::{relative_url, UrlParse};
use markdown_render::utilities::stack::Stack;

#[test]
fn test_relative_url() {
    assert!(relative_url("/about.html"));
    assert!(relative_url("#some-id"));
    assert_eq!(relative_url("https://example.com"), false);
}

#[test]
fn relative_url_takes_a_malformed_url_for_absolute() {
    assert_eq!(relative_url("https://"), false);
    assert_eq!(relative_url("http://[::1"), false);
    assert_eq!(relative_url("mailto:someone@example.com"), false);
    assert!(relative_url(""));
    assert!(relative_url("../main.css"));
    assert!(relative_url("//example.com/path"));
}

#[test]
fn only_a_missing_base_marks_a_relative_reference() {
    assert!(UrlParse::RelativeWithoutBase.is_relative());
    assert!(!UrlParse::Absolute.is_relative());
    assert!(!UrlParse::Invalid.is_relative());
}

#[test]
fn stack_pops_in_reverse_order() {
    let mut stack: Stack<u32> = Stack::new();
    assert!(stack.is_empty());
    assert_eq!(stack.pop(), None);
    stack.push(1);
    stack.push(2);
    stack.push(3);
    assert!(!stack.is_empty());
    assert_eq!(stack.pop(), Some(3));
    stack.push(4);
    assert_eq!(stack.pop(), Some(4));
    assert_eq!(stack.pop(), Some(2));
    assert_eq!(stack.pop(), Some(1));
    assert_eq!(stack.pop(), None);
    assert!(stack.is_empty());
}

fn reads_a_scheme(text: &str) -> bool {
    let input: Vec<char> = text
        .trim_matches(|c: char| c <= ' ')
        .chars()
        .filter(|c| !matches!(c, '\t' | '\n' | '\r'))
        .collect();
    let run = input
        .iter()
        .take_while(|c| c.is_ascii_alphanumeric() || matches!(c, '+' | '-' | '.'))
        .count();
    !input.is_empty() && input[0].is_ascii_alphabetic() && run < input.len() && input[run] == ':'
}

#[test]
fn a_reference_is_relative_exactly_if_no_scheme_can_be_read() {
    let samples = [
        "",
        " ",
        "\t",
        "/about.html",
        "#some-id",
        "?q=1",
        "../main.css",
        "//example.com/path",
        "about.html",
        "https://example.com",
        "  https://example.com  ",
        "\u{1}https://example.com\u{1f}",
        "ht\ttp://example.com",
        "h\nt\rtp:\t//example.com",
        "\nhttps://example.com",
        "HTTPS://EXAMPLE.COM",
        "mailto:someone@example.com",
        "a:",
        "a",
        ":",
        ":a",
        "1a:b",
        "+a:b",
        "a1+.-:b",
        "a b:c",
        "a\u{a0}:c",
        "a_b:c",
        "\u{e9}:c",
        "a\u{e9}:c",
        "https:",
        "https",
        "https//example.com",
        "https://",
        "http://[::1",
        "file:///tmp/x",
        "data:text/plain,hello",
        "javascript:void(0)",
        "c:\\windows",
        "x:\u{7f}",
        "a\u{0}:b",
        " \u{0} a:b \u{0} ",
        "\u{a0}a:b",
    ];
    for sample in samples {
        assert_eq!(relative_url(sample), !reads_a_scheme(sample), "for {:?}", sample);
    }
}
