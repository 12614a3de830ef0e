use std::borrow::Cow;

use markdown_render::text::format_line;

#[test]
fn format_line_replaces_inner_apostrophe() {
    let line = "My apple's quite tasty.";
    let result = format_line(line);
    assert_eq!(result, "My apple’s quite tasty.");
}

#[test]
fn test_line_replaces_outer_apostrophe() {
    let line = "My trees' apples are tasty.";
    let result = format_line(line);
    assert_eq!(result, "My trees’ apples are tasty.");
}

#[test]
fn test_line_adds_double_smart_quotes() {
    let line = r#"The person said "My apple is quite tasty.""#;
    let result = format_line(line);
    assert_eq!(result, r#"The person said “My apple is quite tasty.”"#);
}

#[test]
fn test_line_adds_single_smart_quotes() {
    let line = "My apple is quite 'tasty'.";
    let result = format_line(line);
    assert_eq!(result, "My apple is quite ‘tasty’.");
}

#[test]
fn test_line_replaces_unmatched_single_double_quote_pairs() {
    let line = r#"My apple is quite 'tasty"."#;
    let result = format_line(line);
    assert_eq!(result, "My apple is quite ‘tasty”.");
}

#[test]
fn test_line_does_nothing_when_line_has_no_quotes_or_apostrophes() {
    let line = "My apple is quite tasty.";
    let result = format_line(line);
    assert_eq!(result, "My apple is quite tasty.");
}

#[test]
fn format_line_opens_a_quotation_at_the_start_of_the_line() {
    assert_eq!(format_line("\"Quite,\" they said."), "“Quite,” they said.");
    assert_eq!(format_line("'Tis the season"), "‘Tis the season");
}

#[test]
fn format_line_closes_after_a_character_that_is_not_a_space() {
    assert_eq!(format_line("caf\u{e9}'s"), "caf\u{e9}\u{2019}s");
    assert_eq!(format_line("a\t'b'"), "a\t\u{2019}b\u{2019}");
}

#[test]
fn format_line_keeps_an_empty_line() {
    assert_eq!(format_line(""), "");
}

#[test]
fn format_line_borrows_a_line_without_quotes_and_writes_any_other_anew() {
    let line = String::from("My apple is quite tasty.");
    assert!(matches!(format_line(&line), Cow::Borrowed(_)));
    assert!(matches!(format_line(""), Cow::Borrowed(_)));
    assert!(matches!(format_line("it's"), Cow::Owned(_)));
}
