use nom::branch::alt;
use nom::bytes::complete::{is_not, tag};
use nom::character::complete::{alphanumeric1, multispace0};
use nom::combinator::recognize;
use nom::multi::many1_count;
use nom::sequence::{delimited, pair};
use nom::IResult;

use markdown_render::inline_html::{
    parse_closing_html_tag, parse_html_tag_content, parse_node, parse_opening_html_tag,
    InlineHTMLTagType,
};

fn owned(parts: (&str, (&str, &str))) -> Option<(String, (String, String))> {
    let (remainder, (name, attributes)) = parts;
    Some((remainder.to_string(), (name.to_string(), attributes.to_string())))
}

fn owned_tag(
    parts: (&str, (&str, &str, InlineHTMLTagType)),
) -> Option<(String, (String, String, InlineHTMLTagType))> {
    let (remainder, (name, attributes, tag)) = parts;
    Some((remainder.to_string(), (name.to_string(), attributes.to_string(), tag)))
}

#[test]
pub fn parse_html_tag_content_parses_valid_html_tag_without_attributes() {
    // arrange
    let tag_content = "abbr";

    // act
    let result = parse_html_tag_content(tag_content);

    // assert
    assert_eq!(result, owned(("", ("abbr", ""))));
}

#[test]
pub fn parse_html_tag_content_parses_valid_html_tag_with_attributes() {
    // arrange
    let tag_content = r#"tool-tip inert role="tooltip""#;

    // act
    let result = parse_html_tag_content(tag_content);

    // assert
    assert_eq!(result, owned(("", ("tool-tip", r#"inert role="tooltip""#))));
}

#[test]
pub fn parse_opening_html_tag_parses_valid_html_tag_without_attributes() {
    // arrange
    let tag = "<abbr>";

    // act
    let result = parse_opening_html_tag(tag);

    // assert
    assert_eq!(
        result,
        owned_tag((
            "",
            ("abbr", "", InlineHTMLTagType::Opening(String::from("abbr")))
        ))
    );
}

#[test]
pub fn parse_opening_html_tag_parses_valid_html_tag_with_attributes() {
    // arrange
    let tag = r#"<tool-tip inert role="tooltip">"#;

    // act
    let result = parse_opening_html_tag(tag);

    // assert
    assert_eq!(
        result,
        owned_tag((
            "",
            (
                "tool-tip",
                r#"inert role="tooltip""#,
                InlineHTMLTagType::Opening(String::from("tool-tip"))
            )
        ))
    );
}

#[test]
pub fn parse_closing_html_tag_parses_valid_html_tag() {
    // arrange
    let tag = "</tool-tip>";

    // act
    let result = parse_closing_html_tag(tag);

    // assert
    assert_eq!(
        result,
        owned_tag((
            "",
            (
                "tool-tip",
                "",
                InlineHTMLTagType::Closing(String::from("tool-tip"))
            )
        ))
    );
}

#[test]
pub fn parse_node_parses_valid_opening_html_tag() {
    // arrange
    let tag = "</tool-tip>";

    // act
    let result = parse_node(tag);

    // assert
    assert_eq!(
        result,
        Some(InlineHTMLTagType::Closing(String::from("tool-tip")))
    );
}

#[test]
pub fn parse_node_parses_valid_closing_html_tag() {
    // arrange
    let tag = r#"<tool-tip inert role="tooltip">"#;

    // act
    let result = parse_node(tag);

    // assert
    assert_eq!(
        result,
        Some(InlineHTMLTagType::Opening(String::from("tool-tip")))
    );
}

#[test]
pub fn parse_node_returns_none_for_invalid_html_tag() {
    // arrange
    let tag = "<tool-tip";

    // act
    let result = parse_node(tag);

    // assert
    assert_eq!(result, None);
}

#[test]
fn parse_node_rejects_self_closing_and_empty_tags() {
    assert_eq!(parse_node("<br/>"), None);
    assert_eq!(parse_node("<>"), None);
    assert_eq!(parse_node("</>"), None);
    assert_eq!(parse_node(""), None);
    assert_eq!(parse_node("abbr>"), None);
    assert_eq!(parse_node("< abbr>"), None);
    assert_eq!(parse_node("<é>"), None);
}

#[test]
fn parse_opening_html_tag_leaves_what_follows_the_tag() {
    assert_eq!(
        parse_opening_html_tag("<b>bold</b>"),
        owned_tag(("bold</b>", ("b", "", InlineHTMLTagType::Opening(String::from("b")))))
    );
    assert_eq!(parse_opening_html_tag("</b>"), None);
    assert_eq!(parse_closing_html_tag("<b>"), None);
}

#[test]
fn parse_html_tag_content_stops_at_a_bracket_or_a_slash() {
    assert_eq!(
        parse_html_tag_content("img src=\"a\"/>"),
        owned(("/>", ("img", "src=\"a\"")))
    );
    assert_eq!(
        parse_html_tag_content("h1 \t\r\n id>rest"),
        owned((">rest", ("h1", "id")))
    );
    assert_eq!(parse_html_tag_content(">"), None);
    assert_eq!(parse_html_tag_content(" abbr"), None);
    assert_eq!(parse_html_tag_content(""), None);
}

fn combinator_content(line: &str) -> IResult<&str, (&str, &str)> {
    let (remainder, tag_content) = is_not(">/")(line)?;
    let (attributes, (tag_name, _space)) = pair(
        recognize(many1_count(alt((alphanumeric1, tag("-"))))),
        multispace0,
    )(tag_content)?;
    Ok((remainder, (tag_name, attributes)))
}

fn combinator_closing(line: &str) -> IResult<&str, (&str, &str)> {
    delimited(tag("</"), combinator_content, tag(">"))(line)
}

fn combinator_opening(line: &str) -> IResult<&str, (&str, &str)> {
    delimited(tag("<"), combinator_content, tag(">"))(line)
}

#[test]
fn the_parser_agrees_with_the_grammar_written_with_combinators() {
    let samples = [
        "",
        "<",
        ">",
        "</",
        "<>",
        "</>",
        "<a>",
        "</a>",
        "<a/>",
        "<a",
        "a>",
        "<a >",
        "< a>",
        "<a-b c=\"d\">rest",
        "</a-b\t\r\n x>rest>",
        "<-->",
        "<a1 b2>>",
        "<abbr title=\"a>b\">",
        "<é>",
        "<aé>",
        "<a é>é",
        "<a\u{a0}b>",
        "<tool-tip inert role=\"tooltip\">",
        "<a href=\"/x\">",
        "<a href=x/y>",
        "<A-9_z>",
        "<<a>>",
        "</a></b>",
        "tool-tip inert",
        "tool-tip/inert",
        "  tool",
    ];
    for sample in samples {
        let content = combinator_content(sample).ok().map(|(remainder, (name, attributes))| {
            (remainder.to_string(), (name.to_string(), attributes.to_string()))
        });
        assert_eq!(parse_html_tag_content(sample), content, "content of {:?}", sample);

        let opening = combinator_opening(sample).ok().map(|(remainder, (name, attributes))| {
            (
                remainder.to_string(),
                (
                    name.to_string(),
                    attributes.to_string(),
                    InlineHTMLTagType::Opening(name.to_string()),
                ),
            )
        });
        assert_eq!(parse_opening_html_tag(sample), opening, "opening {:?}", sample);

        let closing = combinator_closing(sample).ok().map(|(remainder, (name, attributes))| {
            (
                remainder.to_string(),
                (
                    name.to_string(),
                    attributes.to_string(),
                    InlineHTMLTagType::Closing(name.to_string()),
                ),
            )
        });
        assert_eq!(parse_closing_html_tag(sample), closing, "closing {:?}", sample);

        let node = match (&opening, &closing) {
            (Some((_, (_, _, tag))), _) => Some(tag),
            (None, Some((_, (_, _, tag)))) => Some(tag),
            (None, None) => None,
        };
        assert_eq!(parse_node(sample).as_ref(), node, "node {:?}", sample);
    }
}
