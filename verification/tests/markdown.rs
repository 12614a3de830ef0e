use markdown_render::markdown::document::{
    assemble, parse_markdown_to_html, scan_events, MarkdownError,
};
use markdown_render::markdown::events::{next_heading_identifier, MarkdownEvent};
use markdown_render::markdown::options::{Heading, ParseMarkdownOptions};
use markdown_render::markdown::plaintext::{
    parse_markdown_to_plaintext, push_plaintext, PlaintextWriter,
};
use markdown_render::markdown::slug::{slug_of_transliterated, slugified_title};
use markdown_render::markdown::statistics::{
    count_words, reading_time_from_words, try_words, words, TextStatistics,
};
use pulldown_cmark::{HeadingLevel, TagEnd};

#[test]
fn test_reading_time_from_words() {
    assert_eq!(reading_time_from_words(179), 1);
    assert_eq!(reading_time_from_words(0), 1);
    assert_eq!(reading_time_from_words(180), 1);
    assert_eq!(reading_time_from_words(181), 1);
    assert_eq!(reading_time_from_words(269), 1);
    assert_eq!(reading_time_from_words(270), 2);
}

#[test]
fn test_words() {
    let text = "hello";
    assert_eq!(words(text), 1);

    let text = "half-time";
    assert_eq!(words(text), 1);

    let text = "";
    assert_eq!(words(text), 0);

    let text = "A complete sentence. ";
    assert_eq!(words(text), 3);

    let text = "Resources - writing";
    assert_eq!(words(text), 2);

    let text = "He/she/they";
    assert_eq!(words(text), 3);

    let text = "Acme & co.";
    assert_eq!(words(text), 3);
}

#[test]
pub fn test_slugified_title() {
    let title = "Heading One";
    assert_eq!(slugified_title(title), "heading-one");

    let title = "🌟 Heading Two";
    assert_eq!(slugified_title(title), "*-heading-two");

    let title = "💫 Heading Three";
    assert_eq!(slugified_title(title), "dizzy-heading-three");

    let title = "Heading Four!";
    assert_eq!(slugified_title(title), "heading-four");
}

#[test]
fn reading_time_rounds_to_the_nearest_minute() {
    assert_eq!(reading_time_from_words(449), 2);
    assert_eq!(reading_time_from_words(450), 3);
    assert_eq!(reading_time_from_words(1800), 10);
    assert_eq!(reading_time_from_words(u32::MAX), 23_860_929);
}

#[test]
fn reading_time_is_one_minute_below_270_words() {
    let mut count = 0;
    while count < 270 {
        assert_eq!(reading_time_from_words(count), 1);
        count += 1;
    }
}

#[test]
fn reading_time_never_falls_with_more_words() {
    let mut count = 0;
    let mut last = 1;
    while count < 2000 {
        let minutes = reading_time_from_words(count);
        assert!(minutes >= last);
        last = minutes;
        count += 1;
    }
}

#[test]
fn text_statistics_hold_the_matching_reading_time() {
    let statistics = TextStatistics::new(270);
    assert_eq!(statistics.word_count(), 270);
    assert_eq!(statistics.reading_time(), 2);
    assert_eq!(TextStatistics::new(4), TextStatistics::new(4));
    assert_ne!(TextStatistics::new(4), TextStatistics::new(5));
}

#[test]
fn words_skips_symbols_and_emoji() {
    assert_eq!(words("🌟 stars ✨"), 1);
    assert_eq!(words("- -- ---"), 0);
    assert_eq!(words("&&"), 0);
    assert_eq!(words("&"), 1);
    assert_eq!(words("one\ttwo\nthree\u{a0}four"), 4);
    assert_eq!(words("//a//"), 1);
}

#[test]
fn slug_joins_runs_of_separators_into_one_hyphen() {
    assert_eq!(slug_of_transliterated("a - b"), "a-b");
    assert_eq!(slug_of_transliterated("  leading"), "leading");
    assert_eq!(slug_of_transliterated("trailing. "), "trailing-");
    assert_eq!(slug_of_transliterated("v1.2/beta,final"), "v1-2-beta-final");
}

#[test]
fn slug_deletes_removed_punctuation() {
    assert_eq!(slug_of_transliterated("What's `this`? (a [b]: c!)"), "whats-this-a-b-c");
    assert_eq!(slug_of_transliterated("a!-b"), "a-b");
    assert_eq!(
        slug_of_transliterated("What's new?"),
        slug_of_transliterated("Whats new")
    );
}

#[test]
fn slug_lowercases_what_is_kept() {
    assert_eq!(slug_of_transliterated("ABC_Def"), "abc_def");
    assert_eq!(slug_of_transliterated(""), "");
}

#[test]
fn slugified_title_transliterates_first() {
    assert_eq!(slugified_title("Crème Brûlée"), "creme-brulee");
    assert_eq!(slugified_title("北京"), "bei-jing");
}

#[test]
fn test_parse_markdown_to_html() {
    let markdown = r#"
hello
=====

* alpha
* beta
"#;

    let result =
        if let Some((result, _headings, _statistics)) = parse_markdown_to_html(markdown).ok() {
            result
        } else {
            panic!("Result expected");
        };
    let expected = String::from(
        r#"<h1 id="hello">hello</h1>
<ul>
<li>alpha</li>
<li>beta</li>
</ul>
"#,
    );
    assert_eq!(result, expected);
}

#[test]
fn test_parse_markdown_to_plaintext() {
    let markdown = "## 🧑🏽‍🍳 Pick of the Month — vanilla-extract";

    let result = parse_markdown_to_plaintext(markdown, &ParseMarkdownOptions::default());
    let expected = String::from("🧑🏽\u{200d}🍳 Pick of the Month — vanilla-extract\n");
    assert_eq!(result, expected);

    let markdown = "My apple's quite tasty.";
    let result = parse_markdown_to_plaintext(markdown, &ParseMarkdownOptions::default());
    let expected = String::from("My apple’s quite tasty.\n");
    assert_eq!(result, expected);

    let markdown = r#"
testing, testing one, two, three, four, five, six, seven, eight, nine,  ten, eleven
"#;

    let result = parse_markdown_to_plaintext(markdown, &ParseMarkdownOptions::default());
    let expected = String::from(
        "testing, testing one, two, three, four, five, six, seven, eight, nine,\nten, eleven\n",
    );
    assert_eq!(result, expected);

    let markdown =
        r#"<abbr>CLI<tool-tip inert role="tooltip">Command Line Interface</tool-tip></abbr>"#;
    let result = parse_markdown_to_plaintext(markdown, &ParseMarkdownOptions::default());
    let expected = String::from("CLI\n");
    assert_eq!(result, expected);
}

#[test]
pub fn parse_markdown_to_plaintext_applies_canonical_root_url() {
    let markdown = "[Contact us](/contact) to find out more.";

    let mut options = ParseMarkdownOptions::default();
    options.canonical_root_url(Some("https://example.com"));
    let result = parse_markdown_to_plaintext(markdown, &options);
    let expected = String::from("Contact us (https://example.com/contact) to find out more.\n");
    assert_eq!(result, expected);
}

#[test]
pub fn parse_markdown_to_plaintext_outputs_relative_urls_when_canonical_root_url_absent() {
    let markdown = "[Contact us](/contact) to find out more.";

    let mut options = ParseMarkdownOptions::default();
    options.canonical_root_url(None);
    let result = parse_markdown_to_plaintext(markdown, &options);
    let expected = String::from("Contact us (/contact) to find out more.\n");
    assert_eq!(result, expected);
}

fn text(value: &str) -> MarkdownEvent {
    MarkdownEvent::Text(value.to_string())
}

fn start(kind: TagEnd) -> MarkdownEvent {
    MarkdownEvent::Start {
        kind,
        target: String::new(),
    }
}

fn inline_html(value: &str) -> MarkdownEvent {
    MarkdownEvent::InlineHtml(value.to_string())
}

fn render(events: Vec<MarkdownEvent>, root: Option<&str>) -> String {
    let mut out = String::new();
    push_plaintext(&mut out, events, root);
    out
}

#[test]
fn scan_events_gathers_headings_and_counts_words() {
    let events = vec![
        start(TagEnd::Heading(HeadingLevel::H1)),
        text("One "),
        MarkdownEvent::Code(String::from("two")),
        MarkdownEvent::End(TagEnd::Heading(HeadingLevel::H1)),
        start(TagEnd::Paragraph),
        text("three four"),
        MarkdownEvent::End(TagEnd::Paragraph),
        start(TagEnd::Heading(HeadingLevel::H2)),
        text("Five!"),
        MarkdownEvent::End(TagEnd::Heading(HeadingLevel::H2)),
    ];
    let (headings, count) = scan_events(&events).expect("few words");
    assert_eq!(
        headings,
        vec![Heading::new("One two", "one-two"), Heading::new("Five!", "five")]
    );
    assert_eq!(count, 4);
    assert_eq!(headings[1].id(), "five");
    assert_eq!(headings[1].heading(), "Five!");
}

#[test]
fn scan_events_keeps_text_outside_headings_out_of_them() {
    let events = vec![
        text("before"),
        start(TagEnd::Heading(HeadingLevel::H2)),
        MarkdownEvent::Code(String::from("in")),
        text(" side"),
        MarkdownEvent::End(TagEnd::Heading(HeadingLevel::H2)),
        MarkdownEvent::Code(String::from("after")),
        MarkdownEvent::End(TagEnd::Heading(HeadingLevel::H3)),
    ];
    let (headings, count) = scan_events(&events).expect("few words");
    assert_eq!(
        headings,
        vec![Heading::new("in side", "in-side"), Heading::new("", "")]
    );
    assert_eq!(count, 2);
}

#[test]
fn duplicate_headings_keep_the_same_identifier() {
    let (_, headings, _) = parse_markdown_to_html("## Foo\n\n## Foo\n").expect("html");
    assert_eq!(headings, vec![Heading::new("Foo", "foo"), Heading::new("Foo", "foo")]);
}

#[test]
fn assemble_passes_on_what_it_is_given() {
    let headings = vec![Heading::new("A", "a")];
    let (html, list, statistics) =
        assemble(Ok(String::from("<p>x</p>")), headings, 270).expect("html");
    assert_eq!(html, "<p>x</p>");
    assert_eq!(list, vec![Heading::new("A", "a")]);
    assert_eq!(statistics, TextStatistics::new(270));

    let failed = assemble(
        Err(std::io::Error::new(std::io::ErrorKind::Other, "disk full")),
        Vec::new(),
        0,
    );
    match failed {
        Err(MarkdownError::Render(message)) => assert_eq!(message, "disk full"),
        _ => panic!("an error was expected"),
    }
}

#[test]
fn markdown_error_says_what_went_wrong() {
    assert_eq!(
        MarkdownError::Render(String::from("disk full")).message(),
        "disk full"
    );
    assert!(!MarkdownError::TooManyWords.message().is_empty());
}

#[test]
fn parse_markdown_to_html_counts_words_of_text_only() {
    let (_, _, statistics) = parse_markdown_to_html("one `two` three\n").expect("html");
    assert_eq!(statistics.word_count(), 2);
    assert_eq!(statistics.reading_time(), 1);
}

#[test]
fn count_words_agrees_with_words() {
    assert_eq!(count_words("A complete sentence. "), 3);
    assert_eq!(count_words(""), 0);
}

#[test]
fn plaintext_wraps_at_72_columns() {
    let word = "abcdefgh ";
    let markdown = word.repeat(9);
    let result = parse_markdown_to_plaintext(&markdown, &ParseMarkdownOptions::default());
    let first = "abcdefgh ".repeat(8);
    assert_eq!(result, format!("{}\nabcdefgh\n", first.trim_end()));
}

#[test]
fn plaintext_sets_list_items_on_lines_of_their_own() {
    let result =
        parse_markdown_to_plaintext("* alpha\n* beta\n", &ParseMarkdownOptions::default());
    assert_eq!(result, "- alpha\n\n- beta\n");
}

#[test]
fn plaintext_puts_a_blank_line_before_a_heading_that_follows_text() {
    let events = vec![
        text("intro"),
        start(TagEnd::Heading(HeadingLevel::H2)),
        text("Title"),
        MarkdownEvent::End(TagEnd::Heading(HeadingLevel::H2)),
    ];
    assert_eq!(render(events, None), "intro\n\nTitle\n");

    let events = vec![
        start(TagEnd::Heading(HeadingLevel::H2)),
        text("Title"),
        MarkdownEvent::End(TagEnd::Heading(HeadingLevel::H2)),
    ];
    assert_eq!(render(events, None), "Title\n");
}

#[test]
fn plaintext_keeps_absolute_link_targets_as_they_are() {
    let mut options = ParseMarkdownOptions::default();
    options.canonical_root_url(Some("https://example.com"));
    let result = parse_markdown_to_plaintext("[Docs](https://docs.rs/x) now.", &options);
    assert_eq!(result, "Docs (https://docs.rs/x) now.\n");
}

#[test]
fn plaintext_leaves_out_nested_ignored_tags() {
    let events = vec![
        start(TagEnd::Paragraph),
        text("a"),
        inline_html("<tool-tip>"),
        text("b"),
        inline_html("<tool-tip>"),
        text("c"),
        inline_html("</tool-tip>"),
        text("d"),
        inline_html("</tool-tip>"),
        text("e"),
        MarkdownEvent::End(TagEnd::Paragraph),
    ];
    assert_eq!(render(events, None), "ae\n");
}

#[test]
fn plaintext_leaves_out_everything_after_an_ignored_tag_that_is_never_closed() {
    let events = vec![
        start(TagEnd::Paragraph),
        text("a"),
        inline_html("<tool-tip>"),
        text("b"),
        inline_html("</abbr>"),
        text("c"),
        MarkdownEvent::End(TagEnd::Paragraph),
    ];
    assert_eq!(render(events, None), "");
}

#[test]
fn plaintext_keeps_the_contents_of_other_tags() {
    let events = vec![
        start(TagEnd::Paragraph),
        inline_html("<abbr>"),
        text("CLI"),
        inline_html("</abbr>"),
        MarkdownEvent::SoftBreak,
        MarkdownEvent::Code(String::from("ls")),
        MarkdownEvent::Other,
        MarkdownEvent::End(TagEnd::Paragraph),
    ];
    assert_eq!(render(events, None), "CLI ls\n");
}

#[test]
fn plaintext_writer_adds_to_what_was_written() {
    let events = vec![text("tail"), MarkdownEvent::End(TagEnd::Paragraph)];
    let writer = PlaintextWriter::new(events, String::from("head\n"), None);
    assert_eq!(writer.run(), "head\ntail\n");

    let mut writer = PlaintextWriter::new(Vec::new(), String::new(), None);
    writer.write_newline();
    writer.start_tag(&TagEnd::Item, "");
    writer.end_tag(&TagEnd::Item);
    writer.write();
    assert_eq!(writer.run(), "\n-\n\n");
}

#[test]
fn smart_punctuation_can_be_switched_off() {
    let mut options = ParseMarkdownOptions::default();
    options.enable_smart_punctuation(false);
    assert!(!options.smart_punctuation());
    assert_eq!(options.root_url(), None);
    let result = parse_markdown_to_plaintext("My apple's quite tasty.", &options);
    assert_eq!(result, "My apple's quite tasty.\n");
}

#[test]
fn headings_get_their_identifiers_in_their_order() {
    let (html, headings, statistics) =
        parse_markdown_to_html("# A `b`\n\n## It's C\n\ntext\n").expect("html");
    assert_eq!(
        html,
        "<h1 id=\"a-b\">A <code>b</code></h1>\n<h2 id=\"its-c\">It’s C</h2>\n<p>text</p>\n"
    );
    assert_eq!(
        headings,
        vec![Heading::new("A b", "a-b"), Heading::new("It’s C", "its-c")]
    );
    assert_eq!(statistics.word_count(), 5);
}

#[test]
fn plaintext_tells_blocks_text_and_links_apart() {
    let result = parse_markdown_to_plaintext(
        "# Title\n\nSee [here](/there) `now`\nor <b>later</b>.",
        &ParseMarkdownOptions::default(),
    );
    assert_eq!(result, "Title\n\nSee here (/there) now or later.\n");
}

#[test]
fn try_words_counts_where_the_number_fits() {
    assert_eq!(try_words("A complete sentence. "), Some(3));
    assert_eq!(try_words("one\u{2003}two\u{3000}three\u{85}four"), Some(4));
    assert_eq!(try_words("r\u{e9}sum\u{e9} \u{4e2d}\u{6587} \u{663} \u{2014}"), Some(3));
    assert_eq!(try_words(""), Some(0));
}

#[test]
fn a_slug_is_its_own_slug() {
    let titles = [
        "Heading One",
        "  What's `this`? (a [b]: c!) ",
        "a - b -- c. ,d/e",
        "Cr\u{e8}me Br\u{fb}l\u{e9}e \u{2014} \u{5317}\u{4eac}",
        "-",
        "",
    ];
    for title in titles {
        let id = slugified_title(title);
        assert_eq!(slugified_title(&id), id);
        assert_eq!(slug_of_transliterated(&id), id);
        assert!(!id.starts_with('-'));
        assert!(!id.contains("--"));
        assert!(!id.contains(|c: char| "?'`:[]()!".contains(c)));
        assert!(id.is_ascii());
    }
}

#[test]
fn transliteration_drops_the_delete_character_and_what_follows_it_in_control() {
    assert_eq!(slugified_title("\u{7f}"), "");
    assert_eq!(slugified_title("a\u{7f}\tb"), "ab");
    assert_eq!(slugified_title("a\tb"), "a\tb");
    assert_eq!(slug_of_transliterated("a\u{7f}b"), "a\u{7f}b");
}

#[test]
fn the_k_th_heading_gets_the_k_th_identifier() {
    let ids = vec![String::from("first"), String::from("second")];
    let mut taken = 0;
    assert_eq!(next_heading_identifier(&ids, &mut taken), Some(String::from("first")));
    assert_eq!(taken, 1);
    assert_eq!(next_heading_identifier(&ids, &mut taken), Some(String::from("second")));
    assert_eq!(taken, 2);
    assert_eq!(next_heading_identifier(&ids, &mut taken), None);
    assert_eq!(next_heading_identifier(&ids, &mut taken), None);
    assert_eq!(taken, 2);
    let mut taken = 7;
    assert_eq!(next_heading_identifier(&Vec::new(), &mut taken), None);
    assert_eq!(taken, 7);
}
