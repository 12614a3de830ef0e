use pulldown_cmark::{html, CowStr, Event, HeadingLevel, MetadataBlockKind, Options, Parser, Tag, TagEnd};
use vstd::prelude::*;

verus! {

/// The level of a heading, as pulldown-cmark has it.
#[verifier::external_type_specification]
pub struct ExHeadingLevel(HeadingLevel);

/// The kind of a metadata block, as pulldown-cmark has it.
#[verifier::external_type_specification]
pub struct ExMetadataBlockKind(MetadataBlockKind);

/// The end of a block or span of a document, as pulldown-cmark has it: an
/// enum without private parts, which tells what kind of block or span
/// ends.
#[verifier::external_type_specification]
pub struct ExTagEnd(TagEnd);

/// The error of an input or output operation.
#[verifier::external_type_specification]
#[verifier::external_body]
pub struct ExIoError(std::io::Error);

/// An event of a walk through a Markdown document, with what this library
/// reads of it.
#[derive(Debug, PartialEq, Eq)]
pub enum MarkdownEvent {
    /// A block or span starts. A link comes with its target; the target of
    /// anything else is empty.
    Start { kind: TagEnd, target: String },
    /// A block or span ends.
    End(TagEnd),
    /// Text.
    Text(String),
    /// An inline code span.
    Code(String),
    /// Inline HTML: a tag, mostly.
    InlineHtml(String),
    /// A line break in the source that is none in the text.
    SoftBreak,
    /// Anything else.
    Other,
}

/// An event as mathematical values.
pub enum EventModel {
    Start { kind: TagEnd, target: Seq<char> },
    End(TagEnd),
    Text(Seq<char>),
    Code(Seq<char>),
    InlineHtml(Seq<char>),
    SoftBreak,
    Other,
}

impl View for MarkdownEvent {
    type V = EventModel;

    open spec fn view(&self) -> EventModel {
        match self {
            MarkdownEvent::Start { kind, target } => EventModel::Start {
                kind: *kind,
                target: target@,
            },
            MarkdownEvent::End(kind) => EventModel::End(*kind),
            MarkdownEvent::Text(text) => EventModel::Text(text@),
            MarkdownEvent::Code(text) => EventModel::Code(text@),
            MarkdownEvent::InlineHtml(html) => EventModel::InlineHtml(html@),
            MarkdownEvent::SoftBreak => EventModel::SoftBreak,
            MarkdownEvent::Other => EventModel::Other,
        }
    }
}

impl MarkdownEvent {
    /// A copy of the event.
    pub fn duplicate(&self) -> (copy: MarkdownEvent)
        ensures
            copy@ == self@,
    {
        match self {
            MarkdownEvent::Start { kind, target } => MarkdownEvent::Start {
                kind: *kind,
                target: target.clone(),
            },
            MarkdownEvent::End(kind) => MarkdownEvent::End(*kind),
            MarkdownEvent::Text(text) => MarkdownEvent::Text(text.clone()),
            MarkdownEvent::Code(text) => MarkdownEvent::Code(text.clone()),
            MarkdownEvent::InlineHtml(html) => MarkdownEvent::InlineHtml(html.clone()),
            MarkdownEvent::SoftBreak => MarkdownEvent::SoftBreak,
            MarkdownEvent::Other => MarkdownEvent::Other,
        }
    }
}

/// The events of a list, as mathematical values.
pub open spec fn events_model(events: Seq<MarkdownEvent>) -> Seq<EventModel> {
    events.map_values(|event: MarkdownEvent| event@)
}

/// The events that pulldown-cmark's parser yields for `markdown`, with
/// smart punctuation or without it, each read as a `MarkdownEvent`.
pub uninterp spec fn parsed_markdown(markdown: Seq<char>, smart: bool) -> Seq<EventModel>;

/// The HTML that pulldown-cmark's writer makes of the events of
/// `markdown`, parsed with smart punctuation or without it, once the start
/// of the k-th heading has been given the k-th of the identifiers `ids` in
/// place of its own, or none where there are fewer.
pub uninterp spec fn markdown_html(markdown: Seq<char>, smart: bool, ids: Seq<Seq<char>>) -> Seq<
    char,
>;

/// Runs `pulldown_cmark::Parser::new_ext` over `markdown` and reads each
/// event that it yields as a `MarkdownEvent`. The start of a block or span
/// is told by the end that belongs to it (`Tag::to_end`). The events depend
/// on the text and the option alone.
#[verifier::external_body]
pub(crate) fn markdown_events(markdown: &str, smart: bool) -> (events: Vec<MarkdownEvent>)
    ensures
        events_model(events@) == parsed_markdown(markdown@, smart),
{
    let mut options = Options::empty();
    options.set(Options::ENABLE_SMART_PUNCTUATION, smart);
    Parser::new_ext(markdown, options).map(|event| match event {
        Event::Start(Tag::Link { dest_url, .. }) => MarkdownEvent::Start { kind: TagEnd::Link, target: dest_url.to_string() },
        Event::Start(tag) => MarkdownEvent::Start { kind: tag.to_end(), target: String::new() },
        Event::End(end) => MarkdownEvent::End(end),
        Event::Text(text) => MarkdownEvent::Text(text.to_string()),
        Event::Code(text) => MarkdownEvent::Code(text.to_string()),
        Event::InlineHtml(html) => MarkdownEvent::InlineHtml(html.to_string()),
        Event::SoftBreak => MarkdownEvent::SoftBreak,
        _ => MarkdownEvent::Other,
    }).collect()
}

/// The identifier that the heading gets which starts after `taken`
/// headings have started: the one at that place among `ids`, or none where
/// there are fewer.
pub open spec fn heading_identifier(ids: Seq<Seq<char>>, taken: int) -> Option<Seq<char>> {
    if 0 <= taken < ids.len() {
        Some(ids[taken])
    } else {
        None
    }
}

/// Hands out the identifier for the next heading that starts, and counts
/// the heading: the k-th heading of a document gets the k-th identifier.
pub fn next_heading_identifier(ids: &Vec<String>, taken: &mut usize) -> (id: Option<String>)
    ensures
        match id {
            Some(id) => heading_identifier(ids@.map_values(|id: String| id@), *old(taken) as int)
                == Some(id@),
            None => heading_identifier(ids@.map_values(|id: String| id@), *old(taken) as int)
                is None,
        },
        *final(taken) == if *old(taken) < ids@.len() {
            *old(taken) + 1
        } else {
            *old(taken) as int
        },
{
    if *taken < ids.len() {
        let id = ids[*taken].clone();
        *taken = *taken + 1;
        Some(id)
    } else {
        None
    }
}

/// Runs `pulldown_cmark::Parser::new_ext` over `markdown`, with smart
/// punctuation or without it, and has `pulldown_cmark::html::write_html_io`
/// write the events into a buffer in memory. On the way the start of every
/// heading is handed on with the identifier that `next_heading_identifier`
/// gives for it, and with its level, classes and attributes as they are.
///
/// The writer raises no error of its own: every write goes to the buffer,
/// and writing into a buffer in memory does not fail. So the call succeeds,
/// and what was written depends on the text, the option and the
/// identifiers alone.
#[verifier::external_body]
pub(crate) fn render_html(markdown: &str, smart: bool, ids: &Vec<String>) -> (rendered: Result<
    String,
    std::io::Error,
>)
    ensures
        rendered is Ok,
        rendered matches Ok(text) ==> text@ == markdown_html(
            markdown@,
            smart,
            ids@.map_values(|id: String| id@),
        ),
{
    let mut taken: usize = 0;
    let mut options = Options::empty();
    options.set(Options::ENABLE_SMART_PUNCTUATION, smart);
    let events = Parser::new_ext(markdown, options).map(|event| match event {
        Event::Start(Tag::Heading { level, classes, attrs, .. }) => {
            let id = next_heading_identifier(ids, &mut taken).map(CowStr::from);
            Event::Start(Tag::Heading { level, id, classes, attrs })
        },
        other => other,
    });
    let mut bytes = Vec::new();
    html::write_html_io(std::io::Cursor::new(&mut bytes), events)?;
    Ok(String::from_utf8_lossy(&bytes).to_string())
}

/// What `std::io::Error` says of itself through `Display`.
#[verifier::external_body]
pub(crate) fn error_message(error: &std::io::Error) -> (message: String) {
    error.to_string()
}

} // verus!
