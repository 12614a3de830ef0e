use crate::inline_html::{node_tag, parse_node, InlineHTMLTagType, TagModel};
use crate::markdown::events::{
    events_model, markdown_events, parsed_markdown, EventModel, MarkdownEvent,
};
use crate::markdown::options::ParseMarkdownOptions;
use crate::strings::to_chars;
use crate::url_utility::{is_relative_url, relative_url};
use crate::utilities::stack::Stack;
use pulldown_cmark::TagEnd;
use vstd::prelude::*;

verus! {

/// The lines that `textwrap::wrap` cuts `text` into for lines of at most
/// `width` columns.
pub uninterp spec fn wrapped(text: Seq<char>, width: nat) -> Seq<Seq<char>>;

/// Calls `textwrap::wrap` with a width, which wraps with the default
/// options, and makes strings of the lines it returns. The lines depend on
/// the text and the width alone.
#[verifier::external_body]
fn wrap_lines(text: &str, width: usize) -> (lines: Vec<String>)
    ensures
        lines@.map_values(|line: String| line@) == wrapped(text@, width as nat),
{
    textwrap::wrap(text, width).into_iter().map(|line| line.into_owned()).collect()
}

/// The state of a writer of plain text, as mathematical values.
pub struct WriterModel {
    /// What has been written.
    pub output: Seq<char>,
    /// Whether the text so far ends a line.
    pub end_newline: bool,
    /// The line that is being gathered and has not been wrapped yet.
    pub current_line: Seq<char>,
    /// The target of the link that started last.
    pub current_link: Option<Seq<char>>,
    /// The width that lines are wrapped to.
    pub line_length: nat,
    /// The names of the tags whose contents are left out.
    pub ignore_tags: Seq<Seq<char>>,
    /// The URL that is put before relative link targets.
    pub canonical_root_url: Option<Seq<char>>,
}

/// The state of a writer that has written `output` and seen no event.
pub open spec fn writer_start(output: Seq<char>, canonical_root_url: Option<Seq<char>>) -> WriterModel {
    WriterModel {
        output,
        end_newline: true,
        current_line: Seq::empty(),
        current_link: None,
        line_length: 72,
        ignore_tags: seq!["tool-tip"@],
        canonical_root_url,
    }
}

/// The lines, each with a line feed after it.
pub open spec fn joined_lines(lines: Seq<Seq<char>>) -> Seq<char>
    decreases lines.len(),
{
    if lines.len() == 0 {
        Seq::empty()
    } else {
        joined_lines(lines.drop_last()) + lines.last() + seq!['\n']
    }
}

impl WriterModel {
    /// The writer after the line it has gathered has been wrapped and
    /// written.
    pub open spec fn flushed(self) -> WriterModel {
        WriterModel {
            output: self.output + joined_lines(wrapped(self.current_line, self.line_length)),
            current_line: Seq::empty(),
            ..self
        }
    }

    /// The writer after a line feed has been written.
    pub open spec fn with_newline(self) -> WriterModel {
        WriterModel { output: self.output + seq!['\n'], end_newline: true, ..self }
    }

    /// The writer with `text` added to the line it gathers.
    pub open spec fn with_line(self, text: Seq<char>) -> WriterModel {
        WriterModel { current_line: self.current_line + text, ..self }
    }

    /// The writer after a block or span of the given kind has started.
    ///
    /// A paragraph flushes what came before it, unless that ended a line.
    /// A heading does so too, and adds a blank line. A list item starts on
    /// a line of its own with `- `. A link has its target kept.
    pub open spec fn started(self, kind: TagEnd, target: Seq<char>) -> WriterModel {
        match kind {
            TagEnd::Paragraph => if self.end_newline {
                self
            } else {
                self.flushed()
            },
            TagEnd::Heading(_) => if self.end_newline {
                WriterModel { end_newline: false, ..self }
            } else {
                self.flushed().with_newline()
            },
            TagEnd::Item => if self.end_newline {
                self.with_line("- "@)
            } else {
                self.with_line("\n- "@)
            },
            TagEnd::Link => WriterModel { current_link: Some(target), ..self },
            _ => self,
        }
    }

    /// The target of a link as it is written: with the canonical root URL
    /// before it where there is one and the target is relative.
    pub open spec fn resolved(self, target: Seq<char>) -> Seq<char> {
        match self.canonical_root_url {
            Some(root) => if is_relative_url(target) {
                root + target
            } else {
                target
            },
            None => target,
        }
    }

    /// The writer after a block or span of the given kind has ended.
    ///
    /// Paragraphs, headings and list items are flushed. A link has its
    /// target written after its text, in brackets.
    pub open spec fn ended(self, kind: TagEnd) -> WriterModel {
        match kind {
            TagEnd::Paragraph => self.flushed(),
            TagEnd::Heading(_) => self.flushed(),
            TagEnd::Item => self.flushed(),
            TagEnd::Link => match self.current_link {
                Some(target) => self.with_line(" ("@ + self.resolved(target) + seq![')']),
                None => self,
            },
            _ => self,
        }
    }

    /// The writer after text or code.
    pub open spec fn texted(self, text: Seq<char>) -> WriterModel {
        WriterModel {
            current_line: self.current_line + text,
            end_newline: text.len() > 0 && text.last() == '\n',
            ..self
        }
    }

    /// The writer after an event that does not open a tag whose contents
    /// are left out.
    pub open spec fn stepped(self, event: EventModel) -> WriterModel {
        match event {
            EventModel::Start { kind, target } => self.started(kind, target),
            EventModel::End(kind) => self.ended(kind),
            EventModel::Text(text) => self.texted(text),
            EventModel::Code(text) => self.texted(text),
            EventModel::SoftBreak => self.with_line(seq![' ']),
            _ => self,
        }
    }

    /// The name of the tag that `event` opens, where its contents are to
    /// be left out.
    pub open spec fn opens_ignored(self, event: EventModel) -> Option<Seq<char>> {
        match event {
            EventModel::InlineHtml(html) => match node_tag(html) {
                Some(TagModel::Opening(name)) => if self.ignore_tags.contains(name) {
                    Some(name)
                } else {
                    None
                },
                _ => None,
            },
            _ => None,
        }
    }
}

/// How many of `events` are left out after a tag has been opened whose
/// contents are left out. `open_tags` holds the names of the tags that are
/// open, the last one opened last.
///
/// Every opening tag is added to the open tags. Every closing tag takes
/// the last one away, and ends the part that is left out where it closes
/// that tag and no other tag is open then. All other events are left out.
pub open spec fn skip_length(events: Seq<EventModel>, open_tags: Seq<Seq<char>>) -> nat
    decreases events.len(),
{
    if events.len() == 0 {
        0
    } else {
        let rest = events.drop_first();
        match events[0] {
            EventModel::InlineHtml(html) => match node_tag(html) {
                Some(TagModel::Opening(name)) => 1 + skip_length(rest, open_tags.push(name)),
                Some(TagModel::Closing(name)) => if open_tags.len() == 0 {
                    1 + skip_length(rest, open_tags)
                } else if open_tags.last() == name && open_tags.len() == 1 {
                    1
                } else {
                    1 + skip_length(rest, open_tags.drop_last())
                },
                None => 1 + skip_length(rest, open_tags),
            },
            _ => 1 + skip_length(rest, open_tags),
        }
    }
}

/// No more events are left out than there are.
pub proof fn lemma_skip_length(events: Seq<EventModel>, open_tags: Seq<Seq<char>>)
    ensures
        skip_length(events, open_tags) <= events.len(),
    decreases events.len(),
{
    if events.len() > 0 {
        let rest = events.drop_first();
        match events[0] {
            EventModel::InlineHtml(html) => match node_tag(html) {
                Some(TagModel::Opening(name)) => lemma_skip_length(rest, open_tags.push(name)),
                Some(TagModel::Closing(name)) => {
                    lemma_skip_length(rest, open_tags);
                    lemma_skip_length(rest, open_tags.drop_last());
                },
                None => lemma_skip_length(rest, open_tags),
            },
            _ => lemma_skip_length(rest, open_tags),
        }
    }
}

/// The writer after all the events. An event that opens a tag whose
/// contents are left out takes with it the events up to the end of that
/// tag; every other event changes the writer by itself.
pub open spec fn rendered(events: Seq<EventModel>, writer: WriterModel) -> WriterModel
    decreases events.len(),
    via rendered_decreases
{
    if events.len() == 0 {
        writer
    } else {
        let rest = events.drop_first();
        match writer.opens_ignored(events[0]) {
            Some(name) => rendered(rest.skip(skip_length(rest, seq![name]) as int), writer),
            None => rendered(rest, writer.stepped(events[0])),
        }
    }
}

#[via_fn]
proof fn rendered_decreases(events: Seq<EventModel>, writer: WriterModel) {
    if events.len() > 0 {
        let rest = events.drop_first();
        match writer.opens_ignored(events[0]) {
            Some(name) => {
                lemma_skip_length(rest, seq![name]);
            },
            None => {},
        }
    }
}

/// The plain text of a document with the given events.
pub open spec fn plaintext(events: Seq<EventModel>, canonical_root_url: Option<Seq<char>>) -> Seq<
    char,
> {
    rendered(events, writer_start(Seq::empty(), canonical_root_url)).output
}

/// A writer of plain text: it walks through the events of a document,
/// gathers the text of each block, wraps it and writes it.
pub struct PlaintextWriter<'a> {
    /// The events of the document.
    iter: Vec<MarkdownEvent>,
    /// How many of the events have been taken.
    position: usize,
    /// What has been written.
    writer: String,
    /// Whether the last write created a newline.
    end_newline: bool,
    /// The words of the current line, which are wrapped before they are
    /// written.
    current_line: String,
    current_link: Option<String>,
    /// The preferred length of a line.
    line_length: usize,
    /// The HTML tags whose contents are left out.
    ignore_tags: Vec<&'a str>,
    /// Put before relative URLs, where given.
    canonical_root_url: Option<&'a str>,
}

impl<'a> View for PlaintextWriter<'a> {
    type V = WriterModel;

    closed spec fn view(&self) -> WriterModel {
        WriterModel {
            output: self.writer@,
            end_newline: self.end_newline,
            current_line: self.current_line@,
            current_link: match self.current_link {
                Some(link) => Some(link@),
                None => None,
            },
            line_length: self.line_length as nat,
            ignore_tags: self.ignore_tags@.map_values(|tag: &str| tag@),
            canonical_root_url: match self.canonical_root_url {
                Some(root) => Some(root@),
                None => None,
            },
        }
    }
}

/// Whether `text` ends with a line feed.
fn ends_with_newline(text: &str) -> (ends: bool)
    ensures
        ends == (text@.len() > 0 && text@.last() == '\n'),
{
    let chars = to_chars(text);
    chars.len() > 0 && chars[chars.len() - 1] == '\n'
}

impl<'a> PlaintextWriter<'a> {
    /// The events that the writer has yet to take.
    pub closed spec fn remaining(&self) -> Seq<EventModel> {
        events_model(self.iter@).skip(self.position as int)
    }

    /// Whether the writer has taken no more events than there are.
    pub closed spec fn well_formed(&self) -> bool {
        self.position <= self.iter@.len()
    }

    /// A writer for the events `iter`, which adds to `writer`.
    pub fn new(iter: Vec<MarkdownEvent>, writer: String, canonical_root_url: Option<&'a str>) -> (made:
        Self)
        ensures
            made@ == writer_start(
                writer@,
                match canonical_root_url {
                    Some(root) => Some(root@),
                    None => None,
                },
            ),
            made.remaining() == events_model(iter@),
            made.well_formed(),
    {
        let mut ignore_tags: Vec<&'a str> = Vec::new();
        ignore_tags.push("tool-tip");
        let made = PlaintextWriter {
            iter,
            position: 0,
            writer,
            end_newline: true,
            current_line: String::new(),
            current_link: None,
            line_length: 72,
            ignore_tags,
            canonical_root_url,
        };
        proof {
            assert(made@.ignore_tags =~= seq!["tool-tip"@]);
            assert(events_model(made.iter@).skip(0) =~= events_model(made.iter@));
        }
        made
    }

    /// Writes a line feed.
    pub fn write_newline(&mut self)
        ensures
            final(self)@ == old(self)@.with_newline(),
            final(self).remaining() == old(self).remaining(),
            final(self).well_formed() == old(self).well_formed(),
    {
        self.end_newline = true;
        self.writer.push_str("\n");
        proof {
            reveal_strlit("\n");
            assert("\n"@ =~= seq!['\n']);
        }
    }

    /// Wraps the line that has been gathered to the preferred length and
    /// writes the lines.
    pub fn write(&mut self)
        ensures
            final(self)@ == old(self)@.flushed(),
            final(self).remaining() == old(self).remaining(),
            final(self).well_formed() == old(self).well_formed(),
    {
        let lines = wrap_lines(self.current_line.as_str(), self.line_length);
        let ghost model = lines@.map_values(|line: String| line@);
        let ghost start = self.writer@;
        let mut i: usize = 0;
        proof {
            reveal_strlit("\n");
            assert("\n"@ =~= seq!['\n']);
            assert(model.take(0) =~= Seq::<Seq<char>>::empty());
            assert(start + joined_lines(Seq::empty()) =~= start);
        }
        while i < lines.len()
            invariant
                i <= lines.len(),
                model == lines@.map_values(|line: String| line@),
                "\n"@ == seq!['\n'],
                self.writer@ == start + joined_lines(model.take(i as int)),
                self.iter == old(self).iter,
                self.position == old(self).position,
                self.end_newline == old(self).end_newline,
                self.current_line == old(self).current_line,
                self.current_link == old(self).current_link,
                self.line_length == old(self).line_length,
                self.ignore_tags == old(self).ignore_tags,
                self.canonical_root_url == old(self).canonical_root_url,
            decreases lines.len() - i,
        {
            proof {
                assert(model.take(i + 1).drop_last() =~= model.take(i as int));
                assert(model.take(i + 1).last() == lines@[i as int]@);
            }
            self.writer.push_str(lines[i].as_str());
            self.writer.push_str("\n");
            proof {
                assert(self.writer@ =~= start + joined_lines(model.take(i + 1)));
            }
            i += 1;
        }
        proof {
            assert(model.take(lines@.len() as int) =~= model);
        }
        self.current_line = String::new();
    }

    /// Takes in the start of a block or span.
    pub fn start_tag(&mut self, kind: &TagEnd, target: &str)
        ensures
            final(self)@ == old(self)@.started(*kind, target@),
            final(self).remaining() == old(self).remaining(),
            final(self).well_formed() == old(self).well_formed(),
    {
        match kind {
            TagEnd::Paragraph => {
                if !self.end_newline {
                    self.write();
                }
            },
            TagEnd::Heading(_) => {
                if self.end_newline {
                    self.end_newline = false;
                } else {
                    self.write();
                    self.write_newline();
                }
            },
            TagEnd::Item => {
                if self.end_newline {
                    self.current_line.push_str("- ");
                } else {
                    self.current_line.push_str("\n- ");
                }
            },
            TagEnd::Link => {
                self.current_link = Some(target.to_owned());
            },
            _ => {},
        }
    }

    /// Takes in the end of a block or span.
    pub fn end_tag(&mut self, kind: &TagEnd)
        ensures
            final(self)@ == old(self)@.ended(*kind),
            final(self).remaining() == old(self).remaining(),
            final(self).well_formed() == old(self).well_formed(),
    {
        match kind {
            TagEnd::Paragraph => {
                self.write();
            },
            TagEnd::Heading(_) => {
                self.write();
            },
            TagEnd::Item => {
                self.write();
            },
            TagEnd::Link => {
                let ghost line = self.current_line@;
                if let Some(value) = &self.current_link {
                    self.current_line.push_str(" (");
                    if let Some(root_url_value) = self.canonical_root_url {
                        if relative_url(value.as_str()) {
                            self.current_line.push_str(root_url_value);
                        }
                    }
                    self.current_line.push_str(value.as_str());
                    self.current_line.push(')');
                    proof {
                        let added = " ("@ + old(self)@.resolved(value@) + seq![')'];
                        assert(self.current_line@ =~= line + added);
                    }
                }
            },
            _ => {},
        }
    }

    /// Whether the contents of the tag `name` are left out.
    fn ignores(&self, name: &str) -> (ignored: bool)
        ensures
            ignored == self@.ignore_tags.contains(name@),
    {
        let mut i: usize = 0;
        while i < self.ignore_tags.len()
            invariant
                i <= self.ignore_tags.len(),
                forall|k: int| 0 <= k < i ==> (#[trigger] self@.ignore_tags[k]) != name@,
            decreases self.ignore_tags.len() - i,
        {
            if *self.ignore_tags[i] == *name {
                proof {
                    assert(self@.ignore_tags[i as int] == name@);
                }
                return true;
            }
            i += 1;
        }
        false
    }

    /// Passes over the events up to the end of the tag `name`, which has
    /// just been opened.
    fn skip_ignored(&mut self, name: String)
        requires
            old(self).well_formed(),
        ensures
            final(self)@ == old(self)@,
            final(self).well_formed(),
            final(self).remaining() == old(self).remaining().skip(
                skip_length(old(self).remaining(), seq![name@]) as int,
            ),
    {
        let ghost events = events_model(self.iter@);
        let ghost start = self.position as int;
        let ghost first = seq![name@];
        let mut open_tags: Stack<String> = Stack::new();
        open_tags.push(name);
        proof {
            assert(open_tags@.map_values(|tag: String| tag@) =~= first);
        }
        let mut done = false;
        while !done && self.position < self.iter.len()
            invariant
                self.position <= self.iter@.len(),
                start <= self.position,
                events == events_model(self.iter@),
                self@ == old(self)@,
                self.iter == old(self).iter,
                !done ==> self.position - start + skip_length(
                    events.skip(self.position as int),
                    open_tags@.map_values(|tag: String| tag@),
                ) == skip_length(events.skip(start), first),
                done ==> self.position - start == skip_length(events.skip(start), first),
            decreases self.iter@.len() - self.position,
        {
            let ghost at = self.position as int;
            let ghost tags = open_tags@.map_values(|tag: String| tag@);
            proof {
                assert(events.skip(at)[0] == self.iter@[at]@);
                assert(events.skip(at).drop_first() =~= events.skip(at + 1));
            }
            let tag = match &self.iter[self.position] {
                MarkdownEvent::InlineHtml(nested_inline_html) => parse_node(
                    nested_inline_html.as_str(),
                ),
                _ => None,
            };
            self.position += 1;
            match tag {
                Some(InlineHTMLTagType::Opening(open_tag_value)) => {
                    open_tags.push(open_tag_value);
                    proof {
                        assert(open_tags@.map_values(|tag: String| tag@) =~= tags.push(
                            open_tag_value@,
                        ));
                    }
                },
                Some(InlineHTMLTagType::Closing(closing_tag_value)) => {
                    if let Some(popped_value) = open_tags.pop() {
                        proof {
                            assert(tags.last() == popped_value@);
                            assert(open_tags@.map_values(|tag: String| tag@) =~= tags.drop_last());
                        }
                        if popped_value == closing_tag_value && open_tags.is_empty() {
                            done = true;
                        }
                    }
                },
                None => {},
            }
        }
        proof {
            let total = skip_length(events.skip(start), first);
            if !done {
                assert(events.skip(self.position as int).len() == 0);
            }
            assert(events.skip(start).skip(total as int) =~= events.skip(self.position as int));
        }
    }

    /// Walks through the events that are left and returns all that has
    /// been written.
    pub fn run(self) -> (output: String)
        requires
            self.well_formed(),
        ensures
            output@ == rendered(self.remaining(), self@).output,
    {
        let mut this = self;
        let ghost goal = rendered(this.remaining(), this@);
        while this.position < this.iter.len()
            invariant
                this.well_formed(),
                rendered(this.remaining(), this@) == goal,
            decreases this.remaining().len(),
        {
            let ghost left = this.remaining();
            let ghost before = this@;
            proof {
                assert(left[0] == this.iter@[this.position as int]@);
                assert(left.drop_first() =~= events_model(this.iter@).skip(this.position + 1));
            }
            let opened = match &this.iter[this.position] {
                MarkdownEvent::InlineHtml(inline_html) => match parse_node(inline_html.as_str()) {
                    Some(InlineHTMLTagType::Opening(value)) => if this.ignores(value.as_str()) {
                        Some(value)
                    } else {
                        None
                    },
                    _ => None,
                },
                _ => None,
            };
            match opened {
                Some(value) => {
                    this.position += 1;
                    proof {
                        assert(this.remaining() == left.drop_first());
                        assert(this@ == before);
                        lemma_skip_length(left.drop_first(), seq![value@]);
                    }
                    this.skip_ignored(value);
                },
                None => {
                    let event = this.iter[this.position].duplicate();
                    this.position += 1;
                    proof {
                        assert(this.remaining() == left.drop_first());
                        assert(this@ == before);
                    }
                    match event {
                        MarkdownEvent::Start { kind, target } => {
                            this.start_tag(&kind, target.as_str());
                        },
                        MarkdownEvent::End(kind) => {
                            this.end_tag(&kind);
                        },
                        MarkdownEvent::Text(text) => {
                            this.current_line.push_str(text.as_str());
                            this.end_newline = ends_with_newline(text.as_str());
                        },
                        MarkdownEvent::Code(text) => {
                            this.current_line.push_str(text.as_str());
                            this.end_newline = ends_with_newline(text.as_str());
                        },
                        MarkdownEvent::SoftBreak => {
                            this.current_line.push(' ');
                            proof {
                                assert(this@.current_line =~= before.current_line + seq![' ']);
                            }
                        },
                        _ => {},
                    }
                },
            }
        }
        proof {
            assert(this.remaining().len() == 0);
        }
        this.writer
    }
}

/// Adds to `s` the plain text of a document with the given events.
pub fn push_plaintext(s: &mut String, iter: Vec<MarkdownEvent>, canonical_root_url: Option<&str>)
    ensures
        final(s)@ == rendered(
            events_model(iter@),
            writer_start(
                old(s)@,
                match canonical_root_url {
                    Some(root) => Some(root@),
                    None => None,
                },
            ),
        ).output,
{
    let written = s.clone();
    let output = PlaintextWriter::new(iter, written, canonical_root_url).run();
    *s = output;
}

/// Turns a Markdown document into plain text: the text of its blocks,
/// wrapped to lines of 72 columns, with the targets of links in brackets
/// after them.
pub fn parse_markdown_to_plaintext(markdown: &str, options: &ParseMarkdownOptions) -> (text: String)
    ensures
        text@ == plaintext(
            parsed_markdown(markdown@, options@.enable_smart_punctuation),
            options@.canonical_root_url,
        ),
{
    let canonical_root_url = options.root_url();
    let enable_smart_punctuation = options.smart_punctuation();
    let events = markdown_events(markdown, enable_smart_punctuation);
    let mut plaintext_buf = String::new();
    push_plaintext(&mut plaintext_buf, events, canonical_root_url);
    plaintext_buf
}

} // verus!
