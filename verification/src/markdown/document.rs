use crate::markdown::events::{
    error_message, events_model, markdown_events, markdown_html, parsed_markdown, render_html,
    EventModel, MarkdownEvent,
};
use crate::markdown::options::{Heading, HeadingModel};
use crate::markdown::slug::{slug, slugified_title, transliterated};
use crate::markdown::statistics::{count_words, word_count, TextStatistics};
use pulldown_cmark::TagEnd;
use vstd::prelude::*;

verus! {

/// What has been gathered from the events of a document so far.
pub struct ScanModel {
    /// The headings that have ended, in their order.
    pub headings: Seq<HeadingModel>,
    /// The text of the heading that has started and not ended.
    pub fragments: Seq<char>,
    /// Whether a heading has started and not ended.
    pub parsing_heading: bool,
    /// The number of words in the text so far.
    pub word_count: nat,
}

/// The heading with the given text: its identifier is the slug of the
/// text.
pub open spec fn heading_of(text: Seq<char>) -> HeadingModel {
    HeadingModel { heading: text, id: slug(transliterated(text)) }
}

/// What has been gathered before the first event.
pub open spec fn scan_start() -> ScanModel {
    ScanModel {
        headings: Seq::empty(),
        fragments: Seq::empty(),
        parsing_heading: false,
        word_count: 0,
    }
}

/// What has been gathered after one more event. Text counts its words
/// everywhere; inside a heading, text and inline code add to the text of
/// the heading. The end of a heading records the heading.
pub open spec fn scan_step(state: ScanModel, event: EventModel) -> ScanModel {
    match event {
        EventModel::Start { kind, .. } => if kind is Heading {
            ScanModel { parsing_heading: true, ..state }
        } else {
            state
        },
        EventModel::Text(text) => ScanModel {
            word_count: state.word_count + word_count(text),
            fragments: if state.parsing_heading {
                state.fragments + text
            } else {
                state.fragments
            },
            ..state
        },
        EventModel::Code(text) => ScanModel {
            fragments: if state.parsing_heading {
                state.fragments + text
            } else {
                state.fragments
            },
            ..state
        },
        EventModel::End(kind) => if kind is Heading {
            ScanModel {
                headings: state.headings.push(heading_of(state.fragments)),
                fragments: Seq::empty(),
                parsing_heading: false,
                ..state
            }
        } else {
            state
        },
        _ => state,
    }
}

/// What has been gathered after all the events.
pub open spec fn scanned(events: Seq<EventModel>) -> ScanModel
    decreases events.len(),
{
    if events.len() == 0 {
        scan_start()
    } else {
        scan_step(scanned(events.drop_last()), events.last())
    }
}

/// The headings of a list, as mathematical values.
pub open spec fn headings_model(headings: Seq<Heading>) -> Seq<HeadingModel> {
    headings.map_values(|heading: Heading| heading@)
}

/// The identifiers of the headings, in their order.
pub open spec fn heading_ids(headings: Seq<HeadingModel>) -> Seq<Seq<char>> {
    headings.map_values(|heading: HeadingModel| heading.id)
}

/// More events never take words away.
pub proof fn lemma_scanned_words_grow(events: Seq<EventModel>, i: int)
    requires
        0 <= i <= events.len(),
    ensures
        scanned(events.take(i)).word_count <= scanned(events).word_count,
    decreases events.len() - i,
{
    if i == events.len() {
        assert(events.take(i) =~= events);
    } else {
        lemma_scanned_words_grow(events, i + 1);
        assert(events.take(i + 1).drop_last() =~= events.take(i));
        assert(events.take(i + 1).last() == events[i]);
    }
}

/// Gathers the headings of a document and counts its words.
///
/// Returns nothing where the document has more words than a `u32` can
/// count.
pub fn scan_events(events: &Vec<MarkdownEvent>) -> (gathered: Option<(Vec<Heading>, u32)>)
    ensures
        match gathered {
            Some((headings, count)) => {
                &&& headings_model(headings@) == scanned(events_model(events@)).headings
                &&& count == scanned(events_model(events@)).word_count
            },
            None => scanned(events_model(events@)).word_count > u32::MAX,
        },
{
    let ghost model = events_model(events@);
    let mut headings: Vec<Heading> = Vec::new();
    let mut current_id_fragments = String::new();
    let mut parsing_heading = false;
    let mut count: u32 = 0;
    let mut i: usize = 0;
    proof {
        assert(model.take(0) =~= Seq::<EventModel>::empty());
        assert(headings_model(headings@) =~= Seq::<HeadingModel>::empty());
    }
    while i < events.len()
        invariant
            i <= events.len(),
            model == events_model(events@),
            scanned(model.take(i as int)) == (ScanModel {
                headings: headings_model(headings@),
                fragments: current_id_fragments@,
                parsing_heading,
                word_count: count as nat,
            }),
        decreases events.len() - i,
    {
        let ghost before = scanned(model.take(i as int));
        proof {
            assert(model.take(i + 1).drop_last() =~= model.take(i as int));
            assert(model.take(i + 1).last() == events@[i as int]@);
            lemma_scanned_words_grow(model, i + 1);
        }
        match &events[i] {
            MarkdownEvent::Start { kind, .. } => {
                if let TagEnd::Heading(_) = kind {
                    parsing_heading = true;
                }
            },
            MarkdownEvent::Text(value) => {
                let more = count_words(value.as_str());
                if more > (u32::MAX - count) as u64 {
                    return None;
                }
                count = count + more as u32;
                if parsing_heading {
                    current_id_fragments.push_str(value.as_str());
                }
            },
            MarkdownEvent::Code(value) => {
                if parsing_heading {
                    current_id_fragments.push_str(value.as_str());
                }
            },
            MarkdownEvent::End(kind) => {
                if let TagEnd::Heading(_) = kind {
                    let id = slugified_title(current_id_fragments.as_str());
                    let ghost so_far = headings_model(headings@);
                    let heading = Heading::new(current_id_fragments.as_str(), id.as_str());
                    headings.push(heading);
                    proof {
                        assert(headings_model(headings@) =~= so_far.push(
                            heading_of(current_id_fragments@),
                        ));
                    }
                    current_id_fragments = String::new();
                    parsing_heading = false;
                }
            },
            _ => {},
        }
        i += 1;
    }
    proof {
        assert(model.take(events@.len() as int) =~= model);
    }
    Some((headings, count))
}

/// Why a document could not be turned into HTML.
#[derive(Debug)]
pub enum MarkdownError {
    /// The document has more words than a `u32` can count.
    TooManyWords,
    /// The HTML could not be written: the message says why.
    Render(String),
}

impl MarkdownError {
    /// What went wrong, in words, as a mathematical value.
    pub open spec fn spec_message(&self) -> Seq<char> {
        match self {
            MarkdownError::TooManyWords => "the document has too many words to count"@,
            MarkdownError::Render(text) => text@,
        }
    }

    /// What went wrong, in words.
    pub fn message(&self) -> (message: String)
        ensures
            message@ == self.spec_message(),
    {
        match self {
            MarkdownError::TooManyWords => "the document has too many words to count".to_owned(),
            MarkdownError::Render(text) => text.clone(),
        }
    }
}

/// The identifiers of the headings, in their order.
pub fn ids_of(headings: &Vec<Heading>) -> (ids: Vec<String>)
    ensures
        ids@.map_values(|id: String| id@) == heading_ids(headings_model(headings@)),
{
    let mut ids: Vec<String> = Vec::new();
    let mut i: usize = 0;
    while i < headings.len()
        invariant
            i <= headings.len(),
            ids@.len() == i,
            forall|k: int| 0 <= k < i ==> (#[trigger] ids@[k])@ == headings@[k]@.id,
        decreases headings.len() - i,
    {
        ids.push(headings[i].id().to_owned());
        i += 1;
    }
    proof {
        assert(ids@.map_values(|id: String| id@) =~= heading_ids(headings_model(headings@)));
    }
    ids
}

/// Puts together what a document has become: the HTML where it could be
/// written, with the headings and the statistics of the text, and the
/// reason where it could not.
pub fn assemble(rendered: Result<String, std::io::Error>, headings: Vec<Heading>, word_count: u32) -> (
    result: Result<(String, Vec<Heading>, TextStatistics), MarkdownError>)
    ensures
        match rendered {
            Ok(html) => result matches Ok((text, list, statistics)) && text@ == html@ && list
                == headings && statistics.spec_word_count() == word_count,
            Err(_) => result matches Err(MarkdownError::Render(_)),
        },
{
    match rendered {
        Ok(html) => Ok((html, headings, TextStatistics::new(word_count))),
        Err(error) => Err(MarkdownError::Render(error_message(&error))),
    }
}

/// Turns a Markdown document into HTML, with smart punctuation. Every
/// heading gets for its `id` the slug of its text. Returns the HTML, the
/// headings in their order, and the statistics of the text.
pub fn parse_markdown_to_html(markdown: &str) -> (result: Result<
    (String, Vec<Heading>, TextStatistics),
    MarkdownError,
>)
    ensures
        ({
            let gathered = scanned(parsed_markdown(markdown@, true));
            &&& (gathered.word_count <= u32::MAX) == (result is Ok)
            &&& (gathered.word_count > u32::MAX) == (result matches Err(
                MarkdownError::TooManyWords,
            ))
            &&& match result {
                Ok((html, headings, statistics)) => {
                    &&& html@ == markdown_html(markdown@, true, heading_ids(gathered.headings))
                    &&& headings_model(headings@) == gathered.headings
                    &&& statistics.spec_word_count() == gathered.word_count
                },
                Err(_) => true,
            }
        }),
{
    let events = markdown_events(markdown, true);
    let (headings, word_count) = match scan_events(&events) {
        Some(gathered) => gathered,
        None => {
            return Err(MarkdownError::TooManyWords);
        },
    };
    let ids = ids_of(&headings);
    let rendered = render_html(markdown, true, &ids);
    assemble(rendered, headings, word_count)
}

} // verus!
