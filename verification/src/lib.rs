pub mod html_process;
pub mod inline_html;
pub mod markdown;
pub mod strings;
pub mod text;
pub mod url_utility;
pub mod utilities;

use crate::html_process::dom::RcDom;
use crate::html_process::rules::text_of;
use crate::html_process::serialize::{markup, page_options, process_html};
use crate::markdown::document::MarkdownError;
use crate::markdown::events::parsed_markdown;
use crate::markdown::options::{Heading, ParseMarkdownOptions};
use crate::markdown::plaintext::{parse_markdown_to_plaintext, plaintext};
use crate::markdown::statistics::TextStatistics;
use vstd::prelude::*;

verus! {

/// What a caller asks for when a document is turned into HTML or plain
/// text. What is left out is done as by default.
#[derive(Debug, Default)]
pub struct ParseInputOptions {
    /// The URL that is put before relative links.
    pub canonical_root_url: Option<String>,
    /// Whether quotes, dashes and ellipses are set as in print. They are,
    /// unless this says otherwise.
    pub enable_smart_punctuation: Option<bool>,
    /// The phrase whose terms are marked in the HTML.
    pub search_term: Option<String>,
}

/// The text of an optional string.
pub open spec fn owned_text(value: Option<String>) -> Option<Seq<char>> {
    match value {
        Some(text) => Some(text@),
        None => None,
    }
}

/// The string of an optional string, borrowed.
pub fn as_text(value: &Option<String>) -> (text: Option<&str>)
    ensures
        text_of(text) == owned_text(*value),
{
    match value {
        Some(text) => Some(text.as_str()),
        None => None,
    }
}

impl ParseInputOptions {
    /// Whether smart punctuation is asked for.
    pub open spec fn smart(self) -> bool {
        match self.enable_smart_punctuation {
            Some(value) => value,
            None => true,
        }
    }
}

/// What has become of a document: either its HTML with its headings and
/// the statistics of its text, or the reasons why there is none.
#[derive(Debug, PartialEq, Eq)]
pub struct ParseResults {
    html: Option<String>,
    headings: Option<Vec<Heading>>,
    statistics: Option<TextStatistics>,
    errors: Option<Vec<String>>,
}

impl ParseResults {
    /// Either the HTML, the headings and the statistics are there and no
    /// errors, or errors and none of the others.
    #[verifier::type_invariant]
    pub closed spec fn well_formed(&self) -> bool {
        if self.errors is Some {
            self.html is None && self.headings is None && self.statistics is None
        } else {
            self.html is Some && self.headings is Some && self.statistics is Some
        }
    }

    /// The HTML, as a mathematical value.
    pub closed spec fn spec_html(&self) -> Option<Seq<char>> {
        owned_text(self.html)
    }

    /// The headings, as a mathematical value.
    pub closed spec fn spec_headings(&self) -> Option<Vec<Heading>> {
        self.headings
    }

    /// The statistics, as a mathematical value.
    pub closed spec fn spec_statistics(&self) -> Option<TextStatistics> {
        self.statistics
    }

    /// The messages of the errors, as a mathematical value.
    pub closed spec fn spec_errors(&self) -> Option<Seq<Seq<char>>> {
        match self.errors {
            Some(errors) => Some(errors@.map_values(|message: String| message@)),
            None => None,
        }
    }

    /// The outcome for a document that was turned into HTML.
    pub fn success(html: String, headings: Vec<Heading>, statistics: TextStatistics) -> (results:
        ParseResults)
        ensures
            results.spec_html() == Some(html@),
            results.spec_headings() == Some(headings),
            results.spec_statistics() == Some(statistics),
            results.spec_errors() is None,
    {
        ParseResults {
            html: Some(html),
            headings: Some(headings),
            statistics: Some(statistics),
            errors: None,
        }
    }

    /// The outcome for a document that could not be turned into HTML.
    pub fn failure(message: String) -> (results: ParseResults)
        ensures
            results.spec_html() is None,
            results.spec_headings() is None,
            results.spec_statistics() is None,
            results.spec_errors() == Some(seq![message@]),
    {
        let mut errors: Vec<String> = Vec::new();
        errors.push(message);
        let results = ParseResults {
            html: None,
            headings: None,
            statistics: None,
            errors: Some(errors),
        };
        proof {
            assert(results.spec_errors()->0 =~= seq![message@]);
        }
        results
    }

    /// The HTML, where there is any.
    pub fn html(&self) -> (html: Option<&String>)
        ensures
            match html {
                Some(text) => self.spec_html() == Some(text@),
                None => self.spec_html() is None,
            },
            html is Some <==> self.spec_errors() is None,
    {
        proof {
            use_type_invariant(self);
        }
        self.html.as_ref()
    }

    /// The headings, where there are any.
    pub fn headings(&self) -> (headings: Option<&Vec<Heading>>)
        ensures
            match headings {
                Some(list) => self.spec_headings() == Some(*list),
                None => self.spec_headings() is None,
            },
            headings is Some <==> self.spec_errors() is None,
    {
        proof {
            use_type_invariant(self);
        }
        self.headings.as_ref()
    }

    /// The statistics, where there are any.
    pub fn statistics(&self) -> (statistics: Option<&TextStatistics>)
        ensures
            match statistics {
                Some(found) => self.spec_statistics() == Some(*found),
                None => self.spec_statistics() is None,
            },
            statistics is Some <==> self.spec_errors() is None,
    {
        proof {
            use_type_invariant(self);
        }
        self.statistics.as_ref()
    }

    /// The messages of the errors, where there are any.
    pub fn errors(&self) -> (errors: Option<&Vec<String>>)
        ensures
            match errors {
                Some(list) => self.spec_errors() == Some(
                    list@.map_values(|message: String| message@),
                ),
                None => self.spec_errors() is None,
            },
    {
        self.errors.as_ref()
    }
}

/// Makes the outcome of turning a document into HTML, once the HTML that
/// the Markdown gave has been parsed into `dom`: the fragment is
/// rewritten, with the canonical root URL and the search phrase of the
/// options, and goes into the outcome with the headings and the
/// statistics. Where the Markdown gave no HTML, the outcome says why.
pub fn markdown_to_processed_html(
    parsed: Result<(RcDom, Vec<Heading>, TextStatistics), MarkdownError>,
    options: &ParseInputOptions,
) -> (results: ParseResults)
    requires
        parsed matches Ok((dom, _, _)) ==> dom@.well_formed() && dom@.children(dom@.document).len()
            > 0,
    ensures
        match parsed {
            Ok((dom, headings, statistics)) => {
                &&& results.spec_html() == Some(
                    markup(
                        dom@.processed(
                            page_options(
                                owned_text(options.canonical_root_url),
                                owned_text(options.search_term),
                            ),
                        ).children_steps(dom@.fragment(), 0),
                    ),
                )
                &&& results.spec_headings() == Some(headings)
                &&& results.spec_statistics() == Some(statistics)
                &&& results.spec_errors() is None
            },
            Err(error) => {
                &&& results.spec_html() is None
                &&& results.spec_headings() is None
                &&& results.spec_statistics() is None
                &&& results.spec_errors() == Some(
                    seq!["Error parsing markdown: "@ + error.spec_message()],
                )
            },
        },
{
    match parsed {
        Ok((dom, headings, statistics_value)) => {
            let html = process_html(
                dom,
                as_text(&options.canonical_root_url),
                as_text(&options.search_term),
            );
            ParseResults::success(html, headings, statistics_value)
        },
        Err(error) => {
            let mut message = "Error parsing markdown: ".to_owned();
            message.push_str(error.message().as_str());
            ParseResults::failure(message)
        },
    }
}

/// Turns a Markdown document into plain text, as the caller's options ask.
/// What the caller leaves out is done as by default: with smart
/// punctuation, and without a canonical root URL.
pub fn markdown_to_plaintext(markdown: &str, input_options: Option<ParseInputOptions>) -> (text:
    String)
    ensures
        text@ == match input_options {
            Some(options) => plaintext(
                parsed_markdown(markdown@, options.smart()),
                owned_text(options.canonical_root_url),
            ),
            None => plaintext(parsed_markdown(markdown@, true), None),
        },
{
    let mut markdown_options = ParseMarkdownOptions::default();
    match &input_options {
        Some(options) => {
            markdown_options.canonical_root_url(as_text(&options.canonical_root_url));
            if let Some(value) = options.enable_smart_punctuation {
                markdown_options.enable_smart_punctuation(value);
            }
            parse_markdown_to_plaintext(markdown, &markdown_options)
        },
        None => parse_markdown_to_plaintext(markdown, &markdown_options),
    }
}

/// Why an MJML template could not be turned into HTML, with what mrml says
/// of the failure.
#[derive(Debug, PartialEq, Eq)]
pub enum MjmlError {
    /// The template could not be parsed.
    Parse(String),
    /// The parsed template could not be rendered.
    Render(String),
}

/// A failure as mathematical values.
pub enum MjmlErrorModel {
    Parse(Seq<char>),
    Render(Seq<char>),
}

impl View for MjmlError {
    type V = MjmlErrorModel;

    open spec fn view(&self) -> MjmlErrorModel {
        match self {
            MjmlError::Parse(message) => MjmlErrorModel::Parse(message@),
            MjmlError::Render(message) => MjmlErrorModel::Render(message@),
        }
    }
}

/// The HTML that mrml makes of an MJML template when it parses it and
/// renders it with the default options, or the failure of the first of the
/// two that fails, as mrml's `Debug` shows it.
pub uninterp spec fn mjml_rendering(mjml: Seq<char>) -> Result<Seq<char>, MjmlErrorModel>;

/// Parses an MJML template with `mrml::parse` and renders what it gave
/// with `render` and the default options. Both work on the text alone, in
/// a fixed order and with counted identifiers, so that the outcome depends
/// on the text alone.
#[verifier::external_body]
fn render_mjml(mjml: &str) -> (rendered: Result<String, MjmlError>)
    ensures
        match rendered {
            Ok(html) => mjml_rendering(mjml@) == Ok::<Seq<char>, MjmlErrorModel>(html@),
            Err(error) => mjml_rendering(mjml@) == Err::<Seq<char>, MjmlErrorModel>(error@),
        },
{
    let root = mrml::parse(mjml).map_err(|error| MjmlError::Parse(format!("{:?}", error)))?;
    let options = mrml::prelude::render::RenderOptions::default();
    root.element.render(&options).map_err(|error| MjmlError::Render(format!("{:?}", error)))
}

/// The HTML that an MJML template stands for, or why there is none.
pub fn try_mjml_to_html(mjml: &str) -> (rendered: Result<String, MjmlError>)
    ensures
        match rendered {
            Ok(html) => mjml_rendering(mjml@) == Ok::<Seq<char>, MjmlErrorModel>(html@),
            Err(error) => mjml_rendering(mjml@) == Err::<Seq<char>, MjmlErrorModel>(error@),
        },
{
    render_mjml(mjml)
}

/// The HTML of a rendering: empty where the template could not be parsed
/// or rendered.
pub fn html_of_mjml(rendered: Result<String, MjmlError>) -> (html: String)
    ensures
        match rendered {
            Ok(text) => html@ == text@,
            Err(_) => html@.len() == 0,
        },
{
    match rendered {
        Ok(value) => value,
        Err(_) => String::new(),
    }
}

/// Turns an MJML template into HTML. The HTML is empty where the template
/// cannot be parsed or rendered.
pub fn mjml_to_html(mjml: &str) -> (html: String)
    ensures
        match mjml_rendering(mjml@) {
            Ok(text) => html@ == text,
            Err(_) => html@.len() == 0,
        },
{
    html_of_mjml(try_mjml_to_html(mjml))
}

} // verus!
