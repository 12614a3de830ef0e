use vstd::prelude::*;

verus! {

/// A heading of a document: its text and the identifier made from it.
#[derive(Debug, PartialEq, Eq)]
pub struct Heading {
    heading: String,
    id: String,
}

/// A heading as mathematical values.
pub struct HeadingModel {
    pub heading: Seq<char>,
    pub id: Seq<char>,
}

impl View for Heading {
    type V = HeadingModel;

    closed spec fn view(&self) -> HeadingModel {
        HeadingModel { heading: self.heading@, id: self.id@ }
    }
}

impl Heading {
    /// A heading with the given text and identifier.
    pub fn new(heading: &str, id: &str) -> (made: Heading)
        ensures
            made@ == (HeadingModel { heading: heading@, id: id@ }),
    {
        Heading { heading: heading.to_owned(), id: id.to_owned() }
    }

    /// The identifier of the heading.
    pub fn id(&self) -> (id: &str)
        ensures
            id@ == self@.id,
    {
        self.id.as_str()
    }

    /// The text of the heading.
    pub fn heading(&self) -> (heading: &str)
        ensures
            heading@ == self@.heading,
    {
        self.heading.as_str()
    }
}

/// How Markdown is turned into plain text.
#[derive(Debug)]
pub struct ParseMarkdownOptions<'a> {
    canonical_root_url: Option<&'a str>,
    enable_smart_punctuation: bool,
}

/// The options as mathematical values.
pub struct OptionsModel {
    pub canonical_root_url: Option<Seq<char>>,
    pub enable_smart_punctuation: bool,
}

impl<'a> View for ParseMarkdownOptions<'a> {
    type V = OptionsModel;

    closed spec fn view(&self) -> OptionsModel {
        OptionsModel {
            canonical_root_url: match self.canonical_root_url {
                Some(url) => Some(url@),
                None => None,
            },
            enable_smart_punctuation: self.enable_smart_punctuation,
        }
    }
}

impl<'a> Default for ParseMarkdownOptions<'a> {
    /// No canonical root URL, and smart punctuation switched on.
    fn default() -> (options: Self)
        ensures
            options@ == (OptionsModel {
                canonical_root_url: None,
                enable_smart_punctuation: true,
            }),
    {
        ParseMarkdownOptions { canonical_root_url: None, enable_smart_punctuation: true }
    }
}

impl<'a> ParseMarkdownOptions<'a> {
    /// Sets the URL that is put before relative link targets, or takes it
    /// away.
    pub fn canonical_root_url(&mut self, value: Option<&'a str>) -> (this: &mut Self)
        ensures
            this@ == (OptionsModel {
                canonical_root_url: match value {
                    Some(url) => Some(url@),
                    None => None,
                },
                enable_smart_punctuation: old(self)@.enable_smart_punctuation,
            }),
            *final(self) == *final(this),
    {
        self.canonical_root_url = value;
        self
    }

    /// Switches smart punctuation on or off.
    pub fn enable_smart_punctuation(&mut self, value: bool) -> (this: &mut Self)
        ensures
            this@ == (OptionsModel {
                canonical_root_url: old(self)@.canonical_root_url,
                enable_smart_punctuation: value,
            }),
            *final(self) == *final(this),
    {
        self.enable_smart_punctuation = value;
        self
    }

    /// The URL that is put before relative link targets, if any.
    pub fn root_url(&self) -> (url: Option<&'a str>)
        ensures
            match url {
                Some(url) => self@.canonical_root_url == Some(url@),
                None => self@.canonical_root_url is None,
            },
    {
        self.canonical_root_url
    }

    /// Whether smart punctuation is switched on.
    pub fn smart_punctuation(&self) -> (enabled: bool)
        ensures
            enabled == self@.enable_smart_punctuation,
    {
        self.enable_smart_punctuation
    }
}

} // verus!
