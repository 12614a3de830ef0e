use crate::strings::{lemma_run_length, run_length};
use vstd::prelude::*;

verus! {

/// How an attempt to read a string as an absolute URL ended.
#[derive(Clone, Copy, Debug, PartialEq, Eq, Structural)]
pub enum UrlParse {
    /// The string is an absolute URL.
    Absolute,
    /// The string has no scheme, so it can only be read against a base URL.
    RelativeWithoutBase,
    /// The string is rejected for any other reason.
    Invalid,
}

/// Characters that are cut off both ends of a text before it is read as a
/// URL: the C0 control characters and the space.
pub open spec fn is_c0_control_or_space(c: char) -> bool {
    c <= ' '
}

/// Characters that are passed over wherever they stand in a URL: the tab,
/// the line feed and the carriage return.
pub open spec fn is_tab_or_newline(c: char) -> bool {
    c == '\t' || c == '\n' || c == '\r'
}

/// Whether `c` is an ASCII letter.
pub open spec fn is_ascii_letter(c: char) -> bool {
    ('a' <= c <= 'z') || ('A' <= c <= 'Z')
}

/// Characters of the scheme of a URL: ASCII letters and digits, `+`, `-`
/// and `.`.
pub open spec fn is_scheme_char(c: char) -> bool {
    is_ascii_letter(c) || ('0' <= c <= '9') || c == '+' || c == '-' || c == '.'
}

/// The text without the control characters and spaces at its start.
pub open spec fn trimmed_start(text: Seq<char>) -> Seq<char>
    decreases text.len(),
{
    if text.len() > 0 && is_c0_control_or_space(text[0]) {
        trimmed_start(text.drop_first())
    } else {
        text
    }
}

/// The text without the control characters and spaces at its end.
pub open spec fn trimmed_end(text: Seq<char>) -> Seq<char>
    decreases text.len(),
{
    if text.len() > 0 && is_c0_control_or_space(text.last()) {
        trimmed_end(text.drop_last())
    } else {
        text
    }
}

/// The test for the characters that count in a URL.
pub open spec fn counts_in_url() -> spec_fn(char) -> bool {
    |c: char| !is_tab_or_newline(c)
}

/// The text as it is read as a URL: without control characters and spaces
/// at its ends, and without tabs and line breaks anywhere.
pub open spec fn url_input(text: Seq<char>) -> Seq<char> {
    trimmed_end(trimmed_start(text)).filter(counts_in_url())
}

/// The length of the run of scheme characters at the start of `text`.
pub open spec fn scheme_run(text: Seq<char>) -> nat {
    run_length(text, |c: char| is_scheme_char(c))
}

/// Whether a scheme can be read at the start of `text`: a letter, then
/// letters, digits, `+`, `-` and `.`, and then a colon.
pub open spec fn has_scheme(text: Seq<char>) -> bool {
    let input = url_input(text);
    let run = scheme_run(input) as int;
    &&& input.len() > 0
    &&& is_ascii_letter(input[0])
    &&& run < input.len()
    &&& input[run] == ':'
}

/// Whether `url::Url::parse` reads `input`, which has a scheme, as a URL.
pub uninterp spec fn parses_with_scheme(input: Seq<char>) -> bool;

/// Calls `url::Url::parse` and keeps only how it ended: with a URL, with the
/// error `RelativeUrlWithoutBase`, or with another error. The outcome depends
/// on the input alone. That error is raised at one place, exactly when no
/// scheme can be read at the start of the input.
#[verifier::external_body]
fn parse_url(input: &str) -> (outcome: UrlParse)
    ensures
        outcome == (if !has_scheme(input@) {
            UrlParse::RelativeWithoutBase
        } else if parses_with_scheme(input@) {
            UrlParse::Absolute
        } else {
            UrlParse::Invalid
        }),
{
    match url::Url::parse(input) {
        Ok(_) => UrlParse::Absolute,
        Err(url::ParseError::RelativeUrlWithoutBase) => UrlParse::RelativeWithoutBase,
        Err(_) => UrlParse::Invalid,
    }
}

impl UrlParse {
    /// Whether the outcome marks a relative reference. A malformed URL is
    /// not relative.
    pub fn is_relative(self) -> (relative: bool)
        ensures
            relative == (self == UrlParse::RelativeWithoutBase),
    {
        match self {
            UrlParse::RelativeWithoutBase => true,
            UrlParse::Absolute | UrlParse::Invalid => false,
        }
    }
}

/// Whether `url` is a relative reference: whether no scheme can be read at
/// its start.
pub open spec fn is_relative_url(url: Seq<char>) -> bool {
    !has_scheme(url)
}

/// What is cut off the end of a text that starts with a character that
/// counts leaves that character first.
proof fn lemma_trimmed_end_keeps_first(text: Seq<char>)
    requires
        text.len() > 0,
        !is_c0_control_or_space(text[0]),
    ensures
        trimmed_end(text).len() > 0,
        trimmed_end(text)[0] == text[0],
    decreases text.len(),
{
    if is_c0_control_or_space(text.last()) {
        lemma_trimmed_end_keeps_first(text.drop_last());
    }
}

/// A text that is not empty and whose first character counts in a URL
/// keeps that character first when the characters that do not count are
/// left out.
proof fn lemma_url_input_keeps_first(text: Seq<char>)
    requires
        text.len() > 0,
        !is_tab_or_newline(text[0]),
    ensures
        text.filter(counts_in_url()).len() > 0,
        text.filter(counts_in_url())[0] == text[0],
{
    reveal(Seq::filter);
    let first = seq![text[0]];
    let rest = text.drop_first();
    assert(text =~= first + rest);
    Seq::filter_distributes_over_add(first, rest, counts_in_url());
    assert(first.drop_last() =~= Seq::<char>::empty());
    assert(first.drop_last().filter(counts_in_url()) =~= Seq::<char>::empty());
    assert(first.filter(counts_in_url()) =~= first);
}

/// A text in which every character counts is read as it is.
proof fn lemma_url_input_is_text(text: Seq<char>)
    requires
        forall|i: int| 0 <= i < text.len() ==> !is_c0_control_or_space(#[trigger] text[i]),
    ensures
        url_input(text) == text,
    decreases text.len(),
{
    reveal(Seq::filter);
    if text.len() > 0 {
        assert(!is_c0_control_or_space(text[0]));
        assert(!is_c0_control_or_space(text.last()));
        let front = text.drop_last();
        assert forall|i: int| 0 <= i < front.len() implies !is_c0_control_or_space(
            #[trigger] front[i],
        ) by {
            assert(front[i] == text[i]);
        }
        lemma_url_input_is_text(front);
        if front.len() > 0 {
            assert(!is_c0_control_or_space(front[0]));
            assert(!is_c0_control_or_space(front.last()));
        }
        assert(trimmed_end(trimmed_start(front)) == front);
        assert(text.filter(counts_in_url()) =~= front.filter(counts_in_url()).push(text.last()));
        assert(front.push(text.last()) =~= text);
    }
}

/// A reference that starts with a character other than a letter, a
/// control character or a space is relative: so is every path that starts
/// with a slash, and every fragment that starts with a hash mark.
pub proof fn lemma_relative_without_leading_letter(url: Seq<char>)
    requires
        url.len() > 0,
        !is_c0_control_or_space(url[0]),
        !is_ascii_letter(url[0]),
    ensures
        is_relative_url(url),
{
    assert(trimmed_start(url) == url);
    lemma_trimmed_end_keeps_first(url);
    lemma_url_input_keeps_first(trimmed_end(url));
}

/// An empty reference is relative.
pub proof fn lemma_empty_is_relative(url: Seq<char>)
    requires
        url.len() == 0,
    ensures
        is_relative_url(url),
{
    reveal(Seq::filter);
    assert(trimmed_end(trimmed_start(url)) == url);
    assert(url.filter(counts_in_url()).len() == 0);
}

/// A reference without control characters and spaces that starts with a
/// scheme and a colon is not relative: neither is `https://example.com`.
pub proof fn lemma_not_relative_with_scheme(url: Seq<char>, n: int)
    requires
        0 < n < url.len(),
        forall|i: int| 0 <= i < url.len() ==> !is_c0_control_or_space(#[trigger] url[i]),
        is_ascii_letter(url[0]),
        forall|i: int| 0 <= i < n ==> is_scheme_char(#[trigger] url[i]),
        url[n] == ':',
    ensures
        !is_relative_url(url),
{
    lemma_url_input_is_text(url);
    lemma_run_length(url, |c: char| is_scheme_char(c), n);
}

/// Whether `url` is a relative reference: one that cannot be read as an
/// absolute URL for want of a scheme. Absolute and malformed URLs are not.
pub fn relative_url(url: &str) -> (relative: bool)
    ensures
        relative == is_relative_url(url@),
{
    parse_url(url).is_relative()
}

} // verus!
