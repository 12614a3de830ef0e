use crate::strings::{lemma_run_length, run_length, string_from, to_chars};
use vstd::prelude::*;

verus! {

/// An inline HTML tag, with its name.
#[derive(Debug, PartialEq, Eq, Hash)]
#[non_exhaustive]
pub enum InlineHTMLTagType {
    Opening(String),
    Closing(String),
}

/// What a tag is, as mathematical values.
pub enum TagModel {
    Opening(Seq<char>),
    Closing(Seq<char>),
}

impl View for InlineHTMLTagType {
    type V = TagModel;

    open spec fn view(&self) -> TagModel {
        match self {
            InlineHTMLTagType::Opening(name) => TagModel::Opening(name@),
            InlineHTMLTagType::Closing(name) => TagModel::Closing(name@),
        }
    }
}

/// The parts of a tag: what follows it in the input, its name and its
/// attributes.
pub struct TagParts {
    pub remainder: Seq<char>,
    pub name: Seq<char>,
    pub attributes: Seq<char>,
}

/// Characters that may stand inside the angle brackets of a tag.
pub open spec fn is_content_char(c: char) -> bool {
    c != '>' && c != '/'
}

/// Characters of a tag's name: ASCII letters, ASCII digits and the hyphen.
pub open spec fn is_name_char(c: char) -> bool {
    ('a' <= c <= 'z') || ('A' <= c <= 'Z') || ('0' <= c <= '9') || c == '-'
}

/// Blank characters between a tag's name and its attributes.
pub open spec fn is_blank_char(c: char) -> bool {
    c == ' ' || c == '\t' || c == '\r' || c == '\n'
}

/// The content of a tag at the start of `line`: the longest run of
/// characters other than `>` and `/`, which must begin with a name. Blanks
/// after the name are dropped, and the rest of the run is the attributes.
pub open spec fn tag_content(line: Seq<char>) -> Option<TagParts> {
    let n = run_length(line, |c: char| is_content_char(c)) as int;
    let content = line.take(n);
    let m = run_length(content, |c: char| is_name_char(c)) as int;
    let k = run_length(content.skip(m), |c: char| is_blank_char(c)) as int;
    if m == 0 {
        None
    } else {
        Some(
            TagParts {
                remainder: line.skip(n),
                name: content.take(m),
                attributes: content.skip(m + k),
            },
        )
    }
}

/// A tag whose content stands between `open` and `>` at the start of `line`.
pub open spec fn delimited_tag(line: Seq<char>, open: Seq<char>) -> Option<TagParts> {
    if open.is_prefix_of(line) {
        match tag_content(line.skip(open.len() as int)) {
            Some(parts) => if parts.remainder.len() > 0 && parts.remainder[0] == '>' {
                Some(
                    TagParts {
                        remainder: parts.remainder.skip(1),
                        name: parts.name,
                        attributes: parts.attributes,
                    },
                )
            } else {
                None
            },
            None => None,
        }
    } else {
        None
    }
}

/// An opening tag at the start of `line`: `<`, the content, `>`.
pub open spec fn opening_tag(line: Seq<char>) -> Option<TagParts> {
    delimited_tag(line, seq!['<'])
}

/// A closing tag at the start of `line`: `</`, the content, `>`.
pub open spec fn closing_tag(line: Seq<char>) -> Option<TagParts> {
    delimited_tag(line, seq!['<', '/'])
}

/// The tag at the start of `node`: an opening tag, or else a closing tag.
pub open spec fn node_tag(node: Seq<char>) -> Option<TagModel> {
    match opening_tag(node) {
        Some(parts) => Some(TagModel::Opening(parts.name)),
        None => match closing_tag(node) {
            Some(parts) => Some(TagModel::Closing(parts.name)),
            None => None,
        },
    }
}

/// Whether the exec triple `(remainder, (name, attributes))` stands for `parts`.
pub open spec fn holds_parts(found: (String, (String, String)), parts: TagParts) -> bool {
    &&& found.0@ == parts.remainder
    &&& found.1.0@ == parts.name
    &&& found.1.1@ == parts.attributes
}

fn is_name(c: char) -> (b: bool)
    ensures
        b == is_name_char(c),
{
    ('a' <= c && c <= 'z') || ('A' <= c && c <= 'Z') || ('0' <= c && c <= '9') || c == '-'
}

fn is_blank(c: char) -> (b: bool)
    ensures
        b == is_blank_char(c),
{
    c == ' ' || c == '\t' || c == '\r' || c == '\n'
}

/// The three cut points of the tag content that starts at position `start`
/// of `chars`: the ends of the name, of the blanks after it and of the
/// content, each counted from `start`.
fn content_bounds(chars: &Vec<char>, start: usize) -> (bounds: (usize, usize, usize))
    requires
        start <= chars@.len(),
    ensures
        ({
            let line = chars@.skip(start as int);
            let n = run_length(line, |c: char| is_content_char(c)) as int;
            let content = line.take(n);
            let m = run_length(content, |c: char| is_name_char(c)) as int;
            let k = run_length(content.skip(m), |c: char| is_blank_char(c)) as int;
            &&& bounds.0 == m
            &&& bounds.1 == m + k
            &&& bounds.2 == n
            &&& m + k <= n
            &&& start + n <= chars.len()
        }),
{
    let ghost line = chars@.skip(start as int);
    let len = chars.len() - start;
    let mut n: usize = 0;
    while n < len && chars[start + n] != '>' && chars[start + n] != '/'
        invariant
            start + len == chars.len(),
            line == chars@.skip(start as int),
            n <= len,
            forall|i: int| 0 <= i < n ==> is_content_char(#[trigger] line[i]),
        decreases len - n,
    {
        n += 1;
    }
    proof {
        lemma_run_length(line, |c: char| is_content_char(c), n as int);
    }
    let ghost content = line.take(n as int);
    let mut m: usize = 0;
    while m < n && is_name(chars[start + m])
        invariant
            start + len == chars.len(),
            line == chars@.skip(start as int),
            content == line.take(n as int),
            m <= n <= len,
            forall|i: int| 0 <= i < m ==> is_name_char(#[trigger] content[i]),
        decreases n - m,
    {
        m += 1;
    }
    proof {
        lemma_run_length(content, |c: char| is_name_char(c), m as int);
    }
    let ghost tail = content.skip(m as int);
    let mut k: usize = 0;
    while m + k < n && is_blank(chars[start + m + k])
        invariant
            start + len == chars.len(),
            line == chars@.skip(start as int),
            content == line.take(n as int),
            tail == content.skip(m as int),
            m <= n <= len,
            m + k <= n,
            forall|i: int| 0 <= i < k ==> is_blank_char(#[trigger] tail[i]),
        decreases n - m - k,
    {
        k += 1;
    }
    proof {
        lemma_run_length(tail, |c: char| is_blank_char(c), k as int);
    }
    (m, m + k, n)
}

/// Reads a tag's content at position `start` of `chars`.
fn content_at(chars: &Vec<char>, start: usize) -> (found: Option<(usize, (String, String))>)
    requires
        start <= chars@.len(),
    ensures
        match tag_content(chars@.skip(start as int)) {
            Some(parts) => found is Some && ({
                let (end, (name, attributes)) = found->0;
                &&& start <= end <= chars@.len()
                &&& chars@.skip(end as int) == parts.remainder
                &&& name@ == parts.name
                &&& attributes@ == parts.attributes
            }),
            None => found is None,
        },
{
    let (name_end, blank_end, content_end) = content_bounds(chars, start);
    if name_end == 0 {
        return None;
    }
    let name = string_from(chars, start, start + name_end);
    let attributes = string_from(chars, start + blank_end, start + content_end);
    proof {
        let line = chars@.skip(start as int);
        let content = line.take(content_end as int);
        assert(content.take(name_end as int) =~= chars@.subrange(
            start as int,
            start + name_end,
        ));
        assert(content.skip(blank_end as int) =~= chars@.subrange(
            start + blank_end,
            start + content_end,
        ));
        assert(line.skip(content_end as int) =~= chars@.skip(start + content_end));
    }
    Some((start + content_end, (name, attributes)))
}

/// Reads a tag's content at the start of `line`: on success what follows
/// the content, then the name and the attributes.
pub fn parse_html_tag_content(line: &str) -> (found: Option<(String, (String, String))>)
    ensures
        match tag_content(line@) {
            Some(parts) => found is Some && holds_parts(found->0, parts),
            None => found is None,
        },
{
    let chars = to_chars(line);
    proof {
        assert(chars@.skip(0) =~= chars@);
    }
    match content_at(&chars, 0) {
        Some((end, (name, attributes))) => {
            let remainder = string_from(&chars, end, chars.len());
            proof {
                assert(chars@.skip(end as int) =~= chars@.subrange(
                    end as int,
                    chars@.len() as int,
                ));
            }
            Some((remainder, (name, attributes)))
        },
        None => None,
    }
}

/// Reads at the start of `chars` a tag that opens with the first `skip`
/// characters of `chars`.
fn delimited_at(chars: &Vec<char>, skip: usize) -> (found: Option<(String, (String, String))>)
    requires
        skip <= chars@.len(),
    ensures
        match delimited_tag(chars@, chars@.take(skip as int)) {
            Some(parts) => found is Some && holds_parts(found->0, parts),
            None => found is None,
        },
{
    match content_at(chars, skip) {
        Some((end, (name, attributes))) => {
            if end < chars.len() && chars[end] == '>' {
                let remainder = string_from(chars, end + 1, chars.len());
                proof {
                    let rest = chars@.skip(end as int);
                    assert(rest[0] == chars@[end as int]);
                    assert(rest.skip(1) =~= chars@.subrange(end + 1, chars@.len() as int));
                }
                Some((remainder, (name, attributes)))
            } else {
                proof {
                    let rest = chars@.skip(end as int);
                    if rest.len() > 0 {
                        assert(rest[0] == chars@[end as int]);
                    }
                }
                None
            }
        },
        None => None,
    }
}

fn opening_at(chars: &Vec<char>) -> (found: Option<(String, (String, String))>)
    ensures
        match opening_tag(chars@) {
            Some(parts) => found is Some && holds_parts(found->0, parts),
            None => found is None,
        },
{
    if chars.len() >= 1 && chars[0] == '<' {
        proof {
            assert(chars@.take(1) =~= seq!['<']);
        }
        delimited_at(chars, 1)
    } else {
        proof {
            let open = seq!['<'];
            if open.is_prefix_of(chars@) {
                assert(chars@[0] == open[0]);
            }
        }
        None
    }
}

fn closing_at(chars: &Vec<char>) -> (found: Option<(String, (String, String))>)
    ensures
        match closing_tag(chars@) {
            Some(parts) => found is Some && holds_parts(found->0, parts),
            None => found is None,
        },
{
    if chars.len() >= 2 && chars[0] == '<' && chars[1] == '/' {
        proof {
            assert(chars@.take(2) =~= seq!['<', '/']);
        }
        delimited_at(chars, 2)
    } else {
        proof {
            let open = seq!['<', '/'];
            if open.is_prefix_of(chars@) {
                assert(chars@[0] == open[0]);
                assert(chars@[1] == open[1]);
            }
        }
        None
    }
}

/// Reads a closing tag at the start of `line`: on success what follows the
/// tag, then its name, its attributes and the tag itself.
pub fn parse_closing_html_tag(line: &str) -> (found: Option<
    (String, (String, String, InlineHTMLTagType)),
>)
    ensures
        match closing_tag(line@) {
            Some(parts) => found is Some && ({
                let (remainder, (name, attributes, tag)) = found->0;
                &&& remainder@ == parts.remainder
                &&& name@ == parts.name
                &&& attributes@ == parts.attributes
                &&& tag@ == TagModel::Closing(parts.name)
            }),
            None => found is None,
        },
{
    let chars = to_chars(line);
    match closing_at(&chars) {
        Some((remainder, (name, attributes))) => {
            let tag = InlineHTMLTagType::Closing(name.clone());
            Some((remainder, (name, attributes, tag)))
        },
        None => None,
    }
}

/// Reads an opening tag at the start of `line`: on success what follows the
/// tag, then its name, its attributes and the tag itself.
pub fn parse_opening_html_tag(line: &str) -> (found: Option<
    (String, (String, String, InlineHTMLTagType)),
>)
    ensures
        match opening_tag(line@) {
            Some(parts) => found is Some && ({
                let (remainder, (name, attributes, tag)) = found->0;
                &&& remainder@ == parts.remainder
                &&& name@ == parts.name
                &&& attributes@ == parts.attributes
                &&& tag@ == TagModel::Opening(parts.name)
            }),
            None => found is None,
        },
{
    let chars = to_chars(line);
    match opening_at(&chars) {
        Some((remainder, (name, attributes))) => {
            let tag = InlineHTMLTagType::Opening(name.clone());
            Some((remainder, (name, attributes, tag)))
        },
        None => None,
    }
}

/// Reads `html_node` as an inline HTML tag: an opening tag such as
/// `<abbr title="x">`, or a closing tag such as `</abbr>`. Anything else,
/// a self-closing tag included, is no tag.
pub fn parse_node(html_node: &str) -> (tag: Option<InlineHTMLTagType>)
    ensures
        match node_tag(html_node@) {
            Some(model) => tag is Some && tag->0@ == model,
            None => tag is None,
        },
{
    let chars = to_chars(html_node);
    match opening_at(&chars) {
        Some((_, (name, _))) => Some(InlineHTMLTagType::Opening(name)),
        None => match closing_at(&chars) {
            Some((_, (name, _))) => Some(InlineHTMLTagType::Closing(name)),
            None => None,
        },
    }
}

} // verus!
