use crate::strings::to_chars;
use vstd::prelude::*;

verus! {

/// Whether all characters of `text` are ASCII other than the delete
/// character: whether they all lie below U+007F.
pub open spec fn is_plain_ascii(text: Seq<char>) -> bool {
    forall|i: int| 0 <= i < text.len() ==> #[trigger] text[i] < '\u{7f}'
}

/// What `deunicode::deunicode` makes of a text that holds a character from
/// U+007F on: its transliteration into ASCII.
pub uninterp spec fn transliterated_beyond_ascii(text: Seq<char>) -> Seq<char>;

/// The transliteration of `text` into ASCII. A text whose characters all
/// lie below U+007F stays as it is.
pub open spec fn transliterated(text: Seq<char>) -> Seq<char> {
    if is_plain_ascii(text) {
        text
    } else {
        transliterated_beyond_ascii(text)
    }
}

/// What `char::to_lowercase` yields for a character beyond ASCII: its
/// lowercase mapping, which may be more than one character long.
pub uninterp spec fn lowercased_beyond_ascii(c: char) -> Seq<char>;

/// The lowercase mapping of `c`. In ASCII the letters `A` to `Z` turn into
/// `a` to `z`, and every other character stays as it is.
pub open spec fn lowercased(c: char) -> Seq<char> {
    if 'A' <= c <= 'Z' {
        seq![((c as u32) + 32) as char]
    } else if c <= '\u{7f}' {
        seq![c]
    } else {
        lowercased_beyond_ascii(c)
    }
}

/// Calls `deunicode::deunicode`, which transliterates a Unicode string into
/// ASCII, one character at a time and from fixed tables: the outcome
/// depends on the input alone. A text whose bytes all lie below 0x7F is
/// handed back as it is. From the first other byte on every character is
/// looked up in the tables, which hold bytes below 0x7F only; so every
/// character of what is returned lies below U+007F.
#[verifier::external_body]
fn transliterate(text: &str) -> (ascii: String)
    ensures
        ascii@ == (if is_plain_ascii(text@) {
            text@
        } else {
            transliterated_beyond_ascii(text@)
        }),
        is_plain_ascii(ascii@),
{
    deunicode::deunicode(text)
}

/// Calls `char::to_lowercase` and collects the characters it yields: in
/// ASCII the lowercase letter for a capital letter and the character itself
/// for any other.
#[verifier::external_body]
fn lowercase(c: char) -> (lower: String)
    ensures
        lower@ == (if 'A' <= c <= 'Z' {
            seq![((c as u32) + 32) as char]
        } else if c <= '\u{7f}' {
            seq![c]
        } else {
            lowercased_beyond_ascii(c)
        }),
{
    c.to_lowercase().to_string()
}

/// Characters that a slug replaces by a hyphen.
pub open spec fn is_replaced(c: char) -> bool {
    c == ' ' || c == '-' || c == '/' || c == '.' || c == ','
}

/// Characters that a slug leaves out.
pub open spec fn is_removed(c: char) -> bool {
    c == '?' || c == '\'' || c == '`' || c == ':' || c == '[' || c == ']' || c == '(' || c
        == ')' || c == '!'
}

/// The slug of `text`, continued after a part whose last character was
/// replaced by a hyphen or not, as `last_was_replaced` says.
///
/// A run of replaced characters gives one hyphen, and none where the run
/// follows another hyphen or starts the text. Removed characters leave no
/// trace. Every other character is put in lowercase.
pub open spec fn slug_from(text: Seq<char>, last_was_replaced: bool) -> Seq<char>
    decreases text.len(),
{
    if text.len() == 0 {
        Seq::empty()
    } else {
        let c = text[0];
        let rest = text.drop_first();
        if is_replaced(c) {
            if last_was_replaced {
                slug_from(rest, true)
            } else {
                seq!['-'] + slug_from(rest, true)
            }
        } else if is_removed(c) {
            slug_from(rest, last_was_replaced)
        } else {
            lowercased(c) + slug_from(rest, false)
        }
    }
}

/// The slug of an ASCII text.
pub open spec fn slug(text: Seq<char>) -> Seq<char> {
    slug_from(text, true)
}

/// The test for the characters that a slug keeps in some form.
pub open spec fn kept() -> spec_fn(char) -> bool {
    |c: char| !is_removed(c)
}

/// The text without the characters that a slug leaves out.
pub open spec fn without_removed(text: Seq<char>) -> Seq<char> {
    text.filter(kept())
}

/// Punctuation that a slug leaves out is deleted, not replaced by a hyphen:
/// the slug is the same as that of the text without it.
pub proof fn lemma_slug_deletes_removed(text: Seq<char>, last_was_replaced: bool)
    ensures
        slug_from(text, last_was_replaced) == slug_from(without_removed(text), last_was_replaced),
    decreases text.len(),
{
    if text.len() == 0 {
        reveal(Seq::filter);
        assert(without_removed(text) =~= text);
    } else {
        let c = text[0];
        let rest = text.drop_first();
        assert(text =~= seq![c] + rest);
        Seq::filter_distributes_over_add(seq![c], rest, kept());
        lemma_filter_one(c);
        if is_removed(c) {
            assert(without_removed(text) =~= without_removed(rest));
            lemma_slug_deletes_removed(rest, last_was_replaced);
        } else {
            let kept = without_removed(text);
            assert(kept =~= seq![c] + without_removed(rest));
            assert(kept[0] == c);
            assert(kept.drop_first() =~= without_removed(rest));
            if is_replaced(c) {
                lemma_slug_deletes_removed(rest, true);
            } else {
                lemma_slug_deletes_removed(rest, false);
            }
        }
    }
}

proof fn lemma_filter_one(c: char)
    ensures
        without_removed(seq![c]) == if is_removed(c) {
            Seq::<char>::empty()
        } else {
            seq![c]
        },
{
    reveal(Seq::filter);
    let one = seq![c];
    assert(one.drop_last() =~= Seq::<char>::empty());
    assert(one.drop_last().filter(kept()) =~= Seq::<char>::empty());
    assert(one.last() == c);
    if is_removed(c) {
        assert(without_removed(one) =~= Seq::<char>::empty());
    } else {
        assert(without_removed(one) =~= seq![c]);
    }
}

fn replaced(c: char) -> (b: bool)
    ensures
        b == is_replaced(c),
{
    c == ' ' || c == '-' || c == '/' || c == '.' || c == ','
}

fn removed(c: char) -> (b: bool)
    ensures
        b == is_removed(c),
{
    c == '?' || c == '\'' || c == '`' || c == ':' || c == '[' || c == ']' || c == '(' || c == ')'
        || c == '!'
}

/// The slug of a text that has been transliterated into ASCII: lowercase,
/// with hyphens for spaces and separators.
pub fn slug_of_transliterated(text: &str) -> (id: String)
    ensures
        id@ == slug(text@),
{
    let chars = to_chars(text);
    let mut result = String::new();
    let mut last_was_replaced = true;
    let mut i: usize = 0;
    proof {
        assert(chars@.skip(0) =~= chars@);
    }
    while i < chars.len()
        invariant
            chars@ == text@,
            i <= chars.len(),
            result@ + slug_from(chars@.skip(i as int), last_was_replaced) == slug(text@),
        decreases chars.len() - i,
    {
        let c = chars[i];
        let ghost rest = chars@.skip(i as int);
        let ghost before = result@;
        proof {
            assert(rest[0] == c);
            assert(rest.drop_first() =~= chars@.skip(i + 1));
        }
        if replaced(c) {
            if !last_was_replaced {
                last_was_replaced = true;
                result.push('-');
                proof {
                    assert(before + (seq!['-'] + slug_from(chars@.skip(i + 1), true)) =~= before.push(
                        '-',
                    ) + slug_from(chars@.skip(i + 1), true));
                }
            }
        } else if !removed(c) {
            last_was_replaced = false;
            let lower = lowercase(c);
            result.push_str(lower.as_str());
            proof {
                assert(before + (lowercased(c) + slug_from(chars@.skip(i + 1), false)) =~= (before
                    + lowercased(c)) + slug_from(chars@.skip(i + 1), false));
            }
        }
        i += 1;
    }
    proof {
        assert(chars@.skip(i as int) =~= Seq::<char>::empty());
        assert(result@ + Seq::<char>::empty() =~= result@);
    }
    result
}

/// Whether `c` can stand in a slug: it lies below U+007F, is no capital
/// letter and none of the characters that a slug leaves out, and of those
/// that a slug replaces the hyphen only.
pub open spec fn is_slug_char(c: char) -> bool {
    &&& c < '\u{7f}'
    &&& !('A' <= c <= 'Z')
    &&& !is_removed(c)
    &&& is_replaced(c) ==> c == '-'
}

/// Whether `text` has the shape of a slug that continues after a hyphen or
/// not, as `after_hyphen` says: it is made of slug characters, no hyphen
/// follows a hyphen, and after a hyphen it does not start with one.
pub open spec fn slug_shaped(text: Seq<char>, after_hyphen: bool) -> bool {
    &&& forall|i: int| 0 <= i < text.len() ==> is_slug_char(#[trigger] text[i])
    &&& forall|i: int| 0 <= i < text.len() - 1 ==> !(#[trigger] text[i] == '-' && text[i + 1] == '-')
    &&& after_hyphen && text.len() > 0 ==> text[0] != '-'
}

/// The slug of a text below U+007F has the shape of a slug.
pub proof fn lemma_slug_shape(text: Seq<char>, last_was_replaced: bool)
    requires
        is_plain_ascii(text),
    ensures
        slug_shaped(slug_from(text, last_was_replaced), last_was_replaced),
    decreases text.len(),
{
    if text.len() > 0 {
        let c = text[0];
        let rest = text.drop_first();
        assert(c < '\u{7f}');
        assert forall|i: int| 0 <= i < rest.len() implies #[trigger] rest[i] < '\u{7f}' by {
            assert(rest[i] == text[i + 1]);
        }
        let whole = slug_from(text, last_was_replaced);
        if is_replaced(c) {
            lemma_slug_shape(rest, true);
            if !last_was_replaced {
                let tail = slug_from(rest, true);
                assert(whole =~= seq!['-'] + tail);
                assert forall|i: int| 0 <= i < whole.len() implies is_slug_char(
                    #[trigger] whole[i],
                ) by {
                    if i > 0 {
                        assert(whole[i] == tail[i - 1]);
                    }
                }
                assert forall|i: int| 0 <= i < whole.len() - 1 implies !(#[trigger] whole[i] == '-'
                    && whole[i + 1] == '-') by {
                    if i > 0 {
                        assert(whole[i] == tail[i - 1]);
                        assert(whole[i + 1] == tail[i]);
                    } else {
                        assert(whole[1] == tail[0]);
                    }
                }
            }
        } else if is_removed(c) {
            lemma_slug_shape(rest, last_was_replaced);
        } else {
            lemma_slug_shape(rest, false);
            let tail = slug_from(rest, false);
            let lower = lowercased(c)[0];
            assert(lowercased(c).len() == 1);
            assert(is_slug_char(lower));
            assert(lower != '-');
            assert(whole =~= seq![lower] + tail);
            assert forall|i: int| 0 <= i < whole.len() implies is_slug_char(#[trigger] whole[i]) by {
                if i > 0 {
                    assert(whole[i] == tail[i - 1]);
                }
            }
            assert forall|i: int| 0 <= i < whole.len() - 1 implies !(#[trigger] whole[i] == '-'
                && whole[i + 1] == '-') by {
                if i > 0 {
                    assert(whole[i] == tail[i - 1]);
                    assert(whole[i + 1] == tail[i]);
                }
            }
        }
    }
}

/// A text with the shape of a slug is its own slug.
pub proof fn lemma_shaped_is_own_slug(text: Seq<char>, last_was_replaced: bool)
    requires
        slug_shaped(text, last_was_replaced),
    ensures
        slug_from(text, last_was_replaced) == text,
    decreases text.len(),
{
    if text.len() > 0 {
        let c = text[0];
        let rest = text.drop_first();
        assert(is_slug_char(c));
        assert forall|i: int| 0 <= i < rest.len() implies is_slug_char(#[trigger] rest[i]) by {
            assert(rest[i] == text[i + 1]);
        }
        assert forall|i: int| 0 <= i < rest.len() - 1 implies !(#[trigger] rest[i] == '-' && rest[i
            + 1] == '-') by {
            assert(rest[i] == text[i + 1]);
            assert(rest[i + 1] == text[i + 2]);
        }
        if c == '-' {
            if rest.len() > 0 {
                assert(rest[0] == text[1]);
            }
            lemma_shaped_is_own_slug(rest, true);
            assert(seq!['-'] + rest =~= text);
        } else {
            lemma_shaped_is_own_slug(rest, false);
            assert(lowercased(c) =~= seq![c]);
            assert(seq![c] + rest =~= text);
        }
    }
}

/// The slug of a text below U+007F holds none of the characters that a slug
/// leaves out, no hyphen at its start and no two hyphens in a row; and what
/// a slug is made of it again, transliterated or not, is the slug itself.
pub proof fn lemma_slug_of_ascii(text: Seq<char>)
    requires
        is_plain_ascii(text),
    ensures
        slug_shaped(slug(text), true),
        is_plain_ascii(slug(text)),
        slug(slug(text)) == slug(text),
        slug(transliterated(slug(text))) == slug(text),
{
    lemma_slug_shape(text, true);
    lemma_shaped_is_own_slug(slug(text), true);
    let made = slug(text);
    assert forall|i: int| 0 <= i < made.len() implies #[trigger] made[i] < '\u{7f}' by {
        assert(is_slug_char(made[i]));
    }
}

/// The identifier of a heading with the given title: the title is
/// transliterated into ASCII first, and the slug is made of the outcome.
///
/// The identifier holds none of the characters that a slug leaves out, no
/// hyphen at its start and no two hyphens in a row, and it is its own
/// identifier.
pub fn slugified_title(title: &str) -> (id: String)
    ensures
        id@ == slug(transliterated(title@)),
        slug_shaped(id@, true),
        slug(transliterated(id@)) == id@,
{
    let ascii = transliterate(title);
    proof {
        lemma_slug_of_ascii(ascii@);
    }
    slug_of_transliterated(ascii.as_str())
}

} // verus!
