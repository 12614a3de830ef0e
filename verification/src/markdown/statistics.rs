use crate::strings::{lemma_run_length, run_length};
use vstd::prelude::*;

verus! {

/// Words read per minute from a screen.
pub const WORDS_PER_MINUTE: u32 = 180;

/// Minutes needed to read `words` words: the number of words divided by
/// the reading speed, rounded to the nearest minute (a half rounds up), and
/// never less than one.
pub open spec fn reading_time(words: nat) -> nat {
    let rounded = (words + 90) / 180;
    if rounded > 0 {
        rounded
    } else {
        1
    }
}

/// Reading time in minutes for a text of `words` words.
pub fn reading_time_from_words(words: u32) -> (minutes: u32)
    ensures
        minutes == reading_time(words as nat),
        minutes >= 1,
{
    let whole: u32 = words / WORDS_PER_MINUTE;
    let rest: u32 = words % WORDS_PER_MINUTE;
    let rounded: u32 = if rest >= 90 {
        whole + 1
    } else {
        whole
    };
    if rounded > 0 {
        rounded
    } else {
        1
    }
}

/// The reading time is one minute for every text of fewer than 270 words.
pub proof fn lemma_reading_time_short_text(words: nat)
    requires
        words < 270,
    ensures
        reading_time(words) == 1,
{
}

/// A longer text never reads faster.
pub proof fn lemma_reading_time_monotonic(fewer: nat, more: nat)
    requires
        fewer <= more,
    ensures
        reading_time(fewer) <= reading_time(more),
{
}

/// The number of words of a text with the time it takes to read them.
#[derive(Debug, PartialEq, Eq, Structural)]
pub struct TextStatistics {
    reading_time: u32,
    word_count: u32,
}

impl TextStatistics {
    /// The number of words counted, as a mathematical value.
    pub closed spec fn spec_word_count(&self) -> nat {
        self.word_count as nat
    }

    /// The reading time in minutes, as a mathematical value.
    pub closed spec fn spec_reading_time(&self) -> nat {
        self.reading_time as nat
    }

    /// The reading time is the one that belongs to the word count.
    #[verifier::type_invariant]
    pub closed spec fn well_formed(&self) -> bool {
        self.reading_time as nat == reading_time(self.word_count as nat)
    }

    /// The statistics of a text of `word_count` words.
    pub fn new(word_count: u32) -> (statistics: TextStatistics)
        ensures
            statistics.spec_word_count() == word_count,
            statistics.spec_reading_time() == reading_time(word_count as nat),
    {
        let reading_time = reading_time_from_words(word_count);
        TextStatistics { reading_time, word_count }
    }

    /// The number of words counted.
    pub fn word_count(&self) -> (count: u32)
        ensures
            count == self.spec_word_count(),
    {
        self.word_count
    }

    /// The reading time in minutes, which is the one that belongs to the
    /// word count.
    pub fn reading_time(&self) -> (minutes: u32)
        ensures
            minutes == self.spec_reading_time(),
            minutes == reading_time(self.spec_word_count()),
    {
        proof {
            use_type_invariant(self);
        }
        self.reading_time
    }
}

/// Whether `c` is white space: whether it has the Unicode property
/// White_Space. These are the characters that have it.
pub open spec fn white_space(c: char) -> bool {
    ||| '\u{9}' <= c <= '\u{d}'
    ||| c == ' '
    ||| c == '\u{85}'
    ||| c == '\u{a0}'
    ||| c == '\u{1680}'
    ||| '\u{2000}' <= c <= '\u{200a}'
    ||| c == '\u{2028}'
    ||| c == '\u{2029}'
    ||| c == '\u{202f}'
    ||| c == '\u{205f}'
    ||| c == '\u{3000}'
}

/// Whether `char::is_alphanumeric` holds of a character beyond ASCII:
/// whether it is a letter or a number by the Unicode character database.
pub uninterp spec fn alphanumeric_beyond_ascii(c: char) -> bool;

/// Whether `c` is a letter or a number. In ASCII these are the letters
/// `a` to `z` and `A` to `Z` and the digits.
pub open spec fn alphanumeric(c: char) -> bool {
    if c <= '\u{7f}' {
        ('a' <= c <= 'z') || ('A' <= c <= 'Z') || ('0' <= c <= '9')
    } else {
        alphanumeric_beyond_ascii(c)
    }
}

/// `char::is_whitespace` holds of the characters with the Unicode property
/// White_Space.
pub assume_specification[ char::is_whitespace ](c: char) -> (b: bool)
    ensures
        b == white_space(c),
;

/// `char::is_alphanumeric` holds of letters and numbers: in ASCII of the
/// letters and digits, beyond it as the Unicode character database says.
pub assume_specification[ char::is_alphanumeric ](c: char) -> (b: bool)
    ensures
        b == (if c <= '\u{7f}' {
            ('a' <= c <= 'z') || ('A' <= c <= 'Z') || ('0' <= c <= '9')
        } else {
            alphanumeric_beyond_ascii(c)
        }),
;

/// Characters that part one word from the next: white space and the slash.
pub open spec fn is_word_break(c: char) -> bool {
    white_space(c) || c == '/'
}

/// Whether a piece of text between two breaks counts as a word: it does if
/// it holds a letter or a number, or is a lone ampersand. So a hyphenated
/// compound is one word, and a run of symbols or emoji is none.
pub open spec fn is_word(piece: Seq<char>) -> bool {
    ||| exists|i: int| 0 <= i < piece.len() && alphanumeric(#[trigger] piece[i])
    ||| piece == seq!['&']
}

/// The length of the piece at the start of `text`: the characters before
/// the first break.
pub open spec fn piece_length(text: Seq<char>) -> nat {
    run_length(text, |c: char| !is_word_break(c))
}

/// The number of words in `text`: the text is cut at every break, and the
/// pieces that are words are counted.
pub open spec fn word_count(text: Seq<char>) -> nat
    decreases text.len(),
{
    let n = piece_length(text) as int;
    let first: nat = if is_word(text.take(n)) {
        1
    } else {
        0
    };
    if n >= text.len() {
        first
    } else {
        first + word_count(text.skip(n + 1))
    }
}

/// Counts the words of `text`.
///
/// Words are parted by white space and slashes. A piece counts as a word
/// if it holds a letter or a number, or is a lone ampersand.
pub fn words(text: &str) -> (count: u32)
    requires
        word_count(text@) <= u32::MAX,
    ensures
        count == word_count(text@),
{
    count_words(text) as u32
}

/// Counts the words of `text`, where a `u32` can hold their number.
pub fn try_words(text: &str) -> (count: Option<u32>)
    ensures
        match count {
            Some(count) => count == word_count(text@),
            None => word_count(text@) > u32::MAX,
        },
{
    if count_words(text) <= u32::MAX as u64 {
        Some(words(text))
    } else {
        None
    }
}

/// The piece of `chars` from `start` up to `end`, where no break stands
/// between the two and a break or the end of the text stands at `end`, is
/// the first piece of what starts at `start`; and it is a word exactly if
/// it holds a letter or a number or is a lone ampersand.
proof fn lemma_piece_in_text(
    chars: Seq<char>,
    start: int,
    end: int,
    has_alphanumeric: bool,
    lone_ampersand: bool,
)
    requires
        0 <= start <= end <= chars.len(),
        forall|j: int| start <= j < end ==> !is_word_break(#[trigger] chars[j]),
        end == chars.len() || is_word_break(chars[end]),
        has_alphanumeric == (exists|j: int| start <= j < end && alphanumeric(#[trigger] chars[j])),
        lone_ampersand == (end - start == 1 && chars[start] == '&'),
    ensures
        piece_length(chars.skip(start)) == end - start,
        is_word(chars.skip(start).take(end - start)) == (has_alphanumeric || lone_ampersand),
        end < chars.len() ==> chars.skip(start).skip(end - start + 1) == chars.skip(end + 1),
{
    let rest = chars.skip(start);
    let n = end - start;
    assert forall|j: int| 0 <= j < n implies !is_word_break(#[trigger] rest[j]) by {
        assert(rest[j] == chars[start + j]);
    }
    if end < chars.len() {
        assert(rest[n] == chars[end]);
        assert(rest.skip(n + 1) =~= chars.skip(end + 1));
    }
    lemma_run_length(rest, |c: char| !is_word_break(c), n);
    let piece = rest.take(n);
    assert(has_alphanumeric == (exists|j: int|
        0 <= j < piece.len() && alphanumeric(#[trigger] piece[j]))) by {
        if has_alphanumeric {
            let w = choose|j: int| start <= j < end && alphanumeric(#[trigger] chars[j]);
            assert(piece[w - start] == chars[w]);
        }
        if exists|j: int| 0 <= j < piece.len() && alphanumeric(#[trigger] piece[j]) {
            let w = choose|j: int| 0 <= j < piece.len() && alphanumeric(#[trigger] piece[j]);
            assert(piece[w] == chars[start + w]);
        }
    }
    assert(lone_ampersand == (piece == seq!['&'])) by {
        if lone_ampersand {
            assert(piece =~= seq!['&']);
        }
        if piece == seq!['&'] {
            assert(piece.len() == 1);
            assert(piece[0] == '&');
        }
    }
}

/// Counts the words of a text of any length.
pub fn count_words(text: &str) -> (count: u64)
    ensures
        count == word_count(text@),
{
    let chars = crate::strings::to_chars(text);
    let mut count: u64 = 0;
    let mut start: usize = 0;
    let mut i: usize = 0;
    let mut has_alphanumeric = false;
    proof {
        assert(chars@.skip(0) =~= chars@);
    }
    while i < chars.len()
        invariant
            chars@ == text@,
            start <= i <= chars.len(),
            count <= start,
            forall|j: int| start <= j < i ==> !is_word_break(#[trigger] chars@[j]),
            has_alphanumeric == (exists|j: int|
                start <= j < i && alphanumeric(#[trigger] chars@[j])),
            count + word_count(chars@.skip(start as int)) == word_count(chars@),
        decreases chars.len() - i,
    {
        let c = chars[i];
        if c.is_whitespace() || c == '/' {
            let lone_ampersand = i - start == 1 && chars[start] == '&';
            proof {
                lemma_piece_in_text(
                    chars@,
                    start as int,
                    i as int,
                    has_alphanumeric,
                    lone_ampersand,
                );
            }
            if has_alphanumeric || lone_ampersand {
                count += 1;
            }
            start = i + 1;
            has_alphanumeric = false;
        } else if c.is_alphanumeric() {
            has_alphanumeric = true;
        }
        i += 1;
    }
    let lone_ampersand = i - start == 1 && chars[start] == '&';
    proof {
        lemma_piece_in_text(chars@, start as int, i as int, has_alphanumeric, lone_ampersand);
    }
    if has_alphanumeric || lone_ampersand {
        count += 1;
    }
    count
}

} // verus!
