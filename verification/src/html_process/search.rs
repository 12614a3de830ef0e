use crate::markdown::statistics::white_space;
use crate::strings::{
    lemma_run_length, lemma_run_length_bounded, run_length, string_from, to_chars,
};
use vstd::prelude::*;
use vstd::string::StringSliceAdditionalSpecFns;
use vstd::utf8::{decode_utf8, encode_utf8, is_char_boundary, is_continuation_byte, valid_utf8};

verus! {

/// The matches that an Aho-Corasick automaton for `patterns` finds in
/// `text` when it looks for matches that do not overlap: each as the byte
/// offsets of its start and of its end. The automaton is blind to the case
/// of ASCII letters or not, as `ascii_case_insensitive` says.
pub uninterp spec fn search_matches(
    patterns: Seq<Seq<char>>,
    text: Seq<char>,
    ascii_case_insensitive: bool,
) -> Seq<(usize, usize)>;

/// Builds with `aho_corasick::AhoCorasickBuilder` an automaton for
/// `patterns`, blind to the case of ASCII letters or not as asked, and
/// collects what its `find_iter` yields on `text`: the byte offsets of each
/// match. The outcome depends on the patterns, the text and the flag alone.
#[verifier::external_body]
fn find_matches(patterns: &Vec<String>, text: &str, ascii_case_insensitive: bool) -> (found: Vec<
    (usize, usize),
>)
    ensures
        found@ == search_matches(
            patterns@.map_values(|pattern: String| pattern@),
            text@,
            ascii_case_insensitive,
        ),
{
    let automaton = aho_corasick::AhoCorasickBuilder::new().ascii_case_insensitive(
        ascii_case_insensitive,
    ).build(patterns);
    automaton.find_iter(text).map(|found| (found.start(), found.end())).collect()
}

/// The length of the run of white space at the start of `text`.
pub open spec fn blank_length(text: Seq<char>) -> nat {
    run_length(text, |c: char| white_space(c))
}

/// The length of the run of characters other than white space at the
/// start of `text`.
pub open spec fn term_length(text: Seq<char>) -> nat {
    run_length(text, |c: char| !white_space(c))
}

/// The terms of a search phrase: its pieces between white space, none of
/// them empty, in their order.
pub open spec fn search_terms(phrase: Seq<char>) -> Seq<Seq<char>>
    decreases phrase.len(),
    via search_terms_decreases
{
    let blank = blank_length(phrase) as int;
    let rest = phrase.skip(blank);
    let length = term_length(rest) as int;
    if length == 0 {
        Seq::empty()
    } else {
        seq![rest.take(length)] + search_terms(rest.skip(length))
    }
}

#[via_fn]
proof fn search_terms_decreases(phrase: Seq<char>) {
    let blank = blank_length(phrase) as int;
    lemma_run_length_bounded(phrase, |c: char| white_space(c));
    let rest = phrase.skip(blank);
    lemma_run_length_bounded(rest, |c: char| !white_space(c));
}

/// The terms of a list, as mathematical values.
pub open spec fn terms_model(terms: Seq<String>) -> Seq<Seq<char>> {
    terms.map_values(|term: String| term@)
}

/// Cuts a search phrase into its terms at white space.
pub fn split_terms(phrase: &str) -> (terms: Vec<String>)
    ensures
        terms_model(terms@) == search_terms(phrase@),
{
    let chars = to_chars(phrase);
    let mut terms: Vec<String> = Vec::new();
    let mut i: usize = 0;
    proof {
        assert(chars@.skip(0) =~= chars@);
        assert(terms_model(terms@) =~= Seq::<Seq<char>>::empty());
    }
    loop
        invariant
            i <= chars.len(),
            terms_model(terms@) + search_terms(chars@.skip(i as int)) == search_terms(chars@),
        ensures
            terms_model(terms@) == search_terms(chars@),
        decreases chars.len() - i,
    {
        let ghost tail = chars@.skip(i as int);
        let mut start: usize = i;
        while start < chars.len() && chars[start].is_whitespace()
            invariant
                i <= start <= chars.len(),
                tail == chars@.skip(i as int),
                forall|j: int| 0 <= j < start - i ==> white_space(#[trigger] tail[j]),
            decreases chars.len() - start,
        {
            start += 1;
        }
        proof {
            lemma_run_length(tail, |c: char| white_space(c), start - i);
            assert(tail.skip(start - i) =~= chars@.skip(start as int));
        }
        let ghost rest = chars@.skip(start as int);
        let mut end: usize = start;
        while end < chars.len() && !chars[end].is_whitespace()
            invariant
                start <= end <= chars.len(),
                rest == chars@.skip(start as int),
                forall|j: int| 0 <= j < end - start ==> !white_space(#[trigger] rest[j]),
            decreases chars.len() - end,
        {
            end += 1;
        }
        proof {
            lemma_run_length(rest, |c: char| !white_space(c), end - start);
        }
        if end == start {
            proof {
                assert(search_terms(tail) =~= Seq::<Seq<char>>::empty());
                assert(terms_model(terms@) + Seq::<Seq<char>>::empty() =~= terms_model(terms@));
            }
            break ;
        }
        let term = string_from(&chars, start, end);
        let ghost before = terms_model(terms@);
        terms.push(term);
        proof {
            assert(rest.take(end - start) =~= chars@.subrange(start as int, end as int));
            assert(rest.skip(end - start) =~= chars@.skip(end as int));
            assert(terms_model(terms@) =~= before.push(term@));
            assert(before + (seq![term@] + search_terms(chars@.skip(end as int))) =~= before.push(
                term@,
            ) + search_terms(chars@.skip(end as int)));
        }
        i = end;
    }
    terms
}

/// The matches of the terms of the search phrase `phrase` in `text`: every
/// term is looked for by itself, and the case of ASCII letters does not
/// count.
pub open spec fn term_matches(phrase: Seq<char>, text: Seq<char>) -> Seq<(usize, usize)> {
    search_matches(search_terms(phrase), text, true)
}

/// The text that stands in `text` between the byte offsets `from` and `to`.
pub open spec fn slice_of(text: Seq<char>, from: int, to: int) -> Seq<char> {
    decode_utf8(encode_utf8(text).subrange(from, to))
}

/// Whether a match can be cut out of `text` after the byte offset `index`:
/// it starts at `index` or later, ends within the text, and both its ends
/// lie between characters.
pub open spec fn usable_match(text: Seq<char>, index: int, found: (usize, usize)) -> bool {
    let bytes = encode_utf8(text);
    &&& index <= found.0 <= found.1 <= bytes.len()
    &&& is_char_boundary(bytes, found.0 as int)
    &&& is_char_boundary(bytes, found.1 as int)
}

/// A piece of a text in which matches are marked.
#[derive(Debug, PartialEq, Eq)]
pub enum Piece {
    /// Text outside the matches.
    Text(String),
    /// A match. The first match of a document is told apart.
    Mark { text: String, first: bool },
}

/// A piece as mathematical values.
pub enum PieceModel {
    Text(Seq<char>),
    Mark { text: Seq<char>, first: bool },
}

impl View for Piece {
    type V = PieceModel;

    open spec fn view(&self) -> PieceModel {
        match self {
            Piece::Text(text) => PieceModel::Text(text@),
            Piece::Mark { text, first } => PieceModel::Mark { text: text@, first: *first },
        }
    }
}

/// The pieces of a list, as mathematical values.
pub open spec fn pieces_model(pieces: Seq<Piece>) -> Seq<PieceModel> {
    pieces.map_values(|piece: Piece| piece@)
}

/// The pieces of `text` from the byte offset `index` on: before each
/// usable match the text since the last one, then the match, and at the end
/// the text after the last match. A match that is not usable is passed
/// over. `matched` says whether a match was marked before.
pub open spec fn pieces_from(
    text: Seq<char>,
    matches: Seq<(usize, usize)>,
    index: int,
    matched: bool,
) -> Seq<PieceModel>
    decreases matches.len(),
{
    if matches.len() == 0 {
        seq![PieceModel::Text(slice_of(text, index, encode_utf8(text).len() as int))]
    } else if usable_match(text, index, matches[0]) {
        seq![
            PieceModel::Text(slice_of(text, index, matches[0].0 as int)),
            PieceModel::Mark {
                text: slice_of(text, matches[0].0 as int, matches[0].1 as int),
                first: !matched,
            },
        ] + pieces_from(text, matches.drop_first(), matches[0].1 as int, true)
    } else {
        pieces_from(text, matches.drop_first(), index, matched)
    }
}

/// The pieces that take the place of `text`: none where no match is
/// marked, so that the text stays as it is.
pub open spec fn highlighted(text: Seq<char>, matches: Seq<(usize, usize)>, matched: bool) -> Option<
    Seq<PieceModel>,
> {
    let pieces = pieces_from(text, matches, 0, matched);
    if pieces.len() <= 1 {
        None
    } else {
        Some(pieces)
    }
}

/// The text of one piece.
pub open spec fn piece_text(piece: PieceModel) -> Seq<char> {
    match piece {
        PieceModel::Text(text) => text,
        PieceModel::Mark { text, .. } => text,
    }
}

/// The texts of the pieces, joined.
pub open spec fn joined_text(pieces: Seq<PieceModel>) -> Seq<char>
    decreases pieces.len(),
{
    if pieces.len() == 0 {
        Seq::empty()
    } else {
        piece_text(pieces[0]) + joined_text(pieces.drop_first())
    }
}

/// Without matches a text gets no pieces: it stays as it is.
pub proof fn lemma_no_match_no_pieces(text: Seq<char>, matched: bool)
    ensures
        highlighted(text, Seq::empty(), matched) is None,
{
}

/// Two neighbouring slices of a text make up the slice over both.
pub proof fn lemma_slices_join(text: Seq<char>, from: int, mid: int, to: int)
    requires
        0 <= from <= mid <= to <= encode_utf8(text).len(),
        is_char_boundary(encode_utf8(text), from),
        is_char_boundary(encode_utf8(text), mid),
        is_char_boundary(encode_utf8(text), to),
    ensures
        slice_of(text, from, mid) + slice_of(text, mid, to) == slice_of(text, from, to),
{
    broadcast use vstd::utf8::group_utf8_lib;

    let bytes = encode_utf8(text);
    assert(valid_utf8(bytes));
    let head = bytes.subrange(0, to);
    assert(valid_utf8(head));
    lemma_boundary_in_prefix(bytes, from, to);
    let tail = head.subrange(from, head.len() as int);
    assert(valid_utf8(tail));
    assert(tail =~= bytes.subrange(from, to));
    lemma_boundary_in_prefix(bytes, mid, to);
    lemma_boundary_in_suffix(head, from, mid);
    assert(is_char_boundary(tail, mid - from));
    vstd::utf8::decode_utf8_split(tail, mid - from);
    assert(tail.subrange(0, mid - from) =~= bytes.subrange(from, mid));
    assert(tail.subrange(mid - from, tail.len() as int) =~= bytes.subrange(mid, to));
}

/// What lies between characters in a text lies between characters in
/// every part of the text that starts with the text and reaches as far.
proof fn lemma_boundary_in_prefix(bytes: Seq<u8>, index: int, to: int)
    requires
        valid_utf8(bytes),
        0 <= index <= to <= bytes.len(),
        is_char_boundary(bytes, index),
        is_char_boundary(bytes, to),
    ensures
        is_char_boundary(bytes.subrange(0, to), index),
{
    broadcast use vstd::utf8::group_utf8_lib;

    let head = bytes.subrange(0, to);
    assert(valid_utf8(head));
    if index < to {
        assert(head[index] == bytes[index]);
        assert(!is_continuation_byte(bytes[index]));
    } else {
        assert(is_char_boundary(head, head.len() as int));
    }
}

/// What lies between characters in a text lies between characters in
/// every part of the text that ends with the text and starts no later.
proof fn lemma_boundary_in_suffix(bytes: Seq<u8>, from: int, index: int)
    requires
        valid_utf8(bytes),
        0 <= from <= index <= bytes.len(),
        is_char_boundary(bytes, from),
        is_char_boundary(bytes, index),
    ensures
        is_char_boundary(bytes.subrange(from, bytes.len() as int), index - from),
{
    broadcast use vstd::utf8::group_utf8_lib;

    let tail = bytes.subrange(from, bytes.len() as int);
    assert(valid_utf8(tail));
    if index < bytes.len() {
        assert(tail[index - from] == bytes[index]);
        assert(!is_continuation_byte(bytes[index]));
        if index > from {
            assert(is_char_boundary(tail, index - from));
        }
    } else {
        assert(is_char_boundary(tail, tail.len() as int));
    }
}

/// The texts of the pieces, joined, are the text that was cut: nothing of
/// it is lost, added or changed.
pub proof fn lemma_pieces_join(
    text: Seq<char>,
    matches: Seq<(usize, usize)>,
    index: int,
    matched: bool,
)
    requires
        0 <= index <= encode_utf8(text).len(),
        is_char_boundary(encode_utf8(text), index),
    ensures
        joined_text(pieces_from(text, matches, index, matched)) == slice_of(
            text,
            index,
            encode_utf8(text).len() as int,
        ),
    decreases matches.len(),
{
    broadcast use vstd::utf8::group_utf8_lib;

    let bytes = encode_utf8(text);
    let end = bytes.len() as int;
    assert(valid_utf8(bytes));
    assert(is_char_boundary(bytes, end));
    let pieces = pieces_from(text, matches, index, matched);
    if matches.len() == 0 {
        assert(pieces.drop_first() =~= Seq::<PieceModel>::empty());
        assert(joined_text(pieces.drop_first()) =~= Seq::<char>::empty());
        assert(joined_text(pieces) =~= slice_of(text, index, end));
    } else if usable_match(text, index, matches[0]) {
        let start = matches[0].0 as int;
        let stop = matches[0].1 as int;
        let rest = pieces_from(text, matches.drop_first(), stop, true);
        lemma_pieces_join(text, matches.drop_first(), stop, true);
        let marked = pieces.drop_first();
        assert(marked.drop_first() =~= rest);
        assert(joined_text(marked) =~= slice_of(text, start, stop) + joined_text(rest));
        assert(joined_text(pieces) =~= slice_of(text, index, start) + (slice_of(text, start, stop)
            + joined_text(rest)));
        lemma_slices_join(text, start, stop, end);
        lemma_slices_join(text, index, start, end);
    } else {
        lemma_pieces_join(text, matches.drop_first(), index, matched);
    }
}

/// The pieces that take the place of a text make up the text.
pub proof fn lemma_highlighted_keeps_text(
    text: Seq<char>,
    matches: Seq<(usize, usize)>,
    matched: bool,
)
    ensures
        highlighted(text, matches, matched) matches Some(pieces) ==> joined_text(pieces) == text,
{
    broadcast use vstd::utf8::group_utf8_lib;

    let bytes = encode_utf8(text);
    assert(valid_utf8(bytes));
    assert(is_char_boundary(bytes, 0));
    lemma_pieces_join(text, matches, 0, matched);
    assert(bytes.subrange(0, bytes.len() as int) =~= bytes);
    assert(decode_utf8(bytes) == text);
}

/// The pieces are texts and marks in turn, and begin and end with a text.
/// The first mark, where there is one, is told apart exactly if no match
/// was marked before.
pub proof fn lemma_pieces_alternate(
    text: Seq<char>,
    matches: Seq<(usize, usize)>,
    index: int,
    matched: bool,
)
    ensures
        ({
            let pieces = pieces_from(text, matches, index, matched);
            &&& pieces.len() % 2 == 1
            &&& forall|i: int|
                0 <= i < pieces.len() ==> (#[trigger] pieces[i] is Mark <==> i % 2 == 1)
            &&& pieces.len() > 1 ==> pieces[1] == (PieceModel::Mark {
                text: piece_text(pieces[1]),
                first: !matched,
            })
        }),
    decreases matches.len(),
{
    let pieces = pieces_from(text, matches, index, matched);
    if matches.len() == 0 {
    } else if usable_match(text, index, matches[0]) {
        let rest = pieces_from(text, matches.drop_first(), matches[0].1 as int, true);
        lemma_pieces_alternate(text, matches.drop_first(), matches[0].1 as int, true);
        assert forall|i: int| 0 <= i < pieces.len() implies (#[trigger] pieces[i] is Mark <==> i % 2
            == 1) by {
            if i >= 2 {
                assert(pieces[i] == rest[i - 2]);
            }
        }
    } else {
        lemma_pieces_alternate(text, matches.drop_first(), index, matched);
    }
}

/// Among the pieces no mark is told apart once a match has been marked,
/// and none after another mark: only the first match of a document is.
pub proof fn lemma_only_first_mark_is_first(
    text: Seq<char>,
    matches: Seq<(usize, usize)>,
    index: int,
    matched: bool,
)
    ensures
        forall|i: int|
            0 <= i < pieces_from(text, matches, index, matched).len() ==> (#[trigger] pieces_from(
                text,
                matches,
                index,
                matched,
            )[i] matches PieceModel::Mark { first, .. } ==> (first ==> !matched && forall|j: int|
                0 <= j < i ==> !(pieces_from(text, matches, index, matched)[j] is Mark))),
    decreases matches.len(),
{
    let pieces = pieces_from(text, matches, index, matched);
    if matches.len() == 0 {
    } else if usable_match(text, index, matches[0]) {
        let rest = pieces_from(text, matches.drop_first(), matches[0].1 as int, true);
        lemma_only_first_mark_is_first(text, matches.drop_first(), matches[0].1 as int, true);
        assert forall|i: int| 0 <= i < pieces.len() implies (#[trigger] pieces[i] matches PieceModel::Mark {
            first,
            ..
        } ==> (first ==> !matched && forall|j: int| 0 <= j < i ==> !(pieces[j] is Mark))) by {
            if i >= 2 {
                assert(pieces[i] == rest[i - 2]);
            }
        }
    } else {
        lemma_only_first_mark_is_first(text, matches.drop_first(), index, matched);
    }
}

/// Cuts out of `text` what stands between two byte offsets.
fn slice(text: &str, from: usize, to: usize) -> (piece: String)
    requires
        from <= to <= encode_utf8(text@).len(),
        is_char_boundary(encode_utf8(text@), from as int),
        is_char_boundary(encode_utf8(text@), to as int),
    ensures
        piece@ == slice_of(text@, from as int, to as int),
{
    broadcast use vstd::utf8::group_utf8_lib;

    let ghost bytes = text.spec_bytes();
    let (head, _) = text.split_at(to);
    proof {
        assert(valid_utf8(bytes));
        assert(head.spec_bytes() =~= bytes.subrange(0, to as int));
        assert(valid_utf8(head.spec_bytes()));
        if from < to {
            assert(head.spec_bytes()[from as int] == bytes[from as int]);
            assert(!is_continuation_byte(bytes[from as int]));
            assert(is_char_boundary(head.spec_bytes(), from as int));
        } else {
            assert(is_char_boundary(head.spec_bytes(), head.spec_bytes().len() as int));
        }
    }
    let (_, tail) = head.split_at(from);
    proof {
        assert(tail.spec_bytes() =~= bytes.subrange(from as int, to as int));
        assert(decode_utf8(encode_utf8(tail@)) == tail@);
    }
    tail.to_owned()
}

/// Cuts `text` into the pieces that the given matches leave and mark.
///
/// Returns nothing where no match is marked. `already_matched` says
/// whether a match was marked before in the document, and is set once one
/// is marked here: only the first match of a document is told apart.
pub fn highlight_pieces(text: &str, matches: &Vec<(usize, usize)>, already_matched: &mut bool) -> (pieces:
    Option<Vec<Piece>>)
    ensures
        match highlighted(text@, matches@, *old(already_matched)) {
            Some(model) => pieces is Some && pieces_model(pieces->0@) == model,
            None => pieces is None,
        },
        *final(already_matched) == (*old(already_matched) || pieces is Some),
{
    broadcast use vstd::utf8::group_utf8_lib;

    let ghost first_flag = *already_matched;
    let mut pieces: Vec<Piece> = Vec::new();
    let mut index: usize = 0;
    let mut matched = *already_matched;
    let mut i: usize = 0;
    let length = text.as_bytes().len();
    proof {
        assert(matches@.skip(0) =~= matches@);
        assert(pieces_model(pieces@) =~= Seq::<PieceModel>::empty());
        assert(valid_utf8(encode_utf8(text@)));
    }
    while i < matches.len()
        invariant
            i <= matches.len(),
            length == encode_utf8(text@).len(),
            index <= length,
            is_char_boundary(encode_utf8(text@), index as int),
            pieces_model(pieces@) + pieces_from(text@, matches@.skip(i as int), index as int, matched)
                == pieces_from(text@, matches@, 0, first_flag),
            pieces@.len() == 0 ==> matched == first_flag,
            pieces@.len() > 0 ==> matched,
        decreases matches.len() - i,
    {
        let (start, end) = matches[i];
        let ghost rest = matches@.skip(i as int);
        let ghost so_far = pieces_model(pieces@);
        proof {
            assert(rest[0] == (start, end));
            assert(rest.drop_first() =~= matches@.skip(i + 1));
        }
        if index <= start && start <= end && end <= length && text.is_char_boundary(start)
            && text.is_char_boundary(end) {
            let before = slice(text, index, start);
            let marked = slice(text, start, end);
            let ghost leading = PieceModel::Text(before@);
            let ghost mark = PieceModel::Mark { text: marked@, first: !matched };
            pieces.push(Piece::Text(before));
            pieces.push(Piece::Mark { text: marked, first: !matched });
            proof {
                assert(pieces_model(pieces@) =~= so_far.push(leading).push(mark));
                let tail = pieces_from(text@, matches@.skip(i + 1), end as int, true);
                assert(so_far + (seq![leading, mark] + tail) =~= so_far.push(leading).push(mark)
                    + tail);
            }
            index = end;
            matched = true;
        }
        i += 1;
    }
    if pieces.len() == 0 {
        return None;
    }
    let ghost so_far = pieces_model(pieces@);
    let last = slice(text, index, length);
    let ghost trailing = PieceModel::Text(last@);
    pieces.push(Piece::Text(last));
    proof {
        assert(matches@.skip(i as int) =~= Seq::<(usize, usize)>::empty());
        assert(pieces_model(pieces@) =~= so_far.push(trailing));
        assert(so_far + seq![trailing] =~= so_far.push(trailing));
    }
    *already_matched = true;
    Some(pieces)
}

/// Looks in `text` for the terms of the search phrase `phrase`, blind to
/// the case of ASCII letters, and cuts the text into the pieces that the
/// matches leave and mark. Returns nothing where no term is found.
pub fn search_pieces(phrase: &str, text: &str, already_matched: &mut bool) -> (pieces: Option<
    Vec<Piece>,
>)
    ensures
        match highlighted(
            text@,
            term_matches(phrase@, text@),
            *old(already_matched),
        ) {
            Some(model) => pieces is Some && pieces_model(pieces->0@) == model,
            None => pieces is None,
        },
        *final(already_matched) == (*old(already_matched) || pieces is Some),
{
    let terms = split_terms(phrase);
    let matches = find_matches(&terms, text, true);
    highlight_pieces(text, &matches, already_matched)
}

} // verus!
