use std::borrow::Cow;
use vstd::prelude::*;

verus! {

/// Whether `c` is one of the two straight quotation marks.
pub open spec fn is_straight_quote(c: char) -> bool {
    c == '\'' || c == '"'
}

/// The curly form of `c` where it is a straight quotation mark, `c` itself
/// otherwise. A mark that opens turns to the left-hand form, one that closes
/// to the right-hand form.
pub open spec fn curly(c: char, opens: bool) -> char {
    if c == '\'' {
        if opens {
            '\u{2018}'
        } else {
            '\u{2019}'
        }
    } else if c == '"' {
        if opens {
            '\u{201c}'
        } else {
            '\u{201d}'
        }
    } else {
        c
    }
}

/// Whether a quotation mark at position `i` of `line` opens a quotation: it
/// does at the start of the line and after a space.
pub open spec fn opens_at(line: Seq<char>, i: int) -> bool {
    i == 0 || line[i - 1] == ' '
}

/// The line with every straight quotation mark replaced by its curly form.
pub open spec fn smart_quotes(line: Seq<char>) -> Seq<char> {
    Seq::new(line.len(), |i: int| curly(line[i], opens_at(line, i)))
}

/// Whether `line` holds a straight quotation mark.
pub open spec fn has_straight_quote(line: Seq<char>) -> bool {
    exists|i: int| 0 <= i < line.len() && is_straight_quote(#[trigger] line[i])
}

/// A line without straight quotation marks is left as it is.
pub proof fn lemma_smart_quotes_without_quotes(line: Seq<char>)
    requires
        !has_straight_quote(line),
    ensures
        smart_quotes(line) == line,
{
    assert(smart_quotes(line) =~= line);
}

fn contains_straight_quote(line: &str) -> (found: bool)
    ensures
        found == has_straight_quote(line@),
{
    let mut found = false;
    for c in it: line.chars()
        invariant
            it.seq() == line@,
            found == has_straight_quote(line@.take(it.index() as int)),
    {
        proof {
            let k = it.index() as int;
            let before = line@.take(k);
            let after = line@.take(k + 1);
            assert(after[k] == c);
            assert(forall|i: int| 0 <= i < k ==> before[i] == after[i]);
            if has_straight_quote(before) {
                let w = choose|i: int| 0 <= i < before.len() && is_straight_quote(before[i]);
                assert(is_straight_quote(after[w]));
            }
        }
        if c == '\'' || c == '"' {
            found = true;
        }
    }
    proof {
        assert(line@.take(line@.len() as int) =~= line@);
    }
    found
}

/// Replaces the straight quotation marks of `line` by curly ones: a mark at
/// the start of the line or after a space opens, any other closes. A line
/// without such marks is handed back as it is, borrowed; any other line is
/// written anew.
pub fn format_line<'a>(line: &'a str) -> (formatted: Cow<'a, str>)
    ensures
        formatted@ == smart_quotes(line@),
        !has_straight_quote(line@) ==> formatted == Cow::<'a, str>::Borrowed(line),
        has_straight_quote(line@) ==> formatted is Owned,
{
    if !contains_straight_quote(line) {
        proof {
            lemma_smart_quotes_without_quotes(line@);
        }
        return Cow::Borrowed(line);
    }
    let mut result = String::new();
    let mut preceded_by_space = false;
    let mut at_start = true;
    for c in it: line.chars()
        invariant
            it.seq() == line@,
            at_start == (it.index() == 0),
            it.index() > 0 ==> preceded_by_space == (line@[it.index() - 1] == ' '),
            result@ == smart_quotes(line@).take(it.index() as int),
    {
        let opens = at_start || preceded_by_space;
        let out = match c {
            '\'' => if opens {
                '\u{2018}'
            } else {
                '\u{2019}'
            },
            '"' => if opens {
                '\u{201c}'
            } else {
                '\u{201d}'
            },
            _ => c,
        };
        proof {
            let k = it.index() as int;
            assert(line@[k] == c);
            assert(out == curly(line@[k], opens_at(line@, k)));
            assert(smart_quotes(line@).take(k + 1) =~= smart_quotes(line@).take(k).push(out));
        }
        result.push(out);
        preceded_by_space = c == ' ';
        at_start = false;
    }
    proof {
        assert(smart_quotes(line@).take(line@.len() as int) =~= smart_quotes(line@));
    }
    Cow::Owned(result)
}

} // verus!
