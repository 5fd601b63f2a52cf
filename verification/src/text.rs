//! Texts as sequences of characters: where a piece stands in a text, and how a
//! text falls into lines.

use crate::place::{first_place, is_place, place_after, slice, Place};
use vstd::prelude::*;
use vstd::string::*;
use vstd::utf8::encode_utf8;

verus! {

/// `needle` stands in `hay` at index `at`: the characters of `hay` from `at` on
/// begin with `needle`.
pub open spec fn occurs_at(needle: Seq<char>, hay: Seq<char>, at: int) -> bool {
    &&& 0 <= at
    &&& at + needle.len() <= hay.len()
    &&& hay.subrange(at, at + needle.len()) == needle
}

/// `needle` stands somewhere in `hay` as one unbroken piece.
pub open spec fn occurs_in(needle: Seq<char>, hay: Seq<char>) -> bool {
    exists|at: int| occurs_at(needle, hay, at)
}

/// The index of the first line feed of `text`, or its length where it has none.
pub open spec fn line_break(text: Seq<char>) -> nat
    decreases text.len(),
{
    if text.len() == 0 || text[0] == '\n' {
        0
    } else {
        1 + line_break(text.drop_first())
    }
}

/// `line` without the carriage return that it ends with, if it ends with one.
pub open spec fn without_return(line: Seq<char>) -> Seq<char> {
    if line.len() > 0 && line.last() == '\r' {
        line.drop_last()
    } else {
        line
    }
}

/// The lines of `text`, in order.
///
/// A line ends with a line feed, or with a carriage return and a line feed
/// directly after it; neither belongs to the line. What follows the last line feed
/// is a line too, kept whole, unless nothing follows it. So a text has no empty
/// last line on account of a final line feed, the empty text has no line, and
/// two line feeds in a row hold an empty line between them.
pub open spec fn lines_of(text: Seq<char>) -> Seq<Seq<char>>
    decreases text.len(),
{
    let end = line_break(text) as int;
    if text.len() == 0 {
        Seq::empty()
    } else if end >= text.len() {
        seq![text]
    } else {
        seq![without_return(text.take(end))] + lines_of(text.skip(end + 1))
    }
}

/// The character sequences that the items of `items` stand for.
pub open spec fn texts_of<T: View<V = Seq<char>>>(items: Seq<T>) -> Seq<Seq<char>> {
    items.map_values(|item: T| item@)
}

/// The pieces of `text` that `spans` bounds, one for each pair of a first place
/// and a place behind the last character.
pub open spec fn pieces_of(text: Seq<char>, spans: Seq<(Place, Place)>) -> Seq<Seq<char>> {
    spans.map_values(|span: (Place, Place)| text.subrange(span.0.index as int, span.1.index as int))
}

/// Each pair of `spans` is a pair of places in `text`, the second no earlier
/// than the first.
pub open spec fn spans_fit(spans: Seq<(Place, Place)>, text: Seq<char>) -> bool {
    forall|k: int|
        0 <= k < spans.len() ==> {
            &&& is_place((#[trigger] spans[k]).0, text)
            &&& is_place(spans[k].1, text)
            &&& spans[k].0.index <= spans[k].1.index
        }
}

/// The first line feed of a text is where no line feed comes before.
pub proof fn lemma_line_break_is_first(text: Seq<char>, at: int)
    requires
        0 <= at <= text.len(),
        forall|k: int| 0 <= k < at ==> text[k] != '\n',
        at == text.len() || text[at] == '\n',
    ensures
        line_break(text) == at,
    decreases at,
{
    if at > 0 {
        let rest = text.drop_first();
        assert forall|k: int| 0 <= k < at - 1 implies rest[k] != '\n' by {
            assert(rest[k] == text[k + 1]);
        }
        lemma_line_break_is_first(rest, at - 1);
    }
}

/// Inside a piece of a text, a needle stands where it stands in the text itself.
pub proof fn lemma_occurs_in_piece(needle: Seq<char>, hay: Seq<char>, from: int, to: int, at: int)
    requires
        0 <= from <= to <= hay.len(),
    ensures
        occurs_at(needle, hay.subrange(from, to), at) <==> (0 <= at && at + needle.len() <= to
            - from && occurs_at(needle, hay, from + at)),
{
    if 0 <= at && at + needle.len() <= to - from {
        assert(hay.subrange(from, to).subrange(at, at + needle.len()) =~= hay.subrange(
            from + at,
            from + at + needle.len(),
        ));
    }
}

/// The first line feed of a text lies within it, or the text has none.
pub proof fn lemma_line_break_within(text: Seq<char>)
    ensures
        line_break(text) <= text.len(),
        forall|k: int| 0 <= k < line_break(text) ==> text[k] != '\n',
        line_break(text) < text.len() ==> text[line_break(text) as int] == '\n',
    decreases text.len(),
{
    if !(text.len() == 0 || text[0] == '\n') {
        let rest = text.drop_first();
        lemma_line_break_within(rest);
        assert forall|k: int| 0 <= k < line_break(text) implies text[k] != '\n' by {
            if k > 0 {
                assert(text[k] == rest[k - 1]);
            }
        }
        if line_break(text) < text.len() {
            assert(text[line_break(text) as int] == rest[line_break(rest) as int]);
        }
    }
}

/// Each line of a text is an unbroken piece of it: the result bounds the piece
/// that is the line of index `k`.
pub proof fn lemma_line_is_piece(text: Seq<char>, k: int) -> (span: (int, int))
    requires
        0 <= k < lines_of(text).len(),
    ensures
        0 <= span.0 <= span.1 <= text.len(),
        lines_of(text)[k] == text.subrange(span.0, span.1),
    decreases text.len(),
{
    let end = line_break(text) as int;
    lemma_line_break_within(text);
    if end >= text.len() {
        assert(text.subrange(0, text.len() as int) =~= text);
        (0, text.len() as int)
    } else if k == 0 {
        let whole = text.take(end);
        if whole.len() > 0 && whole.last() == '\r' {
            assert(whole.drop_last() =~= text.subrange(0, end - 1));
            (0, end - 1)
        } else {
            (0, end)
        }
    } else {
        let rest = text.skip(end + 1);
        let inner = lemma_line_is_piece(rest, k - 1);
        assert(rest.subrange(inner.0, inner.1) =~= text.subrange(
            inner.0 + end + 1,
            inner.1 + end + 1,
        ));
        (inner.0 + end + 1, inner.1 + end + 1)
    }
}

/// What stands in a line of a text stands in the text.
pub proof fn lemma_occurs_in_line_occurs_in_text(needle: Seq<char>, text: Seq<char>, k: int)
    requires
        0 <= k < lines_of(text).len(),
        occurs_in(needle, lines_of(text)[k]),
    ensures
        occurs_in(needle, text),
{
    let span = lemma_line_is_piece(text, k);
    let at = choose|at: int| occurs_at(needle, lines_of(text)[k], at);
    lemma_occurs_in_piece(needle, text, span.0, span.1, at);
    assert(occurs_at(needle, text, span.0 + at));
}

/// The empty text stands in every text.
pub proof fn lemma_empty_occurs_everywhere(hay: Seq<char>)
    ensures
        occurs_in(Seq::empty(), hay),
{
    assert(hay.subrange(0, 0) =~= Seq::<char>::empty());
    assert(occurs_at(Seq::empty(), hay, 0));
}

/// The characters of `s`, in a vector that can be read by index. The bytes of
/// `s` are no more than a `usize` counts.
pub(crate) fn chars_of(s: &str) -> (v: Vec<char>)
    ensures
        v@ == s@,
        encode_utf8(s@).len() <= usize::MAX,
{
    let mut v: Vec<char> = Vec::with_capacity(s.as_bytes().len());
    for c in it: s.chars()
        invariant
            it.seq() == s@,
            v@ == s@.take(it.index()),
    {
        v.push(c);
    }
    v
}

/// Whether `needle` stands in `hay` at index `at`.
pub(crate) fn stands_at(hay: &Vec<char>, at: usize, needle: &Vec<char>) -> (found: bool)
    ensures
        found == occurs_at(needle@, hay@, at as int),
{
    if needle.len() > hay.len() || at > hay.len() - needle.len() {
        return false;
    }
    let mut k: usize = 0;
    while k < needle.len()
        invariant
            k <= needle.len(),
            at + needle.len() <= hay.len(),
            forall|j: int| 0 <= j < k ==> hay@[at + j] == needle@[j],
        decreases needle.len() - k,
    {
        if hay[at + k] != needle[k] {
            assert(hay@.subrange(at as int, at + needle.len())[k as int] != needle@[k as int]);
            return false;
        }
        k += 1;
    }
    assert(hay@.subrange(at as int, at + needle.len()) =~= needle@);
    true
}

/// The first index from `from` on at which `needle` stands in `hay` without
/// reaching past `to`.
pub(crate) fn first_occurrence(hay: &Vec<char>, from: usize, to: usize, needle: &Vec<char>) -> (found:
    Option<usize>)
    requires
        from <= to <= hay.len(),
    ensures
        match found {
            Some(at) => {
                &&& from <= at
                &&& at + needle.len() <= to
                &&& occurs_at(needle@, hay@, at as int)
                &&& forall|j: int| from <= j < at ==> !occurs_at(needle@, hay@, j)
            },
            None => forall|j: int|
                from <= j && j + needle.len() <= to ==> !occurs_at(needle@, hay@, j),
        },
{
    if needle.len() > to - from {
        return None;
    }
    let last: usize = to - needle.len();
    let mut at: usize = from;
    loop
        invariant
            from <= at <= last,
            last + needle.len() == to,
            to <= hay.len(),
            forall|j: int| from <= j < at ==> !occurs_at(needle@, hay@, j),
        decreases last - at,
    {
        if stands_at(hay, at, needle) {
            return Some(at);
        }
        if at == last {
            return None;
        }
        at += 1;
    }
}

/// Where the lines of `text` begin and end: for each line, in order, the place
/// before its first character and the place behind its last.
pub(crate) fn line_spans(text: &Vec<char>) -> (spans: Vec<(Place, Place)>)
    requires
        encode_utf8(text@).len() <= usize::MAX,
    ensures
        spans_fit(spans@, text@),
        pieces_of(text@, spans@) == lines_of(text@),
{
    let n: usize = text.len();
    let mut spans: Vec<(Place, Place)> = Vec::new();
    let mut start: Place = first_place();
    assert(text@.skip(0) =~= text@);
    assert(pieces_of(text@, spans@) =~= Seq::empty());
    while start.index < n
        invariant
            n == text.len(),
            encode_utf8(text@).len() <= usize::MAX,
            is_place(start, text@),
            spans_fit(spans@, text@),
            pieces_of(text@, spans@) + lines_of(text@.skip(start.index as int)) == lines_of(text@),
        decreases n - start.index,
    {
        let mut end: Place = start;
        let mut stop: Place = start;
        while end.index < n && text[end.index] != '\n'
            invariant
                n == text.len(),
                encode_utf8(text@).len() <= usize::MAX,
                is_place(end, text@),
                is_place(stop, text@),
                start.index <= stop.index <= end.index,
                end.index <= stop.index + 1,
                stop.index < end.index ==> text@[stop.index as int] == '\r',
                end.index > start.index && text@[end.index - 1] == '\r' ==> stop.index < end.index,
                forall|k: int| start.index <= k < end.index ==> text@[k] != '\n',
            decreases n - end.index,
        {
            let next: Place = place_after(text, end);
            stop = if text[end.index] == '\r' {
                end
            } else {
                next
            };
            end = next;
        }
        let ghost rest = text@.skip(start.index as int);
        let ghost before = spans@;
        let ghost length = end.index - start.index;
        proof {
            assert forall|k: int| 0 <= k < length implies rest[k] != '\n' by {
                assert(rest[k] == text@[start.index + k]);
            }
            lemma_line_break_is_first(rest, length);
        }
        let last: Place = if end.index < n {
            stop
        } else {
            end
        };
        spans.push((start, last));
        let next: Place = if end.index < n {
            place_after(text, end)
        } else {
            end
        };
        proof {
            let piece = text@.subrange(start.index as int, last.index as int);
            let after = lines_of(text@.skip(next.index as int));
            assert(pieces_of(text@, spans@) =~= pieces_of(text@, before).push(piece));
            if end.index < n {
                assert(rest.take(length) =~= text@.subrange(start.index as int, end.index as int));
                assert(rest.skip(length + 1) =~= text@.skip(next.index as int));
                assert(without_return(rest.take(length)) =~= piece);
                assert(lines_of(rest) == seq![piece] + after);
            } else {
                assert(rest =~= piece);
                assert(text@.skip(next.index as int).len() == 0);
                assert(lines_of(rest) =~= seq![piece] + after);
            }
            assert(pieces_of(text@, before).push(piece) + after =~= pieces_of(text@, before) + (
            seq![piece] + after));
        }
        start = next;
    }
    assert(text@.skip(start.index as int).len() == 0);
    assert(pieces_of(text@, spans@) + Seq::<Seq<char>>::empty() =~= pieces_of(text@, spans@));
    spans
}

/// The lines of `contents`, in order, each a slice of `contents`.
pub fn lines<'a>(contents: &'a str) -> (out: Vec<&'a str>)
    ensures
        texts_of(out@) == lines_of(contents@),
{
    let text: Vec<char> = chars_of(contents);
    let spans: Vec<(Place, Place)> = line_spans(&text);
    let mut out: Vec<&'a str> = Vec::new();
    let mut k: usize = 0;
    while k < spans.len()
        invariant
            k <= spans.len(),
            text@ == contents@,
            spans_fit(spans@, text@),
            texts_of(out@) =~= pieces_of(text@, spans@).take(k as int),
        decreases spans.len() - k,
    {
        let (from, to) = spans[k];
        let piece: &'a str = slice(contents, from, to);
        let ghost before = out@;
        out.push(piece);
        proof {
            let pieces = pieces_of(text@, spans@);
            assert(pieces[k as int] == piece@);
            assert(texts_of(out@) =~= texts_of(before).push(piece@));
            assert(pieces.take(k + 1) =~= pieces.take(k as int).push(pieces[k as int]));
        }
        k += 1;
    }
    out
}

/// Whether `needle` stands in the piece of `hay` from index `from` up to, not
/// including, index `to`.
pub(crate) fn occurs_between(hay: &Vec<char>, from: usize, to: usize, needle: &Vec<char>) -> (found: bool)
    requires
        from <= to <= hay.len(),
    ensures
        found == occurs_in(needle@, hay@.subrange(from as int, to as int)),
{
    let first: Option<usize> = first_occurrence(hay, from, to, needle);
    proof {
        let piece = hay@.subrange(from as int, to as int);
        match first {
            Some(at) => {
                lemma_occurs_in_piece(needle@, hay@, from as int, to as int, at - from);
                assert(occurs_at(needle@, piece, at - from));
            },
            None => {
                assert forall|at: int| !occurs_at(needle@, piece, at) by {
                    lemma_occurs_in_piece(needle@, hay@, from as int, to as int, at);
                }
            },
        }
    }
    first.is_some()
}

/// Whether `needle` stands somewhere in `haystack` as one unbroken piece. The
/// empty needle stands in every haystack.
pub fn contains(haystack: &str, needle: &str) -> (found: bool)
    ensures
        found == occurs_in(needle@, haystack@),
{
    let hay: Vec<char> = chars_of(haystack);
    let pin: Vec<char> = chars_of(needle);
    assert(hay@.subrange(0, hay@.len() as int) =~= hay@);
    occurs_between(&hay, 0, hay.len(), &pin)
}

/// Whether `a` and `b` hold the same characters.
pub fn same_text(a: &str, b: &str) -> (same: bool)
    ensures
        same == (a@ == b@),
{
    let left: Vec<char> = chars_of(a);
    let right: Vec<char> = chars_of(b);
    if left.len() != right.len() {
        return false;
    }
    let found: bool = stands_at(&left, 0, &right);
    assert(left@.subrange(0, left@.len() as int) =~= left@);
    found
}

} // verus!
