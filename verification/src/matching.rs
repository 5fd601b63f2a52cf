//! The search: the lines of a text that hold a query, as it is written or
//! without regard to case.

use crate::place::{slice, Place};
use crate::text::{
    chars_of, contains, lemma_empty_occurs_everywhere, lemma_occurs_in_line_occurs_in_text,
    line_spans, lines_of, occurs_between, occurs_in, pieces_of, spans_fit, texts_of,
};
use vstd::prelude::*;
use vstd::string::*;

verus! {

/// The test that a line passes when it holds `query` as it is written.
pub open spec fn line_holds(query: Seq<char>) -> spec_fn(Seq<char>) -> bool {
    |line: Seq<char>| occurs_in(query, line)
}

/// The lines of `text` that hold `query` as it is written: each such line, once
/// for each time it is a line of `text`, in the order of the text.
pub open spec fn matching_lines(query: Seq<char>, text: Seq<char>) -> Seq<Seq<char>> {
    lines_of(text).filter(line_holds(query))
}

/// The lines of `contents` that hold `query`, in the order in which they stand
/// in `contents`, each a slice of `contents`. Case counts. The empty query is
/// held by every line.
pub fn search<'a>(query: &str, contents: &'a str) -> (found: Vec<&'a str>)
    ensures
        texts_of(found@) == matching_lines(query@, contents@),
{
    let text: Vec<char> = chars_of(contents);
    let needle: Vec<char> = chars_of(query);
    let spans: Vec<(Place, Place)> = line_spans(&text);
    let mut found: Vec<&'a str> = Vec::new();
    let mut k: usize = 0;
    let ghost pieces = pieces_of(text@, spans@);
    assert(texts_of(found@) =~= Seq::empty());
    assert(pieces.take(0).filter(line_holds(query@)) =~= Seq::empty()) by {
        reveal(Seq::filter);
    }
    while k < spans.len()
        invariant
            k <= spans.len(),
            text@ == contents@,
            needle@ == query@,
            spans_fit(spans@, text@),
            pieces == pieces_of(text@, spans@),
            texts_of(found@) == pieces.take(k as int).filter(line_holds(query@)),
        decreases spans.len() - k,
    {
        let (from, to) = spans[k];
        let ghost before = found@;
        proof {
            assert(pieces[k as int] == text@.subrange(from.index as int, to.index as int));
            assert(pieces.take(k + 1) =~= pieces.take(k as int).push(pieces[k as int]));
            pieces.take(k as int).lemma_filter_push(pieces[k as int], line_holds(query@));
        }
        if occurs_between(&text, from.index, to.index, &needle) {
            let line: &'a str = slice(contents, from, to);
            found.push(line);
            assert(texts_of(found@) =~= texts_of(before).push(line@));
        }
        k += 1;
    }
    assert(pieces.take(k as int) =~= pieces);
    found
}

/// What `str::to_lowercase` makes of a text: its lowercase form, by the rules of
/// Unicode, which look at a character's neighbours and may change a text's
/// length.
pub uninterp spec fn lowercase_of(text: Seq<char>) -> Seq<char>;

/// The lowercase form of `text`.
///
/// Calls `str::to_lowercase` of the standard library. Taken on trust: the result
/// is a function of the characters of `text` alone. Nothing is claimed of what
/// that function is.
#[verifier::external_body]
pub(crate) fn lowercase(text: &str) -> (lowered: String)
    ensures
        lowered@ == lowercase_of(text@),
{
    text.to_lowercase()
}

/// The test that a line passes when it holds `query` without regard to case:
/// the lowercase form of the line holds the lowercase form of the query. The
/// empty query is held by every line.
pub open spec fn line_holds_in_any_case(query: Seq<char>) -> spec_fn(Seq<char>) -> bool {
    |line: Seq<char>| query.len() == 0 || occurs_in(lowercase_of(query), lowercase_of(line))
}

/// The lines of `text` that hold `query` without regard to case, in the order of
/// the text.
pub open spec fn matching_lines_in_any_case(query: Seq<char>, text: Seq<char>) -> Seq<Seq<char>> {
    lines_of(text).filter(line_holds_in_any_case(query))
}

/// The lines of `contents` that hold `query` without regard to case, in the
/// order in which they stand in `contents`, each a slice of `contents` in its
/// own case. The query is brought to lowercase once, and each line before it is
/// tested. The empty query is held by every line.
pub fn search_case_insensitive<'a>(query: &str, contents: &'a str) -> (found: Vec<&'a str>)
    ensures
        texts_of(found@) == matching_lines_in_any_case(query@, contents@),
{
    let text: Vec<char> = chars_of(contents);
    let spans: Vec<(Place, Place)> = line_spans(&text);
    let every: bool = query.is_empty();
    let lowered_query: String = lowercase(query);
    let mut found: Vec<&'a str> = Vec::new();
    let mut k: usize = 0;
    let ghost pieces = pieces_of(text@, spans@);
    let ghost test = line_holds_in_any_case(query@);
    assert(texts_of(found@) =~= Seq::empty());
    assert(pieces.take(0).filter(test) =~= Seq::empty()) by {
        reveal(Seq::filter);
    }
    while k < spans.len()
        invariant
            k <= spans.len(),
            text@ == contents@,
            every == (query@.len() == 0),
            lowered_query@ == lowercase_of(query@),
            spans_fit(spans@, text@),
            pieces == pieces_of(text@, spans@),
            test == line_holds_in_any_case(query@),
            texts_of(found@) == pieces.take(k as int).filter(test),
        decreases spans.len() - k,
    {
        let (from, to) = spans[k];
        let line: &'a str = slice(contents, from, to);
        let ghost before = found@;
        proof {
            assert(pieces[k as int] == line@);
            assert(pieces.take(k + 1) =~= pieces.take(k as int).push(pieces[k as int]));
            pieces.take(k as int).lemma_filter_push(pieces[k as int], test);
        }
        if every || contains(lowercase(line).as_str(), lowered_query.as_str()) {
            found.push(line);
            assert(texts_of(found@) =~= texts_of(before).push(line@));
        }
        k += 1;
    }
    assert(pieces.take(k as int) =~= pieces);
    found
}

/// `places` tells where in `items` the items of `kept` stand: it names, in
/// rising order, just the indices of `items` whose item passes `test`, and
/// `kept` holds those items in that order.
pub open spec fn places_of_kept<A>(
    items: Seq<A>,
    test: spec_fn(A) -> bool,
    kept: Seq<A>,
    places: Seq<int>,
) -> bool {
    &&& places.len() == kept.len()
    &&& forall|i: int|
        0 <= i < places.len() ==> {
            &&& 0 <= #[trigger] places[i] < items.len()
            &&& kept[i] == items[places[i]]
            &&& test(items[places[i]])
        }
    &&& forall|i: int, j: int| 0 <= i < j < places.len() ==> places[i] < places[j]
    &&& forall|k: int| 0 <= k < items.len() && test(#[trigger] items[k]) ==> places.contains(k)
}

/// What passes a test, item by item: the result names the places in `items`
/// of the items that `filter` keeps.
pub proof fn lemma_filter_places<A>(items: Seq<A>, test: spec_fn(A) -> bool) -> (places: Seq<int>)
    ensures
        places_of_kept(items, test, items.filter(test), places),
    decreases items.len(),
{
    reveal(Seq::filter);
    if items.len() == 0 {
        Seq::empty()
    } else {
        let front = items.drop_last();
        let last = items.len() - 1;
        let found = lemma_filter_places(front, test);
        let places = if test(items.last()) {
            found.push(last)
        } else {
            found
        };
        assert forall|k: int| 0 <= k < items.len() && test(#[trigger] items[k]) implies places.contains(
            k,
        ) by {
            if k < last {
                assert(front[k] == items[k]);
                let i = choose|i: int| 0 <= i < found.len() && found[i] == k;
                assert(places[i] == k);
            } else {
                assert(places[found.len() as int] == k);
            }
        }
        assert forall|i: int| 0 <= i < places.len() implies {
            &&& 0 <= #[trigger] places[i] < items.len()
            &&& items.filter(test)[i] == items[places[i]]
            &&& test(items[places[i]])
        } by {
            if i < found.len() {
                assert(front[found[i]] == items[found[i]]);
            }
        }
        places
    }
}

/// What the exact search finds, line by line. Every line found is a line of the
/// text that holds the query; every line of the text that holds the query is
/// found; and the lines found stand in the order of the text, none left out and
/// none twice. The result names, for each line found, the index of the line of
/// the text that it is.
pub proof fn lemma_search_finds_the_lines_that_hold(query: Seq<char>, text: Seq<char>) -> (places:
    Seq<int>)
    ensures
        places_of_kept(lines_of(text), line_holds(query), matching_lines(query, text), places),
        forall|i: int|
            0 <= i < places.len() ==> occurs_in(query, lines_of(text)[#[trigger] places[i]]),
{
    lemma_filter_places(lines_of(text), line_holds(query))
}

/// What the search without regard to case finds, line by line: as for the
/// exact search, with the lowercase forms of query and line in place of the two
/// themselves.
pub proof fn lemma_search_in_any_case_finds_the_lines_that_hold(
    query: Seq<char>,
    text: Seq<char>,
) -> (places: Seq<int>)
    ensures
        places_of_kept(
            lines_of(text),
            line_holds_in_any_case(query),
            matching_lines_in_any_case(query, text),
            places,
        ),
        forall|i: int|
            0 <= i < places.len() ==> query.len() == 0 || occurs_in(
                lowercase_of(query),
                lowercase_of(lines_of(text)[#[trigger] places[i]]),
            ),
{
    lemma_filter_places(lines_of(text), line_holds_in_any_case(query))
}

/// A test that every item passes leaves a sequence as it is.
pub proof fn lemma_filter_keeps_all<A>(items: Seq<A>, test: spec_fn(A) -> bool)
    requires
        forall|i: int| 0 <= i < items.len() ==> test(#[trigger] items[i]),
    ensures
        items.filter(test) == items,
    decreases items.len(),
{
    reveal(Seq::filter);
    if items.len() > 0 {
        lemma_filter_keeps_all(items.drop_last(), test);
        assert(items.drop_last().push(items.last()) =~= items);
    }
}

/// A test that no item passes leaves nothing of a sequence.
pub proof fn lemma_filter_keeps_none<A>(items: Seq<A>, test: spec_fn(A) -> bool)
    requires
        forall|i: int| 0 <= i < items.len() ==> !test(#[trigger] items[i]),
    ensures
        items.filter(test) == Seq::<A>::empty(),
    decreases items.len(),
{
    reveal(Seq::filter);
    if items.len() > 0 {
        lemma_filter_keeps_none(items.drop_last(), test);
    }
}

/// Where each item that passes a narrow test passes a wide one too, what passes
/// the narrow test is what passes it among the items that pass the wide one.
pub proof fn lemma_filter_within_filter<A>(
    items: Seq<A>,
    narrow: spec_fn(A) -> bool,
    wide: spec_fn(A) -> bool,
)
    requires
        forall|i: int| 0 <= i < items.len() && narrow(#[trigger] items[i]) ==> wide(items[i]),
    ensures
        items.filter(narrow) == items.filter(wide).filter(narrow),
    decreases items.len(),
{
    if items.len() == 0 {
        reveal(Seq::filter);
    } else {
        let front = items.drop_last();
        let last = items.last();
        lemma_filter_within_filter(front, narrow, wide);
        assert(front.push(last) =~= items);
        front.lemma_filter_push(last, narrow);
        front.lemma_filter_push(last, wide);
        front.filter(wide).lemma_filter_push(last, narrow);
    }
}

/// The empty query is held by every line: both searches give every line of the
/// text, in order.
pub proof fn lemma_empty_query_finds_every_line(text: Seq<char>)
    ensures
        matching_lines(Seq::empty(), text) == lines_of(text),
        matching_lines_in_any_case(Seq::empty(), text) == lines_of(text),
{
    let lines = lines_of(text);
    assert forall|i: int| 0 <= i < lines.len() implies line_holds(Seq::empty())(
        #[trigger] lines[i],
    ) by {
        lemma_empty_occurs_everywhere(lines[i]);
    }
    lemma_filter_keeps_all(lines, line_holds(Seq::empty()));
    lemma_filter_keeps_all(lines, line_holds_in_any_case(Seq::empty()));
}

/// A query that stands nowhere in the text is held by none of its lines: the
/// exact search finds nothing.
pub proof fn lemma_absent_query_finds_nothing(query: Seq<char>, text: Seq<char>)
    requires
        !occurs_in(query, text),
    ensures
        matching_lines(query, text) == Seq::<Seq<char>>::empty(),
{
    let lines = lines_of(text);
    assert forall|i: int| 0 <= i < lines.len() implies !line_holds(query)(#[trigger] lines[i]) by {
        if occurs_in(query, lines[i]) {
            lemma_occurs_in_line_occurs_in_text(query, text, i);
        }
    }
    lemma_filter_keeps_none(lines, line_holds(query));
}

/// A query that is not empty and whose lowercase form stands in the lowercase
/// form of no line of the text: the search without regard to case finds nothing.
pub proof fn lemma_absent_query_finds_nothing_in_any_case(query: Seq<char>, text: Seq<char>)
    requires
        query.len() > 0,
        forall|i: int|
            0 <= i < lines_of(text).len() ==> !occurs_in(
                lowercase_of(query),
                lowercase_of(#[trigger] lines_of(text)[i]),
            ),
    ensures
        matching_lines_in_any_case(query, text) == Seq::<Seq<char>>::empty(),
{
    lemma_filter_keeps_none(lines_of(text), line_holds_in_any_case(query));
}

/// On a text each of whose lines that holds the query still holds it once both
/// are in lowercase, the search without regard to case finds every line that
/// the exact search finds, in the same order and as often, and so no fewer
/// lines: the exact matches are those of its lines that hold the query as
/// written.
pub proof fn lemma_any_case_finds_no_less(query: Seq<char>, text: Seq<char>)
    requires
        forall|i: int|
            0 <= i < lines_of(text).len() && occurs_in(query, #[trigger] lines_of(text)[i])
                ==> line_holds_in_any_case(query)(lines_of(text)[i]),
    ensures
        matching_lines(query, text) == matching_lines_in_any_case(query, text).filter(
            line_holds(query),
        ),
        matching_lines(query, text).len() <= matching_lines_in_any_case(query, text).len(),
{
    lemma_filter_within_filter(
        lines_of(text),
        line_holds(query),
        line_holds_in_any_case(query),
    );
    matching_lines_in_any_case(query, text).lemma_filter_len(line_holds(query));
}

} // verus!
