//! The renderer: a line with each occurrence of the query set between the
//! markers that make a terminal show it in bold red.

use crate::matching::{lowercase, lowercase_of};
use crate::place::{first_place, is_place, place_after, place_at, slice, Place};
use crate::text::{chars_of, first_occurrence, lemma_occurs_in_piece, occurs_at, occurs_in};
use vstd::prelude::*;
use vstd::string::*;
use vstd::utf8::encode_utf8;

verus! {

/// The marker that turns the emphasis on: the escape character, then `[1;31m`.
pub open spec fn emphasis_on() -> Seq<char> {
    seq!['\u{1b}', '[', '1', ';', '3', '1', 'm']
}

/// The marker that turns the emphasis off: the escape character, then `[0m`.
pub open spec fn emphasis_off() -> Seq<char> {
    seq!['\u{1b}', '[', '0', 'm']
}

/// `text` between the two markers.
pub open spec fn emphasized(text: Seq<char>) -> Seq<char> {
    emphasis_on() + text + emphasis_off()
}

/// `before` as it is, and behind it `marked` between the markers for bold red.
///
/// Makes a plain `ANSIString` of `before` with `ANSIString::from` and a bold red
/// one of `marked` with `Colour::bold` on `Red` and `Style::paint`, and has
/// `ANSIStrings` write the two in a row, all of `ansi_term`. Taken on trust: a
/// plain string is written without any code; between a plain string and a bold
/// red one the prefix of bold red is written, which is the escape character and
/// `[1;31m`; behind a last string that is not plain the reset sequence is
/// written, which is the escape character and `[0m`; and both texts are written
/// unchanged.
#[verifier::external_body]
fn paint_behind(before: &str, marked: &str) -> (shown: String)
    ensures
        shown@ == before@ + emphasized(marked@),
{
    let strings = [
        ansi_term::ANSIString::from(before),
        ansi_term::Colour::Red.bold().paint(marked),
    ];
    ansi_term::ANSIStrings(&strings).to_string()
}

/// A rule that says, of what is left of a line, how many of its first
/// characters form a piece to be marked, if any do.
pub type Front = spec_fn(Seq<char>) -> Option<nat>;

/// `line` with markers woven in. The line is read from left to right. Where
/// `front` finds a piece to mark at the front of what is left, that piece is set
/// between `on` and `off`, and the reading goes on behind it; elsewhere one
/// character is kept as it is. So the pieces marked do not overlap.
pub open spec fn woven(line: Seq<char>, front: Front, on: Seq<char>, off: Seq<char>) -> Seq<char>
    decreases line.len(),
{
    let step: int = match front(line) {
        Some(k) => k as int,
        None => 0,
    };
    if line.len() == 0 {
        line
    } else if 0 < step <= line.len() {
        on + line.take(step) + off + woven(line.skip(step), front, on, off)
    } else {
        line.take(1) + woven(line.skip(1), front, on, off)
    }
}

/// The rule that marks `query` as it is written. The empty query marks nothing.
pub open spec fn exact_front(query: Seq<char>) -> Front {
    |rest: Seq<char>|
        if query.len() > 0 && occurs_at(query, rest, 0) {
            Some(query.len())
        } else {
            None
        }
}

/// `line` as it is shown for `query`: each occurrence of `query`, taken from left
/// to right without overlap, stands between the two markers; the rest of the
/// line is unchanged.
pub open spec fn rendered(line: Seq<char>, query: Seq<char>) -> Seq<char> {
    woven(line, exact_front(query), emphasis_on(), emphasis_off())
}

/// A piece stands at the front of what is left of a line from an index on just
/// when it stands in the line at that index.
pub proof fn lemma_occurs_at_front(query: Seq<char>, line: Seq<char>, at: int)
    requires
        0 <= at <= line.len(),
    ensures
        occurs_at(query, line.skip(at), 0) <==> occurs_at(query, line, at),
{
    if at + query.len() <= line.len() {
        assert(line.skip(at).subrange(0, query.len() as int) =~= line.subrange(
            at,
            at + query.len(),
        ));
    }
}

/// Up to the first piece that the rule marks, a line is woven unchanged.
pub proof fn lemma_woven_plain_front(
    line: Seq<char>,
    front: Front,
    on: Seq<char>,
    off: Seq<char>,
    k: int,
)
    requires
        0 <= k <= line.len(),
        forall|j: int| 0 <= j < k ==> front(#[trigger] line.skip(j)) is None,
    ensures
        woven(line, front, on, off) == line.take(k) + woven(line.skip(k), front, on, off),
    decreases k,
{
    if k == 0 {
        assert(line.skip(0) =~= line);
        assert(line.take(0) + woven(line, front, on, off) =~= woven(line, front, on, off));
    } else {
        assert(line.skip(0) =~= line);
        let rest = line.skip(1);
        assert forall|j: int| 0 <= j < k - 1 implies front(#[trigger] rest.skip(j)) is None by {
            assert(rest.skip(j) =~= line.skip(j + 1));
        }
        lemma_woven_plain_front(rest, front, on, off, k - 1);
        assert(rest.skip(k - 1) =~= line.skip(k));
        assert(line.take(1) + (rest.take(k - 1) + woven(line.skip(k), front, on, off))
            =~= line.take(k) + woven(line.skip(k), front, on, off));
    }
}

/// `line` with every occurrence of `query` emphasized for a terminal.
///
/// The occurrences are those of `query` as it is written, taken from left to
/// right without overlap; one at the very start or the very end of the line is
/// marked like any other. Nothing else of the line changes. With the empty query
/// the line is returned as it is.
pub fn render(line: &str, query: &str) -> (shown: String)
    ensures
        shown@ == rendered(line@, query@),
        query@.len() == 0 ==> shown@ == line@,
{
    let hay: Vec<char> = chars_of(line);
    let needle: Vec<char> = chars_of(query);
    let n: usize = hay.len();
    let m: usize = needle.len();
    let ghost front = exact_front(query@);
    let ghost on = emphasis_on();
    let ghost off = emphasis_off();
    if m == 0 {
        proof {
            lemma_woven_plain_front(line@, front, on, off, n as int);
            assert(line@.take(n as int) + woven(line@.skip(n as int), front, on, off) =~= line@);
        }
        return line.to_owned();
    }
    let mut shown: String = String::new();
    let mut pos: Place = first_place();
    assert(line@.skip(0) =~= line@);
    assert(shown@ + woven(line@, front, on, off) =~= woven(line@, front, on, off));
    loop
        invariant
            hay@ == line@,
            needle@ == query@,
            encode_utf8(line@).len() <= usize::MAX,
            n == hay.len(),
            m == needle.len(),
            m > 0,
            is_place(pos, line@),
            front == exact_front(query@),
            on == emphasis_on(),
            off == emphasis_off(),
            shown@ + woven(line@.skip(pos.index as int), front, on, off) == woven(
                line@,
                front,
                on,
                off,
            ),
        decreases n - pos.index,
    {
        let ghost rest = line@.skip(pos.index as int);
        let ghost shown_before = shown@;
        let ghost from = pos.index as int;
        match first_occurrence(&hay, pos.index, n, &needle) {
            Some(at) => {
                let start: Place = place_at(&hay, pos, at);
                let end: Place = place_at(&hay, start, at + m);
                shown.append(paint_behind(slice(line, pos, start), query).as_str());
                proof {
                    assert forall|j: int| 0 <= j < at - from implies front(
                        #[trigger] rest.skip(j),
                    ) is None by {
                        assert(rest.skip(j) =~= line@.skip(from + j));
                        lemma_occurs_at_front(query@, line@, from + j);
                        assert(!occurs_at(needle@, hay@, from + j));
                    }
                    lemma_woven_plain_front(rest, front, on, off, at - from);
                    let tail = rest.skip(at - from);
                    assert(tail =~= line@.skip(at as int));
                    lemma_occurs_at_front(query@, line@, at as int);
                    assert(front(tail) == Some(m as nat));
                    assert(tail.take(m as int) =~= query@);
                    assert(tail.skip(m as int) =~= line@.skip(at + m));
                    assert(rest.take(at - from) =~= line@.subrange(from, at as int));
                    assert(shown@ + woven(line@.skip(at + m), front, on, off) =~= shown_before + (
                    rest.take(at - from) + (on + query@ + off + woven(
                        line@.skip(at + m),
                        front,
                        on,
                        off,
                    ))));
                }
                pos = end;
            },
            None => {
                let end: Place = place_at(&hay, pos, n);
                shown.append(slice(line, pos, end));
                proof {
                    assert forall|j: int| 0 <= j < n - from implies front(
                        #[trigger] rest.skip(j),
                    ) is None by {
                        assert(rest.skip(j) =~= line@.skip(from + j));
                        lemma_occurs_at_front(query@, line@, from + j);
                        assert(!occurs_at(needle@, hay@, from + j));
                    }
                    lemma_woven_plain_front(rest, front, on, off, n - from);
                    assert(rest.take(n - from) =~= line@.subrange(from, n as int));
                    assert(rest.skip(n - from).len() == 0);
                    assert(shown@ =~= shown_before + (rest.take(n - from) + woven(
                        rest.skip(n - from),
                        front,
                        on,
                        off,
                    )));
                }
                return shown;
            },
        }
    }
}

/// The length of the shortest piece at the front of `rest` that has at least
/// `from` characters, at most as many as `lowered`, and `lowered` as its
/// lowercase form, if there is such a piece.
pub open spec fn shortest_fold(rest: Seq<char>, lowered: Seq<char>, from: int) -> Option<nat>
    decreases rest.len() + 1 - from,
{
    if from < 1 || from > rest.len() || from > lowered.len() {
        None
    } else if lowercase_of(rest.take(from)) == lowered {
        Some(from as nat)
    } else {
        shortest_fold(rest, lowered, from + 1)
    }
}

/// The rule that marks `query` in whatever case it stands: the piece marked is
/// the shortest one, not empty and no longer than the lowercase form of the
/// query, whose own lowercase form is that of the query. The empty query marks
/// nothing.
pub open spec fn any_case_front(query: Seq<char>) -> Front {
    |rest: Seq<char>|
        if query.len() > 0 {
            shortest_fold(rest, lowercase_of(query), 1)
        } else {
            None
        }
}

/// `line` as it is shown for `query` after a search without regard to case:
/// each piece that is the query but for its case, taken from left to right
/// without overlap, stands between the two markers in its own case; the rest of
/// the line is unchanged.
pub open spec fn rendered_in_any_case(line: Seq<char>, query: Seq<char>) -> Seq<char> {
    woven(line, any_case_front(query), emphasis_on(), emphasis_off())
}

/// A shortest fold is a length within what is left of the line, and at least
/// the length from which it was looked for.
pub proof fn lemma_shortest_fold_within(rest: Seq<char>, lowered: Seq<char>, from: int)
    ensures
        match shortest_fold(rest, lowered, from) {
            Some(k) => 1 <= from <= k <= rest.len() && k <= lowered.len() && lowercase_of(
                rest.take(k as int),
            ) == lowered,
            None => true,
        },
    decreases rest.len() + 1 - from,
{
    if !(from < 1 || from > rest.len() || from > lowered.len()) && lowercase_of(rest.take(from))
        != lowered {
        lemma_shortest_fold_within(rest, lowered, from + 1);
    }
}

/// The place behind the piece that the rule for any case marks at `pos` in
/// `line`, if it marks one there. `hay` holds the characters of `line`,
/// `lowered` is the lowercase form of the query and `limit` the number of its
/// characters.
fn fold_at(line: &str, hay: &Vec<char>, pos: Place, lowered: &String, limit: usize) -> (found:
    Option<Place>)
    requires
        hay@ == line@,
        encode_utf8(line@).len() <= usize::MAX,
        is_place(pos, line@),
        pos.index < line@.len(),
        limit == lowered@.len(),
    ensures
        match found {
            Some(end) => {
                &&& is_place(end, line@)
                &&& pos.index < end.index
                &&& shortest_fold(line@.skip(pos.index as int), lowered@, 1) == Some(
                    (end.index - pos.index) as nat,
                )
            },
            None => shortest_fold(line@.skip(pos.index as int), lowered@, 1) is None,
        },
{
    let ghost rest = line@.skip(pos.index as int);
    let left: usize = hay.len() - pos.index;
    let most: usize = if limit < left {
        limit
    } else {
        left
    };
    if most == 0 {
        return None;
    }
    let mut k: usize = 1;
    let mut end: Place = place_after(hay, pos);
    loop
        invariant
            hay@ == line@,
            encode_utf8(line@).len() <= usize::MAX,
            is_place(pos, line@),
            is_place(end, line@),
            end.index == pos.index + k,
            1 <= k <= most,
            most <= left,
            most <= limit,
            most == left || most == limit,
            left == line@.len() - pos.index,
            limit == lowered@.len(),
            rest == line@.skip(pos.index as int),
            shortest_fold(rest, lowered@, 1) == shortest_fold(rest, lowered@, k as int),
        decreases most - k,
    {
        let piece: &str = slice(line, pos, end);
        assert(piece@ =~= rest.take(k as int));
        if lowercase(piece) == *lowered {
            return Some(end);
        }
        if k == most {
            assert(rest.len() == left);
            assert(shortest_fold(rest, lowered@, k + 1) is None);
            return None;
        }
        k += 1;
        end = place_after(hay, end);
    }
}

/// `line` with every piece emphasized for a terminal that is `query` but for
/// its case.
///
/// This is the renderer for a line that was found without regard to case. The
/// line is read from left to right. At each place the shortest piece is marked
/// that is not empty, no longer than the lowercase form of the query, and has
/// the same lowercase form as the query; it is shown in its own case, and the
/// reading goes on behind it. Nothing else of the line changes. With the empty
/// query the line is returned as it is.
///
/// The lowercase form of a piece can depend on what stands around it. So a line
/// that the search without regard to case has found may hold no piece that the
/// renderer marks, and is then shown as it is.
pub fn render_case_insensitive(line: &str, query: &str) -> (shown: String)
    ensures
        shown@ == rendered_in_any_case(line@, query@),
        query@.len() == 0 ==> shown@ == line@,
{
    let hay: Vec<char> = chars_of(line);
    let n: usize = hay.len();
    let ghost front = any_case_front(query@);
    let ghost on = emphasis_on();
    let ghost off = emphasis_off();
    if query.is_empty() {
        proof {
            lemma_woven_plain_front(line@, front, on, off, n as int);
            assert(line@.take(n as int) + woven(line@.skip(n as int), front, on, off) =~= line@);
        }
        return line.to_owned();
    }
    let lowered: String = lowercase(query);
    let limit: usize = lowered.as_str().unicode_len();
    let mut shown: String = String::new();
    let mut kept: Place = first_place();
    let mut pos: Place = kept;
    assert(line@.skip(0) =~= line@);
    assert(shown@ + line@.subrange(0, 0) + woven(line@, front, on, off) =~= woven(
        line@,
        front,
        on,
        off,
    ));
    while pos.index < n
        invariant
            hay@ == line@,
            encode_utf8(line@).len() <= usize::MAX,
            n == line@.len(),
            is_place(kept, line@),
            is_place(pos, line@),
            kept.index <= pos.index,
            query@.len() > 0,
            lowered@ == lowercase_of(query@),
            limit == lowered@.len(),
            front == any_case_front(query@),
            on == emphasis_on(),
            off == emphasis_off(),
            shown@ + line@.subrange(kept.index as int, pos.index as int) + woven(
                line@.skip(pos.index as int),
                front,
                on,
                off,
            ) == woven(line@, front, on, off),
        decreases n - pos.index,
    {
        let ghost rest = line@.skip(pos.index as int);
        let ghost shown_before = shown@;
        let ghost plain = line@.subrange(kept.index as int, pos.index as int);
        match fold_at(line, &hay, pos, &lowered, limit) {
            Some(end) => {
                proof {
                    lemma_shortest_fold_within(rest, lowered@, 1);
                }
                let piece: &str = slice(line, pos, end);
                shown.append(paint_behind(slice(line, kept, pos), piece).as_str());
                proof {
                    let step = end.index - pos.index;
                    assert(piece@ =~= rest.take(step));
                    assert(rest.skip(step) =~= line@.skip(end.index as int));
                    assert(shown@ + line@.subrange(end.index as int, end.index as int) + woven(
                        rest.skip(step),
                        front,
                        on,
                        off,
                    ) =~= shown_before + plain + woven(rest, front, on, off));
                }
                kept = end;
                pos = end;
            },
            None => {
                let end: Place = place_after(&hay, pos);
                proof {
                    assert(rest.skip(1) =~= line@.skip(end.index as int));
                    assert(line@.subrange(kept.index as int, end.index as int) =~= plain
                        + rest.take(1));
                    assert(shown@ + (plain + rest.take(1)) + woven(rest.skip(1), front, on, off)
                        =~= shown_before + plain + woven(rest, front, on, off));
                }
                pos = end;
            },
        }
    }
    let ghost shown_before = shown@;
    shown.append(slice(line, kept, pos));
    assert(shown@ =~= shown_before + line@.subrange(kept.index as int, pos.index as int)
        + line@.skip(pos.index as int));
    shown
}

/// The character that both markers begin with.
pub open spec fn escape() -> char {
    '\u{1b}'
}

/// `shown` without the markers: read from left to right, each marker that
/// begins where the reading stands is left out, and each other character is
/// kept.
pub open spec fn stripped(shown: Seq<char>) -> Seq<char>
    decreases shown.len(),
{
    if shown.len() == 0 {
        shown
    } else if emphasis_on().is_prefix_of(shown) {
        stripped(shown.skip(emphasis_on().len() as int))
    } else if emphasis_off().is_prefix_of(shown) {
        stripped(shown.skip(emphasis_off().len() as int))
    } else {
        shown.take(1) + stripped(shown.skip(1))
    }
}

/// Marking changes no character of a line: woven with empty markers, by
/// whatever rule, a line is itself.
pub proof fn lemma_weaving_adds_markers_only(line: Seq<char>, front: Front)
    ensures
        woven(line, front, Seq::empty(), Seq::empty()) == line,
    decreases line.len(),
{
    let none = Seq::<char>::empty();
    let step: int = match front(line) {
        Some(k) => k as int,
        None => 0,
    };
    if line.len() == 0 {
    } else if 0 < step <= line.len() {
        lemma_weaving_adds_markers_only(line.skip(step), front);
        assert(none + line.take(step) + none + line.skip(step) =~= line);
    } else {
        lemma_weaving_adds_markers_only(line.skip(1), front);
        assert(line.take(1) + line.skip(1) =~= line);
    }
}

/// A marker at the front of a text is left out by the stripping.
pub proof fn lemma_stripped_drops_marker(rest: Seq<char>)
    ensures
        stripped(emphasis_on() + rest) == stripped(rest),
        stripped(emphasis_off() + rest) == stripped(rest),
{
    let on = emphasis_on();
    let off = emphasis_off();
    assert((on + rest).subrange(0, on.len() as int) =~= on);
    assert((on + rest).skip(on.len() as int) =~= rest);
    assert(!on.is_prefix_of(off + rest)) by {
        if on.is_prefix_of(off + rest) {
            assert((off + rest).subrange(0, on.len() as int)[2] == on[2]);
        }
    }
    assert((off + rest).subrange(0, off.len() as int) =~= off);
    assert((off + rest).skip(off.len() as int) =~= rest);
}

/// Neither marker stands anywhere in `text`.
pub open spec fn holds_no_marker(text: Seq<char>) -> bool {
    !occurs_in(emphasis_on(), text) && !occurs_in(emphasis_off(), text)
}

/// Each marker begins with the escape character and holds it nowhere else.
pub proof fn lemma_markers_begin_with_escape()
    ensures
        emphasis_on()[0] == escape(),
        emphasis_off()[0] == escape(),
        forall|j: int| 1 <= j < emphasis_on().len() ==> emphasis_on()[j] != escape(),
        forall|j: int| 1 <= j < emphasis_off().len() ==> emphasis_off()[j] != escape(),
{
    let on = emphasis_on();
    let off = emphasis_off();
    assert forall|j: int| 1 <= j < on.len() implies on[j] != escape() by {
        assert(on[1] == '[' && on[2] == '1' && on[3] == ';' && on[4] == '3' && on[5] == '1'
            && on[6] == 'm');
    }
    assert forall|j: int| 1 <= j < off.len() implies off[j] != escape() by {
        assert(off[1] == '[' && off[2] == '0' && off[3] == 'm');
    }
}

/// A text that holds no marker holds none in any of its pieces.
pub proof fn lemma_no_marker_in_piece(text: Seq<char>, from: int, to: int)
    requires
        holds_no_marker(text),
        0 <= from <= to <= text.len(),
    ensures
        holds_no_marker(text.subrange(from, to)),
{
    let piece = text.subrange(from, to);
    if occurs_in(emphasis_on(), piece) {
        let at = choose|at: int| occurs_at(emphasis_on(), piece, at);
        lemma_occurs_in_piece(emphasis_on(), text, from, to, at);
        assert(occurs_at(emphasis_on(), text, from + at));
    }
    if occurs_in(emphasis_off(), piece) {
        let at = choose|at: int| occurs_at(emphasis_off(), piece, at);
        lemma_occurs_in_piece(emphasis_off(), text, from, to, at);
        assert(occurs_at(emphasis_off(), text, from + at));
    }
}

/// A marker does not begin a text whose first characters are a piece that
/// holds no marker and is not empty, where nothing or the escape character
/// follows the piece.
pub proof fn lemma_no_marker_begins(marker: Seq<char>, piece: Seq<char>, rest: Seq<char>)
    requires
        marker == emphasis_on() || marker == emphasis_off(),
        !occurs_in(marker, piece),
        piece.len() > 0,
        rest.len() == 0 || rest[0] == escape(),
    ensures
        !marker.is_prefix_of(piece + rest),
{
    let all = piece + rest;
    lemma_markers_begin_with_escape();
    if marker.is_prefix_of(all) {
        let front = all.subrange(0, marker.len() as int);
        if marker.len() <= piece.len() {
            assert(piece.subrange(0, marker.len() as int) =~= front);
            assert(occurs_at(marker, piece, 0));
        } else {
            assert(front[piece.len() as int] == marker[piece.len() as int]);
            assert(all[piece.len() as int] == rest[0]);
        }
    }
}

/// A piece that holds no marker, at the front of a text, is kept whole by the
/// stripping, where nothing or the escape character follows the piece.
pub proof fn lemma_stripped_keeps_plain(piece: Seq<char>, rest: Seq<char>)
    requires
        holds_no_marker(piece),
        rest.len() == 0 || rest[0] == escape(),
    ensures
        stripped(piece + rest) == piece + stripped(rest),
    decreases piece.len(),
{
    let all = piece + rest;
    if piece.len() == 0 {
        assert(all =~= rest);
        assert(piece + stripped(rest) =~= stripped(rest));
    } else {
        lemma_no_marker_begins(emphasis_on(), piece, rest);
        lemma_no_marker_begins(emphasis_off(), piece, rest);
        let tail = piece.skip(1);
        lemma_no_marker_in_piece(piece, 1, piece.len() as int);
        lemma_stripped_keeps_plain(tail, rest);
        assert(all.skip(1) =~= tail + rest);
        assert(all.take(1) + (tail + stripped(rest)) =~= piece + stripped(rest));
    }
}

/// Stripping the markers from a woven line gives the line back, also behind a
/// text `before` that was left as it is, where the two in a row hold no marker.
pub proof fn lemma_stripping_woven_gives_line(before: Seq<char>, line: Seq<char>, front: Front)
    requires
        holds_no_marker(before + line),
    ensures
        stripped(before + woven(line, front, emphasis_on(), emphasis_off())) == before + line,
    decreases line.len(),
{
    let on = emphasis_on();
    let off = emphasis_off();
    let all = before + line;
    let none = Seq::<char>::empty();
    let step: int = match front(line) {
        Some(k) => k as int,
        None => 0,
    };
    lemma_markers_begin_with_escape();
    if line.len() == 0 {
        assert(all =~= before);
        assert(before + none =~= before);
        lemma_stripped_keeps_plain(before, none);
    } else if 0 < step <= line.len() {
        let piece = line.take(step);
        let tail = line.skip(step);
        let woven_tail = woven(tail, front, on, off);
        let shown = on + (piece + (off + woven_tail));
        assert(on + piece + off + woven_tail =~= shown);
        assert(all.subrange(0, before.len() as int) =~= before);
        assert(all.subrange(before.len() as int, before.len() + step) =~= piece);
        assert(all.subrange(before.len() + step, all.len() as int) =~= tail);
        lemma_no_marker_in_piece(all, 0, before.len() as int);
        lemma_no_marker_in_piece(all, before.len() as int, before.len() + step);
        lemma_no_marker_in_piece(all, before.len() + step, all.len() as int);
        lemma_stripped_keeps_plain(before, shown);
        lemma_stripped_drops_marker(piece + (off + woven_tail));
        lemma_stripped_keeps_plain(piece, off + woven_tail);
        lemma_stripped_drops_marker(woven_tail);
        assert(none + tail =~= tail);
        assert(none + woven_tail =~= woven_tail);
        lemma_stripping_woven_gives_line(none, tail, front);
        assert(before + (piece + tail) =~= all);
    } else {
        let first = line.take(1);
        let tail = line.skip(1);
        assert((before + first) + tail =~= all);
        lemma_stripping_woven_gives_line(before + first, tail, front);
        assert(before + (first + woven(tail, front, on, off)) =~= (before + first) + woven(
            tail,
            front,
            on,
            off,
        ));
    }
}

/// What the renderers show is the line with markers added and nothing else
/// changed: without the markers it is the line again, character for character.
/// This holds of a line that holds no marker itself, with either renderer and
/// any query.
pub proof fn lemma_render_round_trip(line: Seq<char>, query: Seq<char>)
    requires
        holds_no_marker(line),
    ensures
        stripped(rendered(line, query)) == line,
        stripped(rendered_in_any_case(line, query)) == line,
{
    let none = Seq::<char>::empty();
    assert(none + line =~= line);
    lemma_stripping_woven_gives_line(none, line, exact_front(query));
    lemma_stripping_woven_gives_line(none, line, any_case_front(query));
    assert(none + rendered(line, query) =~= rendered(line, query));
    assert(none + rendered_in_any_case(line, query) =~= rendered_in_any_case(line, query));
}

} // verus!
