//! Places in a text, counted in characters and in bytes at once, so that a
//! piece found by its characters can be cut out of the string that holds it
//! without reading the string again.

use vstd::prelude::*;
use vstd::string::*;
use vstd::utf8::*;

verus! {

/// A place in a text: before the character of index `index`, or behind the last
/// one, and `offset` bytes into the text as UTF-8.
#[derive(Debug, Clone, Copy)]
pub struct Place {
    /// How many characters stand before the place.
    pub index: usize,
    /// How many bytes stand before the place.
    pub offset: usize,
}

/// How many bytes the first `index` characters of `text` take as UTF-8.
pub open spec fn offset_of(text: Seq<char>, index: int) -> nat {
    encode_utf8(text.take(index)).len()
}

/// `place` is a place in `text`: its index lies within the text and its offset
/// is the one that belongs to the index.
pub open spec fn is_place(place: Place, text: Seq<char>) -> bool {
    &&& place.index <= text.len()
    &&& place.offset == offset_of(text, place.index as int)
}

/// The bytes of two texts in a row are the bytes of the first, then those of the
/// second.
pub proof fn lemma_encode_in_a_row(a: Seq<char>, b: Seq<char>)
    ensures
        encode_utf8(a + b) == encode_utf8(a) + encode_utf8(b),
    decreases a.len(),
{
    if a.len() == 0 {
        assert(a + b =~= b);
        assert(encode_utf8(a) + encode_utf8(b) =~= encode_utf8(b));
    } else {
        lemma_encode_in_a_row(a.drop_first(), b);
        assert((a + b).drop_first() =~= a.drop_first() + b);
        assert(encode_scalar(a[0] as u32) + (encode_utf8(a.drop_first()) + encode_utf8(b))
            =~= encode_utf8(a) + encode_utf8(b));
    }
}

/// The bytes of a text fall into those before a place and those behind it.
pub proof fn lemma_bytes_around_place(text: Seq<char>, index: int)
    requires
        0 <= index <= text.len(),
    ensures
        offset_of(text, index) <= encode_utf8(text).len(),
        encode_utf8(text).subrange(0, offset_of(text, index) as int) == encode_utf8(
            text.take(index),
        ),
        encode_utf8(text).subrange(
            offset_of(text, index) as int,
            encode_utf8(text).len() as int,
        ) == encode_utf8(text.skip(index)),
{
    lemma_encode_in_a_row(text.take(index), text.skip(index));
    assert(text.take(index) + text.skip(index) =~= text);
    let before = encode_utf8(text.take(index));
    let behind = encode_utf8(text.skip(index));
    assert((before + behind).subrange(0, before.len() as int) =~= before);
    assert((before + behind).subrange(before.len() as int, (before + behind).len() as int)
        =~= behind);
}

/// No character begins before a place and ends behind it: the offset of a place
/// is a boundary between characters in the bytes of the text.
pub proof fn lemma_place_is_boundary(text: Seq<char>, index: int)
    requires
        0 <= index <= text.len(),
    ensures
        is_char_boundary(encode_utf8(text), offset_of(text, index) as int),
    decreases index,
{
    let bytes = encode_utf8(text);
    encode_utf8_valid_utf8(text);
    if index == 0 {
        assert(text.take(0) =~= Seq::<char>::empty());
    } else {
        let rest = text.drop_first();
        encode_utf8_first_scalar(text);
        encode_utf8_valid_utf8(rest);
        assert(pop_first_scalar(bytes) =~= encode_utf8(rest));
        assert(text.take(index).drop_first() =~= rest.take(index - 1));
        assert(text.take(index)[0] == text[0]);
        lemma_bytes_around_place(text, index);
        lemma_place_is_boundary(rest, index - 1);
        assert(offset_of(text, index) == encode_scalar(text[0] as u32).len() + offset_of(
            rest,
            index - 1,
        ));
    }
}

/// Two texts with the same bytes are the same text.
pub proof fn lemma_same_bytes_same_text(a: Seq<char>, b: Seq<char>)
    requires
        encode_utf8(a) == encode_utf8(b),
    ensures
        a == b,
{
    encode_utf8_decode_utf8(a);
    encode_utf8_decode_utf8(b);
}

/// How many bytes `c` takes as UTF-8.
pub(crate) fn width_of(c: char) -> (width: usize)
    ensures
        width == encode_scalar(c as u32).len(),
        1 <= width <= 4,
{
    proof {
        char_is_scalar(c);
    }
    let value: u32 = c as u32;
    if value <= 0x7F {
        1
    } else if value <= 0x7FF {
        2
    } else if value <= 0xFFFF {
        3
    } else {
        4
    }
}

/// The place one character behind `place` in `text`.
pub(crate) fn place_after(text: &Vec<char>, place: Place) -> (next: Place)
    requires
        is_place(place, text@),
        place.index < text.len(),
        encode_utf8(text@).len() <= usize::MAX,
    ensures
        is_place(next, text@),
        next.index == place.index + 1,
{
    let width: usize = width_of(text[place.index]);
    proof {
        let index = place.index as int;
        assert(text@.take(index + 1) =~= text@.take(index) + seq![text@[index]]);
        lemma_encode_in_a_row(text@.take(index), seq![text@[index]]);
        assert(seq![text@[index]].drop_first() =~= Seq::<char>::empty());
        assert(encode_utf8(seq![text@[index]]) =~= encode_scalar(text@[index] as u32)) by {
            reveal_with_fuel(encode_utf8, 2);
        }
        lemma_bytes_around_place(text@, index + 1);
    }
    Place { index: place.index + 1, offset: place.offset + width }
}

/// The place in `text` before the character of index `index`, reached from
/// `place`, which stands no further on.
pub(crate) fn place_at(text: &Vec<char>, place: Place, index: usize) -> (reached: Place)
    requires
        is_place(place, text@),
        place.index <= index <= text.len(),
        encode_utf8(text@).len() <= usize::MAX,
    ensures
        is_place(reached, text@),
        reached.index == index,
{
    let mut reached: Place = place;
    while reached.index < index
        invariant
            is_place(reached, text@),
            reached.index <= index <= text.len(),
            encode_utf8(text@).len() <= usize::MAX,
        decreases index - reached.index,
    {
        reached = place_after(text, reached);
    }
    reached
}

/// The place before the first character of a text.
pub(crate) fn first_place() -> (place: Place)
    ensures
        place.index == 0,
        place.offset == 0,
        forall|text: Seq<char>| is_place(place, text),
{
    assert forall|text: Seq<char>| offset_of(text, 0) == 0 by {
        assert(text.take(0) =~= Seq::<char>::empty());
    }
    Place { index: 0, offset: 0 }
}

/// The piece of `s` between two of its places, `from` and `to`, as a slice of
/// `s`.
pub(crate) fn slice<'a>(s: &'a str, from: Place, to: Place) -> (piece: &'a str)
    requires
        is_place(from, s@),
        is_place(to, s@),
        from.index <= to.index,
    ensures
        piece@ == s@.subrange(from.index as int, to.index as int),
{
    proof {
        lemma_place_is_boundary(s@, to.index as int);
        lemma_bytes_around_place(s@, to.index as int);
    }
    let (head, _) = s.split_at(to.offset);
    proof {
        lemma_same_bytes_same_text(head@, s@.take(to.index as int));
        assert(head@.take(from.index as int) =~= s@.take(from.index as int));
        lemma_place_is_boundary(head@, from.index as int);
        lemma_bytes_around_place(head@, from.index as int);
    }
    let (_, piece) = head.split_at(from.offset);
    proof {
        lemma_same_bytes_same_text(piece@, head@.skip(from.index as int));
        assert(head@.skip(from.index as int) =~= s@.subrange(from.index as int, to.index as int));
    }
    piece
}

} // verus!
