//! Byte offsets into the UTF-8 encoding of a text.
//!
//! A text is modelled as its sequence of characters, but a scan walks the
//! encoded bytes: the position of a character is the number of bytes that the
//! characters before it take.

use vstd::prelude::*;
use vstd::string::*;
use vstd::utf8::*;

verus! {

/// The number of bytes that `c` takes in UTF-8.
pub open spec fn char_len(c: char) -> nat {
    encode_scalar(c as u32).len()
}

/// The number of bytes that `text` takes in UTF-8.
pub open spec fn utf8_len(text: Seq<char>) -> nat {
    encode_utf8(text).len()
}

/// The byte offset of the character with index `k` in the encoding of
/// `text`; for `k == text.len()`, the length of the encoding.
pub open spec fn byte_offset(text: Seq<char>, k: int) -> nat {
    utf8_len(text.take(k))
}

/// The number of bytes that `c` takes in UTF-8.
pub fn char_width(c: char) -> (width: usize)
    ensures
        width == char_len(c),
        1 <= width <= 4,
{
    let code: u32 = c as u32;
    if code < 0x80 {
        1
    } else if code < 0x800 {
        2
    } else if code < 0x1_0000 {
        3
    } else {
        4
    }
}

/// A character takes between one and four bytes.
pub proof fn lemma_char_len_bounds(c: char)
    ensures
        1 <= char_len(c) <= 4,
{
}

/// The encoding of a concatenation is the concatenation of the encodings.
pub proof fn lemma_encode_concat(a: Seq<char>, b: Seq<char>)
    ensures
        encode_utf8(a + b) == encode_utf8(a) + encode_utf8(b),
    decreases a.len(),
{
    if a.len() == 0 {
        assert(a + b =~= b);
        assert(encode_utf8(a) + encode_utf8(b) =~= encode_utf8(b));
    } else {
        assert((a + b).drop_first() =~= a.drop_first() + b);
        lemma_encode_concat(a.drop_first(), b);
        assert(encode_utf8(a + b) =~= encode_utf8(a) + encode_utf8(b));
    }
}

/// The encoding of a single character.
pub proof fn lemma_encode_single(c: char)
    ensures
        encode_utf8(seq![c]) == encode_scalar(c as u32),
{
    reveal_with_fuel(encode_utf8, 2);
    assert(seq![c].drop_first() =~= Seq::<char>::empty());
    assert(encode_utf8(seq![c]) =~= encode_scalar(c as u32));
}

/// A text takes at least one byte for each of its characters.
pub proof fn lemma_utf8_len_at_least(text: Seq<char>)
    ensures
        utf8_len(text) >= text.len(),
    decreases text.len(),
{
    if text.len() > 0 {
        lemma_char_len_bounds(text[0]);
        lemma_utf8_len_at_least(text.drop_first());
    }
}

/// Between the offsets of two characters lie the bytes of the characters
/// between them.
pub proof fn lemma_offset_span(text: Seq<char>, i: int, j: int)
    requires
        0 <= i <= j <= text.len(),
    ensures
        byte_offset(text, j) == byte_offset(text, i) + utf8_len(text.subrange(i, j)),
        byte_offset(text, j) <= utf8_len(text),
        encode_utf8(text.take(j)) == encode_utf8(text.take(i)) + encode_utf8(text.subrange(i, j)),
        encode_utf8(text) == encode_utf8(text.take(j)) + encode_utf8(text.skip(j)),
{
    assert(text.take(j) =~= text.take(i) + text.subrange(i, j));
    lemma_encode_concat(text.take(i), text.subrange(i, j));
    assert(text =~= text.take(j) + text.skip(j));
    lemma_encode_concat(text.take(j), text.skip(j));
}

/// The offset of the next character lies one character's width further.
pub proof fn lemma_offset_step(text: Seq<char>, k: int)
    requires
        0 <= k < text.len(),
    ensures
        byte_offset(text, k + 1) == byte_offset(text, k) + char_len(text[k]),
        byte_offset(text, k + 1) <= utf8_len(text),
{
    lemma_offset_span(text, k, k + 1);
    assert(text.subrange(k, k + 1) =~= seq![text[k]]);
    lemma_encode_single(text[k]);
}

/// Offsets grow with the index: the first character alone has offset 0.
pub proof fn lemma_offset_zero(text: Seq<char>, k: int)
    requires
        0 <= k <= text.len(),
    ensures
        byte_offset(text, k) == 0 <==> k == 0,
{
    lemma_utf8_len_at_least(text.take(k));
    if k == 0 {
        assert(text.take(0) =~= Seq::<char>::empty());
    }
}

/// The encoding of a text can be cut where the encoding of a prefix ends.
pub proof fn lemma_boundary_after(a: Seq<char>, b: Seq<char>)
    ensures
        is_char_boundary(encode_utf8(a + b), utf8_len(a) as int),
    decreases a.len(),
{
    broadcast use encode_utf8_valid_utf8;

    let bytes = encode_utf8(a + b);
    if a.len() == 0 {
    } else {
        let rest = (a + b).drop_first();
        assert(rest =~= a.drop_first() + b);
        encode_utf8_first_scalar(a + b);
        lemma_char_len_bounds(a[0]);
        assert(pop_first_scalar(bytes) =~= encode_utf8(rest));
        lemma_boundary_after(a.drop_first(), b);
        lemma_encode_concat(a, b);
        assert(utf8_len(a) == char_len(a[0]) + utf8_len(a.drop_first()));
        assert(utf8_len(a) <= bytes.len());
    }
}

/// The encoding of a text can be cut at the offset of any of its characters.
pub proof fn lemma_offset_is_boundary(text: Seq<char>, k: int)
    requires
        0 <= k <= text.len(),
    ensures
        is_char_boundary(encode_utf8(text), byte_offset(text, k) as int),
{
    assert(text =~= text.take(k) + text.skip(k));
    lemma_boundary_after(text.take(k), text.skip(k));
}

/// Two texts with the same encoding are the same text.
pub proof fn lemma_encoding_determines_text(a: Seq<char>, b: Seq<char>)
    requires
        encode_utf8(a) == encode_utf8(b),
    ensures
        a == b,
{
    encode_utf8_decode_utf8(a);
    encode_utf8_decode_utf8(b);
}

/// The encoding of a prefix is a prefix of the encoding.
pub proof fn lemma_prefix_encodes_prefix(a: Seq<char>, b: Seq<char>)
    requires
        a.is_prefix_of(b),
    ensures
        encode_utf8(a).is_prefix_of(encode_utf8(b)),
{
    let rest = b.skip(a.len() as int);
    assert(b =~= a + rest);
    lemma_encode_concat(a, rest);
    assert(encode_utf8(a) =~= encode_utf8(b).subrange(0, encode_utf8(a).len() as int));
}

/// A text whose encoding is a prefix of the encoding of another text is a
/// prefix of that text: no character's bytes begin another character's.
pub proof fn lemma_encoded_prefix(a: Seq<char>, b: Seq<char>)
    requires
        encode_utf8(a).is_prefix_of(encode_utf8(b)),
    ensures
        a.is_prefix_of(b),
    decreases a.len(),
{
    let ea = encode_utf8(a);
    let eb = encode_utf8(b);
    if a.len() == 0 {
        assert(a =~= b.subrange(0, 0));
    } else {
        lemma_char_len_bounds(a[0]);
        assert(ea.len() >= 1);
        assert(ea =~= eb.subrange(0, ea.len() as int));
        assert(b.len() > 0);
        encode_utf8_first_scalar(a);
        encode_utf8_first_scalar(b);
        let width = char_len(a[0]) as int;
        assert(ea[0] == eb[0]);
        assert(char_len(b[0]) == width);
        assert forall|i: int| 0 <= i < width implies ea[i] == eb[i] by {
            assert(ea[i] == eb.subrange(0, ea.len() as int)[i]);
        }
        assert(decode_first_scalar(ea) == decode_first_scalar(eb));
        char_u32_cast(a[0], a[0] as u32);
        char_u32_cast(b[0], b[0] as u32);
        assert(a[0] == b[0]);
        assert(encode_utf8(a.drop_first()) =~= ea.skip(width));
        assert(encode_utf8(b.drop_first()) =~= eb.skip(width));
        assert(ea.skip(width) =~= eb.skip(width).subrange(0, ea.len() - width));
        lemma_encoded_prefix(a.drop_first(), b.drop_first());
        let tail = a.drop_first();
        assert(tail =~= b.drop_first().subrange(0, a.len() - 1));
        assert forall|i: int| 0 <= i < a.len() implies a[i] == b[i] by {
            if i > 0 {
                assert(a[i] == tail[i - 1]);
                assert(tail[i - 1] == b.drop_first().subrange(0, a.len() - 1)[i - 1]);
            }
        }
        assert(a =~= b.subrange(0, a.len() as int));
    }
}

/// The part of `text` between the byte offsets `start` and `end`, which are
/// the offsets of the characters with index `from` and `to`.
pub(crate) fn slice_between<'a>(
    text: &'a str,
    start: usize,
    end: usize,
    Ghost(from): Ghost<int>,
    Ghost(to): Ghost<int>,
) -> (part: &'a str)
    requires
        0 <= from <= to <= text@.len(),
        start == byte_offset(text@, from),
        end == byte_offset(text@, to),
    ensures
        part@ == text@.subrange(from, to),
{
    let ghost s = text@;
    proof {
        lemma_offset_is_boundary(s, to);
    }
    let (head, _) = text.split_at(end);
    proof {
        lemma_offset_span(s, from, to);
        assert(head.spec_bytes() =~= encode_utf8(s.take(to)));
        lemma_encoding_determines_text(head@, s.take(to));
        assert(s.take(to).take(from) =~= s.take(from));
        lemma_offset_is_boundary(s.take(to), from);
    }
    let (_, part) = head.split_at(start);
    proof {
        assert(part.spec_bytes() =~= encode_utf8(s.subrange(from, to)));
        lemma_encoding_determines_text(part@, s.subrange(from, to));
    }
    part
}

} // verus!
