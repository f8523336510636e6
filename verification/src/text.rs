//! Helpers on the text of a rule.

use crate::encoding::{lemma_encoded_prefix, lemma_prefix_encodes_prefix};
use vstd::prelude::*;
use vstd::std_specs::iter::IteratorSpec;
use vstd::string::*;
use vstd::utf8::*;

verus! {

/// The text that `text` holds from the byte offset `start` of its encoding
/// on; `start` is to be the offset of a character, or the length of the
/// encoding.
pub open spec fn text_from(text: Seq<char>, start: int) -> Seq<char> {
    decode_utf8(encode_utf8(text).skip(start))
}

/// Tells whether `haystack` begins with `needle`.
pub fn fast_starts_with(haystack: &str, needle: &str) -> (found: bool)
    ensures
        found == needle@.is_prefix_of(haystack@),
{
    let hay = haystack.as_bytes();
    let prefix = needle.as_bytes();
    proof {
        if needle@.is_prefix_of(haystack@) {
            lemma_prefix_encodes_prefix(needle@, haystack@);
        }
    }
    if prefix.len() > hay.len() {
        return false;
    }
    let mut i: usize = 0;
    while i < prefix.len()
        invariant
            i <= prefix@.len() <= hay@.len(),
            hay@ == encode_utf8(haystack@),
            prefix@ == encode_utf8(needle@),
            needle@.is_prefix_of(haystack@) ==> prefix@.is_prefix_of(hay@),
            forall|j: int| 0 <= j < i ==> hay@[j] == prefix@[j],
        decreases prefix@.len() - i,
    {
        if hay[i] != prefix[i] {
            assert(prefix@[i as int] != hay@.subrange(0, prefix@.len() as int)[i as int]);
            return false;
        }
        i = i + 1;
    }
    proof {
        assert(prefix@ =~= hay@.subrange(0, prefix@.len() as int));
        lemma_encoded_prefix(needle@, haystack@);
    }
    true
}

/// Tells whether `haystack` holds `needle` at the byte offset `start`, which
/// is the offset of a character of `haystack` or the length of its encoding.
pub fn fast_starts_with_from(haystack: &str, needle: &str, start: usize) -> (found: bool)
    requires
        is_char_boundary(encode_utf8(haystack@), start as int),
    ensures
        found == needle@.is_prefix_of(text_from(haystack@, start as int)),
{
    let (_, tail) = haystack.split_at(start);
    proof {
        assert(tail.spec_bytes() =~= encode_utf8(haystack@).skip(start as int));
        encode_utf8_decode_utf8(tail@);
    }
    fast_starts_with(tail, needle)
}

/// No character lies below the first one.
proof fn lemma_char_range(c: char)
    ensures
        '\0' <= c,
{
}

/// Tells whether `pattern` holds a character outside ASCII.
pub fn has_unicode(pattern: &str) -> (found: bool)
    ensures
        found == !is_ascii_chars(pattern@),
{
    let mut chars = pattern.chars();
    let ghost mut seen: int = 0;
    loop
        invariant
            0 <= seen <= pattern@.len(),
            chars.obeys_prophetic_iter_laws(),
            chars.remaining() == pattern@.skip(seen),
            forall|i: int| 0 <= i < seen ==> pattern@[i] <= '\u{7f}',
        decreases pattern@.len() - seen,
    {
        match chars.next() {
            Some(c) => {
                if c > '\u{7f}' {
                    return true;
                }
                proof {
                    seen = seen + 1;
                }
            },
            None => {
                assert(pattern@.skip(seen).len() == 0);
                assert forall|i: int| 0 <= i < pattern@.len() implies '\0' <= #[trigger] pattern@[i]
                    <= '\u{7f}' by {
                    lemma_char_range(pattern@[i]);
                }
                return false;
            },
        }
    }
}

} // verus!
