//! The hash that turns a fragment of text into a token.

use vstd::prelude::*;

verus! {

/// A token: the 32-bit hash of a fragment of text.
pub type Hash = u32;

/// The 32-bit xxHash, with seed 0, of the UTF-8 encoding of `text`.
pub uninterp spec fn xx_hash32(text: Seq<char>) -> u32;

/// Hashes `input` by a call of `fasthash::xx::hash32`, which hands the bytes
/// of the string to the C implementation of XXH32 with seed 0.
///
/// Assumed, not proved: the result depends on the characters of `input`
/// alone, so that it is the value that `xx_hash32` names.
#[verifier::external_body]
pub fn fast_hash(input: &str) -> (hash: Hash)
    ensures
        hash == xx_hash32(input@),
{
    fasthash::xx::hash32(input)
}

} // verus!
