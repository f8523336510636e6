//! Tokenization and fingerprinting primitives for a content-filtering rule
//! engine: bit-flag helpers over a 32-bit word, lookup in ascending
//! sequences, a character-class tokenizer, and fuzzy signatures.
//!
//! Every function is verified against its contract. A pattern is modelled as
//! its sequence of characters, a token as a 32-bit number, and the result of
//! a scan as a function of the pattern (`tokenizer::scanned_tokens`).
//!
//! Two things are taken on trust, each under a name of its own: the hash of
//! a fragment of text (`hash::xx_hash32`, computed by `fasthash`), and the
//! Unicode classification of a character (`alphabet::alphanumeric`, computed
//! by the standard library). The contracts say what the functions do with
//! these values, not what the values are.

pub mod alphabet;
pub mod bits;
pub mod encoding;
pub mod hash;
pub mod lookup;
pub mod rules;
pub mod signature;
pub mod text;
pub mod tokenizer;

pub use alphabet::{is_allowed_filter, is_allowed_hostname, Alphabet};
pub use bits::{bit_count, clear_bit, get_bit, set_bit};
pub use hash::fast_hash;
pub use lookup::{bin_lookup, bin_search};
pub use rules::rules_from_lists;
pub use signature::{compact_tokens, create_fuzzy_signature};
pub use text::{fast_starts_with, fast_starts_with_from, has_unicode};
pub use tokenizer::{
    fast_tokenizer, fast_tokenizer_no_regex, keeps_token, tokenize, tokenize_filter,
    tokenize_hostnames, TOKENS_BUFFER_SIZE,
};
