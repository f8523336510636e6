//! The tokenizer: a scan that turns the runs of alphabet characters of a
//! pattern into the hashes of their text.
//!
//! A run is a maximal stretch of characters of the alphabet. The basic scan
//! emits a token for every run. The suppressing scan leaves out the runs of a
//! single byte, the runs that touch a `*`, and on request the run at the very
//! start or at the very end of the pattern. Either scan stops after
//! `TOKENS_BUFFER_SIZE` tokens.

use crate::alphabet::Alphabet;
use crate::encoding::{
    byte_offset, char_width, lemma_offset_span, lemma_offset_step, lemma_offset_zero,
    slice_between, utf8_len,
};
use crate::hash::{fast_hash, xx_hash32};
use vstd::prelude::*;
use vstd::std_specs::iter::IteratorSpec;

verus! {

/// The number of tokens after which a scan stops.
pub const TOKENS_BUFFER_SIZE: usize = 200;

/// Whether a run starts at index `i` of `text`: the character there belongs
/// to the alphabet and the one before it, if there is one, does not.
pub open spec fn starts_run(alphabet: Alphabet, text: Seq<char>, i: int) -> bool {
    &&& 0 <= i < text.len()
    &&& alphabet.admits(text[i])
    &&& (i == 0 || !alphabet.admits(text[i - 1]))
}

/// The end of the run that covers index `i`: the first index from `i` on
/// whose character is outside the alphabet, or the length of `text`.
pub open spec fn run_end(alphabet: Alphabet, text: Seq<char>, i: int) -> int
    decreases text.len() - i,
{
    if 0 <= i < text.len() && alphabet.admits(text[i]) {
        run_end(alphabet, text, i + 1)
    } else {
        i
    }
}

/// The character just before index `i` of `text`, if there is one.
pub open spec fn char_before(text: Seq<char>, i: int) -> Option<char> {
    if 0 < i <= text.len() {
        Some(text[i - 1])
    } else {
        None
    }
}

/// The character at index `i` of `text`, if there is one.
pub open spec fn char_at(text: Seq<char>, i: int) -> Option<char> {
    if 0 <= i < text.len() {
        Some(text[i])
    } else {
        None
    }
}

/// The rule of the suppressing scan, for a run of `bytes` bytes that stands
/// between the characters `before` and `after`, where `None` is the start or
/// the end of the text. The run gives a token if it has more than one byte,
/// no `*` stands next to it, and it is not left out for its place: a run
/// that ends at the end of the text is left out when `skip_last` is set, any
/// other run that starts at the start of the text when `skip_first` is set.
pub open spec fn survives(
    bytes: int,
    before: Option<char>,
    after: Option<char>,
    at_start: bool,
    skip_first: bool,
    skip_last: bool,
) -> bool {
    &&& bytes > 1
    &&& before != Some('*')
    &&& match after {
        Some(c) => c != '*' && !(skip_first && at_start),
        None => !skip_last,
    }
}

/// The two kinds of scan.
pub enum Variant {
    /// Every run gives a token.
    Basic,
    /// A run gives a token if it survives the rule of suppression.
    Suppressing { skip_first: bool, skip_last: bool },
}

impl Variant {
    /// Whether the run of `text` from `start` to `end` gives a token.
    pub open spec fn emits(self, text: Seq<char>, start: int, end: int) -> bool {
        match self {
            Variant::Basic => true,
            Variant::Suppressing { skip_first, skip_last } => survives(
                utf8_len(text.subrange(start, end)) as int,
                char_before(text, start),
                char_at(text, end),
                start == 0,
                skip_first,
                skip_last,
            ),
        }
    }
}

/// The suppressing scan with its two flags.
pub open spec fn suppressing(skip_first: bool, skip_last: bool) -> Variant {
    Variant::Suppressing { skip_first, skip_last }
}

/// The hashes of the runs of `text` that start at index `i` or later and
/// that `variant` emits, in the order of the runs.
pub open spec fn tokens_from(
    alphabet: Alphabet,
    variant: Variant,
    text: Seq<char>,
    i: int,
) -> Seq<u32>
    decreases text.len() - i,
{
    if i < 0 || i >= text.len() {
        Seq::empty()
    } else if starts_run(alphabet, text, i) && variant.emits(
        text,
        i,
        run_end(alphabet, text, i),
    ) {
        seq![xx_hash32(text.subrange(i, run_end(alphabet, text, i)))] + tokens_from(
            alphabet,
            variant,
            text,
            i + 1,
        )
    } else {
        tokens_from(alphabet, variant, text, i + 1)
    }
}

/// The first `TOKENS_BUFFER_SIZE` of `all`, or all of them if they are fewer.
pub open spec fn capped(all: Seq<u32>) -> Seq<u32> {
    if all.len() <= TOKENS_BUFFER_SIZE {
        all
    } else {
        all.take(TOKENS_BUFFER_SIZE as int)
    }
}

/// The tokens of `text`: the hashes of the runs that `variant` emits, in
/// order, cut off after `TOKENS_BUFFER_SIZE`.
pub open spec fn scanned_tokens(alphabet: Alphabet, variant: Variant, text: Seq<char>) -> Seq<
    u32,
> {
    capped(tokens_from(alphabet, variant, text, 0))
}

/// A stretch of alphabet characters that stops at `j` is a run up to `j`.
proof fn lemma_run_end(alphabet: Alphabet, text: Seq<char>, i: int, j: int)
    requires
        0 <= i <= j <= text.len(),
        forall|t: int| i <= t < j ==> alphabet.admits(#[trigger] text[t]),
        j < text.len() ==> !alphabet.admits(text[j]),
    ensures
        run_end(alphabet, text, i) == j,
    decreases j - i,
{
    if i < j {
        lemma_run_end(alphabet, text, i + 1, j);
    }
}

/// Where no run starts, no token comes from.
proof fn lemma_tokens_skip(alphabet: Alphabet, variant: Variant, text: Seq<char>, i: int, j: int)
    requires
        0 <= i <= j <= text.len(),
        forall|t: int| i <= t < j ==> !#[trigger] starts_run(alphabet, text, t),
    ensures
        tokens_from(alphabet, variant, text, i) == tokens_from(alphabet, variant, text, j),
    decreases j - i,
{
    if i < j {
        lemma_tokens_skip(alphabet, variant, text, i + 1, j);
    }
}

/// The index at which a scan goes on after the run that ends at `end`.
pub open spec fn after_run(text: Seq<char>, end: int) -> int {
    if end < text.len() {
        end + 1
    } else {
        end
    }
}

/// What the run from `begin` to `end` adds to the tokens: its hash if the
/// variant emits it, and then the tokens of what follows the run.
proof fn lemma_close_run(
    alphabet: Alphabet,
    variant: Variant,
    text: Seq<char>,
    begin: int,
    end: int,
)
    requires
        starts_run(alphabet, text, begin),
        begin < end <= text.len(),
        forall|t: int| begin <= t < end ==> alphabet.admits(#[trigger] text[t]),
        end < text.len() ==> !alphabet.admits(text[end]),
    ensures
        run_end(alphabet, text, begin) == end,
        variant.emits(text, begin, end) ==> tokens_from(alphabet, variant, text, begin) == seq![
            xx_hash32(text.subrange(begin, end)),
        ] + tokens_from(alphabet, variant, text, after_run(text, end)),
        !variant.emits(text, begin, end) ==> tokens_from(alphabet, variant, text, begin)
            == tokens_from(alphabet, variant, text, after_run(text, end)),
{
    lemma_run_end(alphabet, text, begin, end);
    let next = after_run(text, end);
    assert forall|t: int| begin + 1 <= t < next implies !#[trigger] starts_run(
        alphabet,
        text,
        t,
    ) by {
        if t < end {
            assert(alphabet.admits(text[t - 1]));
        }
    }
    lemma_tokens_skip(alphabet, variant, text, begin + 1, next);
}

/// What a scan has emitted when it stops is the capped sequence of all
/// tokens: either nothing is left to emit, or the buffer is full.
proof fn lemma_capped_prefix(all: Seq<u32>, emitted: Seq<u32>, rest: Seq<u32>)
    requires
        emitted + rest == all,
        emitted.len() <= TOKENS_BUFFER_SIZE,
        rest.len() == 0 || emitted.len() == TOKENS_BUFFER_SIZE,
    ensures
        emitted == capped(all),
{
    if rest.len() == 0 {
        assert(emitted =~= all);
    } else {
        assert(emitted =~= all.take(TOKENS_BUFFER_SIZE as int));
    }
}

/// Decides whether the suppressing scan emits the run between the byte
/// offsets `start` and `end`, which stands between the characters `before`
/// and `after`; `None` is the start or the end of the pattern.
pub fn keeps_token(
    start: usize,
    end: usize,
    before: Option<char>,
    after: Option<char>,
    skip_first_token: bool,
    skip_last_token: bool,
) -> (kept: bool)
    ensures
        kept == survives(
            end - start,
            before,
            after,
            start == 0,
            skip_first_token,
            skip_last_token,
        ),
{
    let long_enough: bool = end > start && end - start > 1;
    let clear_before: bool = before.is_none() || before.unwrap() != '*';
    let clear_after: bool = match after {
        Some(c) => c != '*' && (!skip_first_token || start != 0),
        None => !skip_last_token,
    };
    long_enough && clear_before && clear_after
}

/// Scans `pattern` for the runs of `alphabet` and returns the hash of every
/// run, in order, up to `TOKENS_BUFFER_SIZE` of them.
pub fn fast_tokenizer(pattern: &str, alphabet: Alphabet) -> (tokens: Vec<u32>)
    ensures
        tokens@ == scanned_tokens(alphabet, Variant::Basic, pattern@),
        tokens@.len() <= TOKENS_BUFFER_SIZE,
{
    let ghost text = pattern@;
    let ghost variant = Variant::Basic;
    let total: usize = pattern.as_bytes().len();
    let mut tokens: Vec<u32> = Vec::new();
    let mut inside: bool = false;
    let mut start: usize = 0;
    let mut chars = pattern.chars();
    let mut pos: usize = 0;
    let ghost mut k: int = 0;
    let ghost mut begin: int = 0;
    proof {
        lemma_offset_zero(text, 0);
        lemma_offset_span(text, 0, text.len() as int);
        assert(text.take(text.len() as int) =~= text);
    }
    loop
        invariant_except_break
            chars.remaining() == text.skip(k),
        invariant
            text == pattern@,
            variant == Variant::Basic,
            total == utf8_len(text),
            0 <= k <= text.len(),
            pos == byte_offset(text, k),
            inside ==> {
                &&& 0 <= begin < k
                &&& start == byte_offset(text, begin)
                &&& starts_run(alphabet, text, begin)
                &&& forall|t: int| begin <= t < k ==> alphabet.admits(#[trigger] text[t])
            },
            !inside ==> (k == 0 || !alphabet.admits(text[k - 1])),
            tokens@ + tokens_from(alphabet, variant, text, if inside { begin } else { k })
                == tokens_from(alphabet, variant, text, 0),
            tokens@.len() <= TOKENS_BUFFER_SIZE,
            tokens@.len() == TOKENS_BUFFER_SIZE ==> !inside,
        ensures
            k == text.len() || tokens@.len() == TOKENS_BUFFER_SIZE,
        decreases text.len() - k,
    {
        match chars.next() {
            None => {
                assert(text.skip(k).len() == 0);
                break ;
            },
            Some(c) => {
                if tokens.len() >= TOKENS_BUFFER_SIZE {
                    break ;
                }
                assert(c == text[k]);
                let width: usize = char_width(c);
                proof {
                    lemma_offset_step(text, k);
                }
                if alphabet.allows(c) {
                    if !inside {
                        inside = true;
                        start = pos;
                        proof {
                            begin = k;
                        }
                    }
                } else if inside {
                    inside = false;
                    proof {
                        lemma_close_run(alphabet, variant, text, begin, k);
                    }
                    let token: u32 = fast_hash(
                        slice_between(pattern, start, pos, Ghost(begin), Ghost(k)),
                    );
                    tokens.push(token);
                    assert(tokens@ + tokens_from(alphabet, variant, text, k + 1) =~= tokens_from(
                        alphabet,
                        variant,
                        text,
                        0,
                    ));
                }
                pos = pos + width;
                proof {
                    k = k + 1;
                }
            },
        }
    }
    if inside {
        proof {
            lemma_close_run(alphabet, variant, text, begin, k);
        }
        let token: u32 = fast_hash(slice_between(pattern, start, total, Ghost(begin), Ghost(k)));
        tokens.push(token);
        assert(tokens@ + tokens_from(alphabet, variant, text, k) =~= tokens_from(
            alphabet,
            variant,
            text,
            0,
        ));
    }
    proof {
        lemma_capped_prefix(
            tokens_from(alphabet, variant, text, 0),
            tokens@,
            tokens_from(alphabet, variant, text, k),
        );
    }
    tokens
}

/// Scans `pattern` for the runs of `alphabet` and returns the hashes of
/// those that the suppressing scan emits, in order, up to
/// `TOKENS_BUFFER_SIZE` of them.
pub fn fast_tokenizer_no_regex(
    pattern: &str,
    alphabet: Alphabet,
    skip_first_token: bool,
    skip_last_token: bool,
) -> (tokens: Vec<u32>)
    ensures
        tokens@ == scanned_tokens(
            alphabet,
            suppressing(skip_first_token, skip_last_token),
            pattern@,
        ),
        tokens@.len() <= TOKENS_BUFFER_SIZE,
{
    let ghost text = pattern@;
    let ghost variant = suppressing(skip_first_token, skip_last_token);
    let total: usize = pattern.as_bytes().len();
    let mut tokens: Vec<u32> = Vec::new();
    let mut inside: bool = false;
    let mut start: usize = 0;
    // The last character outside the alphabet: a token may not follow a `*`.
    let mut preceding_ch: Option<char> = None;
    let mut chars = pattern.chars();
    let mut pos: usize = 0;
    let ghost mut k: int = 0;
    let ghost mut begin: int = 0;
    proof {
        lemma_offset_zero(text, 0);
        lemma_offset_span(text, 0, text.len() as int);
        assert(text.take(text.len() as int) =~= text);
    }
    loop
        invariant_except_break
            chars.remaining() == text.skip(k),
        invariant
            text == pattern@,
            variant == suppressing(skip_first_token, skip_last_token),
            total == utf8_len(text),
            0 <= k <= text.len(),
            pos == byte_offset(text, k),
            inside ==> {
                &&& 0 <= begin < k
                &&& start == byte_offset(text, begin)
                &&& starts_run(alphabet, text, begin)
                &&& forall|t: int| begin <= t < k ==> alphabet.admits(#[trigger] text[t])
            },
            !inside ==> (k == 0 || !alphabet.admits(text[k - 1])),
            preceding_ch == char_before(text, if inside { begin } else { k }),
            tokens@ + tokens_from(alphabet, variant, text, if inside { begin } else { k })
                == tokens_from(alphabet, variant, text, 0),
            tokens@.len() <= TOKENS_BUFFER_SIZE,
            tokens@.len() == TOKENS_BUFFER_SIZE ==> !inside,
        ensures
            k == text.len() || tokens@.len() == TOKENS_BUFFER_SIZE,
        decreases text.len() - k,
    {
        match chars.next() {
            None => {
                assert(text.skip(k).len() == 0);
                break ;
            },
            Some(c) => {
                if tokens.len() >= TOKENS_BUFFER_SIZE {
                    break ;
                }
                assert(c == text[k]);
                let width: usize = char_width(c);
                proof {
                    lemma_offset_step(text, k);
                }
                if alphabet.allows(c) {
                    if !inside {
                        inside = true;
                        start = pos;
                        proof {
                            begin = k;
                        }
                    }
                } else if inside {
                    inside = false;
                    proof {
                        lemma_close_run(alphabet, variant, text, begin, k);
                        lemma_offset_span(text, begin, k);
                        lemma_offset_zero(text, begin);
                    }
                    if keeps_token(
                        start,
                        pos,
                        preceding_ch,
                        Some(c),
                        skip_first_token,
                        skip_last_token,
                    ) {
                        let token: u32 = fast_hash(
                            slice_between(pattern, start, pos, Ghost(begin), Ghost(k)),
                        );
                        tokens.push(token);
                        assert(tokens@ + tokens_from(alphabet, variant, text, k + 1)
                            =~= tokens_from(alphabet, variant, text, 0));
                    }
                    preceding_ch = Some(c);
                } else {
                    preceding_ch = Some(c);
                }
                pos = pos + width;
                proof {
                    k = k + 1;
                }
            },
        }
    }
    if inside {
        proof {
            lemma_close_run(alphabet, variant, text, begin, k);
            lemma_offset_span(text, begin, k);
            lemma_offset_zero(text, begin);
        }
        if keeps_token(start, total, preceding_ch, None, skip_first_token, skip_last_token) {
            let token: u32 = fast_hash(
                slice_between(pattern, start, total, Ghost(begin), Ghost(k)),
            );
            tokens.push(token);
            assert(tokens@ + tokens_from(alphabet, variant, text, k) =~= tokens_from(
                alphabet,
                variant,
                text,
                0,
            ));
        }
    }
    proof {
        lemma_capped_prefix(
            tokens_from(alphabet, variant, text, 0),
            tokens@,
            tokens_from(alphabet, variant, text, k),
        );
    }
    tokens
}

/// The tokens of a filter pattern: the suppressing scan over the filter
/// alphabet, with the first and the last run kept.
pub fn tokenize(pattern: &str) -> (tokens: Vec<u32>)
    ensures
        tokens@ == scanned_tokens(Alphabet::Filter, suppressing(false, false), pattern@),
        tokens@.len() <= TOKENS_BUFFER_SIZE,
{
    fast_tokenizer_no_regex(pattern, Alphabet::Filter, false, false)
}

/// The tokens of a filter pattern: the suppressing scan over the filter
/// alphabet, which on request leaves out the run at the start or at the end
/// of the pattern.
pub fn tokenize_filter(pattern: &str, skip_first_token: bool, skip_last_token: bool) -> (tokens:
    Vec<u32>)
    ensures
        tokens@ == scanned_tokens(
            Alphabet::Filter,
            suppressing(skip_first_token, skip_last_token),
            pattern@,
        ),
        tokens@.len() <= TOKENS_BUFFER_SIZE,
{
    fast_tokenizer_no_regex(pattern, Alphabet::Filter, skip_first_token, skip_last_token)
}

/// The tokens of a hostname: the basic scan over the hostname alphabet.
pub fn tokenize_hostnames(pattern: &str) -> (tokens: Vec<u32>)
    ensures
        tokens@ == scanned_tokens(Alphabet::Hostname, Variant::Basic, pattern@),
        tokens@.len() <= TOKENS_BUFFER_SIZE,
{
    fast_tokenizer(pattern, Alphabet::Hostname)
}

/// A run is a maximal stretch of alphabet characters: from its start to its
/// end every character belongs to the alphabet, and the characters on
/// either side of it, where there are any, do not.
pub proof fn lemma_run_is_maximal(alphabet: Alphabet, text: Seq<char>, start: int)
    requires
        starts_run(alphabet, text, start),
    ensures
        start < run_end(alphabet, text, start) <= text.len(),
        forall|t: int|
            start <= t < run_end(alphabet, text, start) ==> alphabet.admits(#[trigger] text[t]),
        char_before(text, start) matches Some(c) ==> !alphabet.admits(c),
        char_at(text, run_end(alphabet, text, start)) matches Some(c) ==> !alphabet.admits(c),
{
    lemma_run_end_bounds(alphabet, text, start);
}

/// From `i` up to the end of the run that covers `i` all characters belong
/// to the alphabet, and the character at that end does not.
proof fn lemma_run_end_bounds(alphabet: Alphabet, text: Seq<char>, i: int)
    requires
        0 <= i <= text.len(),
    ensures
        i <= run_end(alphabet, text, i) <= text.len(),
        i < text.len() && alphabet.admits(text[i]) ==> i < run_end(alphabet, text, i),
        forall|t: int| i <= t < run_end(alphabet, text, i) ==> alphabet.admits(#[trigger] text[t]),
        run_end(alphabet, text, i) < text.len() ==> !alphabet.admits(
            text[run_end(alphabet, text, i)],
        ),
    decreases text.len() - i,
{
    if i < text.len() && alphabet.admits(text[i]) {
        lemma_run_end_bounds(alphabet, text, i + 1);
    }
}

/// A scan never gives more than `TOKENS_BUFFER_SIZE` tokens.
pub proof fn lemma_scan_is_capped(alphabet: Alphabet, variant: Variant, text: Seq<char>)
    ensures
        scanned_tokens(alphabet, variant, text).len() <= TOKENS_BUFFER_SIZE,
{
}

/// The tokens depend on the text alone: what two scans of one text give is
/// the same.
pub proof fn lemma_scan_is_deterministic(
    alphabet: Alphabet,
    variant: Variant,
    text: Seq<char>,
    first: Seq<u32>,
    second: Seq<u32>,
)
    requires
        first == scanned_tokens(alphabet, variant, text),
        second == scanned_tokens(alphabet, variant, text),
    ensures
        first == second,
{
}

/// A text without a character of the alphabet has no tokens.
pub proof fn lemma_scan_without_runs(alphabet: Alphabet, variant: Variant, text: Seq<char>)
    requires
        forall|i: int| 0 <= i < text.len() ==> !alphabet.admits(#[trigger] text[i]),
    ensures
        scanned_tokens(alphabet, variant, text) == Seq::<u32>::empty(),
{
    lemma_tokens_skip(alphabet, variant, text, 0, text.len() as int);
}

} // verus!
