//! Fuzzy signatures: the tokens of a pattern without their order and
//! without repetitions.

use crate::alphabet::Alphabet;
use crate::lookup::ascending;
use crate::tokenizer::{fast_tokenizer, scanned_tokens, Variant};
use vstd::prelude::*;
use vstd::seq_lib::*;

verus! {

/// Whether each element of `s` is smaller than the next: `s` is in
/// ascending order and holds nothing twice.
pub open spec fn strictly_ascending(s: Seq<u32>) -> bool {
    forall|i: int, j: int| 0 <= i < j < s.len() ==> s[i] < s[j]
}

/// Whether `a` and `b` hold the same tokens, in whatever order and number.
pub open spec fn same_tokens(a: Seq<u32>, b: Seq<u32>) -> bool {
    forall|t: u32| a.contains(t) <==> b.contains(t)
}

/// Whether `signature` is the fuzzy signature of `tokens`: the same tokens,
/// each once, in ascending order.
pub open spec fn is_signature_of(signature: Seq<u32>, tokens: Seq<u32>) -> bool {
    strictly_ascending(signature) && same_tokens(signature, tokens)
}

/// Merges two ascending sequences of tokens into one.
fn merge_tokens(left: &Vec<u32>, right: &Vec<u32>) -> (merged: Vec<u32>)
    requires
        ascending(left@),
        ascending(right@),
    ensures
        ascending(merged@),
        merged@.to_multiset() == left@.to_multiset().add(right@.to_multiset()),
{
    let mut merged: Vec<u32> = Vec::new();
    let mut i: usize = 0;
    let mut j: usize = 0;
    proof {
        assert(merged@ =~= left@.take(0) + right@.take(0));
        lemma_multiset_commutative(left@.take(0), right@.take(0));
    }
    while i < left.len() || j < right.len()
        invariant
            i <= left@.len(),
            j <= right@.len(),
            ascending(left@),
            ascending(right@),
            ascending(merged@),
            merged@.to_multiset() == left@.take(i as int).to_multiset().add(
                right@.take(j as int).to_multiset(),
            ),
            forall|a: int, b: int|
                0 <= a < merged@.len() && i <= b < left@.len() ==> merged@[a] <= left@[b],
            forall|a: int, b: int|
                0 <= a < merged@.len() && j <= b < right@.len() ==> merged@[a] <= right@[b],
        decreases left@.len() - i + right@.len() - j,
    {
        let ghost before = merged@;
        let from_left: bool = j >= right.len() || (i < left.len() && left[i] <= right[j]);
        if from_left {
            let token: u32 = left[i];
            proof {
                assert(left@.take(i + 1) =~= left@.take(i as int).push(token));
                to_multiset_build(left@.take(i as int), token);
                to_multiset_build(before, token);
                assert(before.push(token).to_multiset() =~= left@.take(i + 1).to_multiset().add(
                    right@.take(j as int).to_multiset(),
                ));
            }
            merged.push(token);
            i = i + 1;
        } else {
            let token: u32 = right[j];
            proof {
                assert(right@.take(j + 1) =~= right@.take(j as int).push(token));
                to_multiset_build(right@.take(j as int), token);
                to_multiset_build(before, token);
                assert(before.push(token).to_multiset() =~= left@.take(i as int).to_multiset().add(
                    right@.take(j + 1).to_multiset(),
                ));
            }
            merged.push(token);
            j = j + 1;
        }
    }
    proof {
        assert(left@.take(i as int) =~= left@);
        assert(right@.take(j as int) =~= right@);
    }
    merged
}

/// The tokens of `tokens` from index `from` up to index `to`, in ascending
/// order: the two halves of the range are sorted and then merged.
fn sort_range(tokens: &Vec<u32>, from: usize, to: usize) -> (sorted: Vec<u32>)
    requires
        from <= to <= tokens@.len(),
    ensures
        ascending(sorted@),
        sorted@.to_multiset() == tokens@.subrange(from as int, to as int).to_multiset(),
    decreases to - from,
{
    if to - from <= 1 {
        let mut sorted: Vec<u32> = Vec::new();
        if from < to {
            sorted.push(tokens[from]);
        }
        proof {
            assert(sorted@ =~= tokens@.subrange(from as int, to as int));
        }
        sorted
    } else {
        let middle: usize = from + (to - from) / 2;
        let left = sort_range(tokens, from, middle);
        let right = sort_range(tokens, middle, to);
        proof {
            let lower = tokens@.subrange(from as int, middle as int);
            let upper = tokens@.subrange(middle as int, to as int);
            assert(tokens@.subrange(from as int, to as int) =~= lower + upper);
            lemma_multiset_commutative(lower, upper);
        }
        merge_tokens(&left, &right)
    }
}

/// Puts `tokens` in ascending order.
fn sort_tokens(tokens: &mut Vec<u32>)
    ensures
        ascending(final(tokens)@),
        final(tokens)@.to_multiset() == old(tokens)@.to_multiset(),
{
    let sorted = sort_range(tokens, 0, tokens.len());
    proof {
        assert(tokens@.subrange(0, tokens@.len() as int) =~= tokens@);
    }
    *tokens = sorted;
}

/// Takes out of the ascending `tokens` every token that repeats the one
/// before it.
fn dedup_tokens(tokens: &mut Vec<u32>)
    requires
        ascending(old(tokens)@),
    ensures
        is_signature_of(final(tokens)@, old(tokens)@),
{
    let mut kept: Vec<u32> = Vec::new();
    let mut i: usize = 0;
    while i < tokens.len()
        invariant
            i <= tokens@.len(),
            ascending(tokens@),
            strictly_ascending(kept@),
            same_tokens(kept@, tokens@.take(i as int)),
            i > 0 ==> kept@.len() > 0 && kept@.last() == tokens@[i - 1],
            i == 0 ==> kept@.len() == 0,
        decreases tokens@.len() - i,
    {
        let token: u32 = tokens[i];
        let ghost before = kept@;
        let ghost seen = tokens@.take(i as int);
        let repeats: bool = i > 0 && tokens[i - 1] == token;
        if !repeats {
            kept.push(token);
        }
        proof {
            let next = tokens@.take(i + 1);
            assert(next =~= seen.push(token));
            assert forall|t: u32| kept@.contains(t) <==> next.contains(t) by {
                if kept@.contains(t) {
                    let at = choose|at: int| 0 <= at < kept@.len() && kept@[at] == t;
                    if at < before.len() {
                        assert(before[at] == t);
                        assert(before.contains(t));
                        assert(seen.contains(t));
                        let src = choose|src: int| 0 <= src < seen.len() && seen[src] == t;
                        assert(next[src] == t);
                    } else {
                        assert(next[i as int] == t);
                    }
                }
                if next.contains(t) {
                    let src = choose|src: int| 0 <= src < next.len() && next[src] == t;
                    if src < i {
                        assert(seen[src] == t);
                        assert(seen.contains(t));
                        assert(before.contains(t));
                        let at = choose|at: int| 0 <= at < before.len() && before[at] == t;
                        assert(kept@[at] == t);
                    } else if repeats {
                        assert(before.last() == t);
                        assert(kept@[before.len() - 1] == t);
                    } else {
                        assert(kept@[kept@.len() - 1] == t);
                    }
                }
            }
            if !repeats && i > 0 {
                assert(tokens@[i - 1] <= tokens@[i as int]);
            }
        }
        i = i + 1;
    }
    proof {
        assert(tokens@.take(i as int) =~= tokens@);
    }
    *tokens = kept;
}

/// Turns `tokens` into their fuzzy signature: sorts them and drops the
/// repetitions.
pub fn compact_tokens(tokens: &mut Vec<u32>)
    ensures
        is_signature_of(final(tokens)@, old(tokens)@),
{
    let ghost given = tokens@;
    sort_tokens(tokens);
    let ghost sorted = tokens@;
    dedup_tokens(tokens);
    proof {
        assert forall|t: u32| sorted.contains(t) <==> given.contains(t) by {
            to_multiset_contains(sorted, t);
            to_multiset_contains(given, t);
        }
    }
}

/// The fuzzy signature of `pattern`: the tokens of the basic scan over the
/// filter alphabet, each once, in ascending order.
pub fn create_fuzzy_signature(pattern: &str) -> (signature: Vec<u32>)
    ensures
        is_signature_of(signature@, scanned_tokens(Alphabet::Filter, Variant::Basic, pattern@)),
{
    let mut tokens = fast_tokenizer(pattern, Alphabet::Filter);
    compact_tokens(&mut tokens);
    tokens
}

/// Tokens have one signature only.
pub proof fn lemma_signature_unique(first: Seq<u32>, second: Seq<u32>, tokens: Seq<u32>)
    requires
        is_signature_of(first, tokens),
        is_signature_of(second, tokens),
    ensures
        first == second,
{
    lemma_signatures_agree(first, second);
}

/// Two sequences that hold the same tokens have the same signature: the
/// signature does not depend on the order of the tokens, nor on how often
/// each of them occurs.
pub proof fn lemma_signature_ignores_order(
    first: Seq<u32>,
    second: Seq<u32>,
    tokens: Seq<u32>,
    others: Seq<u32>,
)
    requires
        same_tokens(tokens, others),
        is_signature_of(first, tokens),
        is_signature_of(second, others),
    ensures
        first == second,
{
    lemma_signatures_agree(first, second);
}

/// Two patterns whose basic scans give the same tokens, in whatever order
/// and number, have the same fuzzy signature.
pub proof fn lemma_signature_of_reordered_pattern(
    pattern: Seq<char>,
    reordered: Seq<char>,
    first: Seq<u32>,
    second: Seq<u32>,
)
    requires
        same_tokens(
            scanned_tokens(Alphabet::Filter, Variant::Basic, pattern),
            scanned_tokens(Alphabet::Filter, Variant::Basic, reordered),
        ),
        is_signature_of(first, scanned_tokens(Alphabet::Filter, Variant::Basic, pattern)),
        is_signature_of(second, scanned_tokens(Alphabet::Filter, Variant::Basic, reordered)),
    ensures
        first == second,
{
    lemma_signatures_agree(first, second);
}

/// A signature is its own signature: to compact it again changes nothing.
pub proof fn lemma_signature_idempotent(signature: Seq<u32>, again: Seq<u32>, tokens: Seq<u32>)
    requires
        is_signature_of(signature, tokens),
        is_signature_of(again, signature),
    ensures
        again == signature,
{
    lemma_signatures_agree(again, signature);
}

/// Two strictly ascending sequences of the same tokens are equal.
proof fn lemma_signatures_agree(a: Seq<u32>, b: Seq<u32>)
    requires
        strictly_ascending(a),
        strictly_ascending(b),
        same_tokens(a, b),
    ensures
        a == b,
    decreases a.len(),
{
    if a.len() == 0 {
        if b.len() > 0 {
            assert(b.contains(b[0]));
            assert(a.contains(b[0]));
        }
        assert(a =~= b);
    } else {
        assert(a.contains(a.last()));
        assert(b.contains(a.last()));
        assert(b.len() > 0);
        assert(b.contains(b.last()));
        assert(a.contains(b.last()));
        let ia = choose|i: int| 0 <= i < a.len() && a[i] == b.last();
        let ib = choose|i: int| 0 <= i < b.len() && b[i] == a.last();
        assert(a[ia] <= a.last());
        assert(b[ib] <= b.last());
        assert(a.last() == b.last());
        let a0 = a.drop_last();
        let b0 = b.drop_last();
        assert forall|t: u32| a0.contains(t) <==> b0.contains(t) by {
            if a0.contains(t) {
                let i = choose|i: int| 0 <= i < a0.len() && a0[i] == t;
                assert(a[i] == t);
                assert(a.contains(t));
                assert(a[i] < a.last());
                let j = choose|j: int| 0 <= j < b.len() && b[j] == t;
                assert(j < b.len() - 1);
                assert(b0[j] == t);
            }
            if b0.contains(t) {
                let i = choose|i: int| 0 <= i < b0.len() && b0[i] == t;
                assert(b[i] == t);
                assert(b.contains(t));
                assert(b[i] < b.last());
                let j = choose|j: int| 0 <= j < a.len() && a[j] == t;
                assert(j < a.len() - 1);
                assert(a0[j] == t);
            }
        }
        assert(strictly_ascending(a0)) by {
            assert forall|i: int, j: int| 0 <= i < j < a0.len() implies a0[i] < a0[j] by {
                assert(a[i] < a[j]);
            }
        }
        assert(strictly_ascending(b0)) by {
            assert forall|i: int, j: int| 0 <= i < j < b0.len() implies b0[i] < b0[j] by {
                assert(b[i] < b[j]);
            }
        }
        lemma_signatures_agree(a0, b0);
        assert(a =~= a0.push(a.last()));
        assert(b =~= b0.push(b.last()));
    }
}

} // verus!
