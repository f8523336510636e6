//! Lookup in a sequence of tokens that is held in ascending order.

use vstd::prelude::*;

verus! {

/// Whether `s` is in ascending order; equal neighbours are allowed.
pub open spec fn ascending(s: Seq<u32>) -> bool {
    forall|i: int, j: int| 0 <= i <= j < s.len() ==> s[i] <= s[j]
}

/// What a search for `elt` in `arr` may answer: an index only where `elt`
/// stands, and, if `arr` is ascending, an index whenever `elt` occurs. Which
/// of several equal elements is found is left open.
pub open spec fn search_answer(arr: Seq<u32>, elt: u32, found: Option<usize>) -> bool {
    &&& found matches Some(i) ==> i < arr.len() && arr[i as int] == elt
    &&& ascending(arr) ==> (found is Some <==> arr.contains(elt))
}

/// What a lookup of `elt` in `arr` may answer: yes only if `elt` occurs,
/// and, if `arr` is ascending, yes whenever it occurs.
pub open spec fn lookup_answer(arr: Seq<u32>, elt: u32, found: bool) -> bool {
    &&& found ==> arr.contains(elt)
    &&& ascending(arr) ==> (found <==> arr.contains(elt))
}

/// Searches the ascending `arr` for `elt` by halving the range in which it
/// can stand, and returns an index at which it stands.
pub fn bin_search(arr: &[u32], elt: u32) -> (found: Option<usize>)
    ensures
        search_answer(arr@, elt, found),
{
    let mut low: usize = 0;
    let mut high: usize = arr.len();
    while low < high
        invariant
            low <= high <= arr@.len(),
            ascending(arr@) ==> forall|i: int| 0 <= i < low ==> arr@[i] < elt,
            ascending(arr@) ==> forall|i: int| high <= i < arr@.len() ==> elt < arr@[i],
        decreases high - low,
    {
        let middle: usize = low + (high - low) / 2;
        let probe: u32 = arr[middle];
        if probe == elt {
            return Some(middle);
        } else if probe < elt {
            low = middle + 1;
        } else {
            high = middle;
        }
    }
    None
}

/// Tells whether `elt` occurs in the ascending `arr`.
pub fn bin_lookup(arr: &[u32], elt: u32) -> (found: bool)
    ensures
        lookup_answer(arr@, elt, found),
{
    bin_search(arr, elt).is_some()
}

/// On an ascending sequence a lookup says yes exactly when a search finds
/// an index, whichever index that is.
pub proof fn lemma_lookup_agrees_with_search(
    arr: Seq<u32>,
    elt: u32,
    index: Option<usize>,
    present: bool,
)
    requires
        ascending(arr),
        search_answer(arr, elt, index),
        lookup_answer(arr, elt, present),
    ensures
        present == index.is_some(),
{
}

/// In an empty sequence nothing is found.
pub proof fn lemma_search_in_empty(arr: Seq<u32>, elt: u32, index: Option<usize>)
    requires
        arr.len() == 0,
        search_answer(arr, elt, index),
    ensures
        index is None,
{
}

} // verus!
