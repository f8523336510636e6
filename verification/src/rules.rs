//! The rules of several lists, joined into one list.

use vstd::prelude::*;

verus! {

/// The lines of all the lists, list after list.
pub open spec fn joined(lists: Seq<Vec<String>>) -> Seq<String>
    decreases lists.len(),
{
    if lists.len() == 0 {
        Seq::empty()
    } else {
        joined(lists.drop_last()) + lists.last()@
    }
}

/// Joins the rules of `lists` into one list: the lists in their order, and
/// the rules of each list in theirs.
pub fn rules_from_lists(lists: Vec<Vec<String>>) -> (rules: Vec<String>)
    ensures
        rules@ == joined(lists@),
{
    let mut lists = lists;
    let ghost given = lists@;
    let mut rules: Vec<String> = Vec::new();
    let mut i: usize = 0;
    proof {
        assert(given.take(0) =~= Seq::<Vec<String>>::empty());
    }
    while i < lists.len()
        invariant
            i <= lists@.len(),
            lists@.len() == given.len(),
            forall|j: int| i <= j < given.len() ==> lists@[j] == given[j],
            rules@ == joined(given.take(i as int)),
        decreases lists@.len() - i,
    {
        proof {
            assert(given.take(i + 1).drop_last() =~= given.take(i as int));
        }
        rules.append(&mut lists[i]);
        i = i + 1;
    }
    proof {
        assert(given.take(i as int) =~= given);
    }
    rules
}

} // verus!
