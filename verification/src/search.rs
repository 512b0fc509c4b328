//! Finding the first element of a sequence that satisfies a predicate.

use vstd::prelude::*;

verus! {

/// The least index at or after `from` whose element satisfies `p`, if any.
pub open spec fn first_from<T>(s: Seq<T>, from: int, p: spec_fn(T) -> bool) -> Option<int>
    decreases s.len() - from,
{
    if from < 0 || from >= s.len() {
        None
    } else if p(s[from]) {
        Some(from)
    } else {
        first_from(s, from + 1, p)
    }
}

/// `first_from` returns the least index at or after `from` that satisfies
/// `p`, and returns none exactly when no such index exists.
pub proof fn lemma_first_from<T>(s: Seq<T>, from: int, p: spec_fn(T) -> bool)
    requires
        0 <= from,
    ensures
        match first_from(s, from, p) {
            Some(j) => from <= j < s.len() && p(s[j]) && forall|k: int| from <= k < j ==> !p(#[trigger] s[k]),
            None => forall|k: int| from <= k < s.len() ==> !p(#[trigger] s[k]),
        },
    decreases s.len() - from,
{
    if from < s.len() && !p(s[from]) {
        lemma_first_from(s, from + 1, p);
    }
}

/// An index at or after `from` that satisfies `p`, with none before it,
/// is the one `first_from` returns.
pub proof fn lemma_first_from_is<T>(s: Seq<T>, from: int, p: spec_fn(T) -> bool, j: int)
    requires
        0 <= from <= j < s.len(),
        p(s[j]),
        forall|k: int| from <= k < j ==> !p(#[trigger] s[k]),
    ensures
        first_from(s, from, p) == Some(j),
{
    lemma_first_from(s, from, p);
}

/// When nothing at or after `from` satisfies `p`, `first_from` returns none.
pub proof fn lemma_first_from_none<T>(s: Seq<T>, from: int, p: spec_fn(T) -> bool)
    requires
        0 <= from,
        forall|k: int| from <= k < s.len() ==> !p(#[trigger] s[k]),
    ensures
        first_from(s, from, p).is_none(),
{
    lemma_first_from(s, from, p);
}

} // verus!
