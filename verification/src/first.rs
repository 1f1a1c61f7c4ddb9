//! The first of a run of optional findings.
use vstd::prelude::*;

verus! {

/// The first of `find(from)`, `find(from + 1)`, ... below `end` that is there.
pub open spec fn first_some<T>(find: spec_fn(int) -> Option<T>, from: int, end: int) -> Option<T>
    decreases end - from,
{
    if from >= end {
        None
    } else if find(from) is Some {
        find(from)
    } else {
        first_some(find, from + 1, end)
    }
}

/// Where nothing is found, every position is clear.
pub proof fn lemma_first_none<T>(find: spec_fn(int) -> Option<T>, from: int, end: int, i: int)
    requires
        first_some(find, from, end) is None,
        from <= i < end,
    ensures
        find(i) is None,
    decreases end - from,
{
    if from < i {
        lemma_first_none(find, from + 1, end, i);
    }
}

/// A finding after clear positions is the first.
pub proof fn lemma_first_at<T>(find: spec_fn(int) -> Option<T>, from: int, at: int, end: int)
    requires
        from <= at < end,
        forall|i: int| from <= i < at ==> #[trigger] find(i) is None,
        find(at) is Some,
    ensures
        first_some(find, from, end) == find(at),
    decreases at - from,
{
    if from < at {
        lemma_first_at(find, from + 1, at, end);
    }
}

/// Where every position is clear, nothing is found.
pub proof fn lemma_first_clear<T>(find: spec_fn(int) -> Option<T>, from: int, end: int)
    requires
        forall|i: int| from <= i < end ==> #[trigger] find(i) is None,
    ensures
        first_some(find, from, end) is None,
    decreases end - from,
{
    if from < end {
        lemma_first_clear(find, from + 1, end);
    }
}

} // verus!
