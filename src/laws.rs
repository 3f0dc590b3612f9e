use vstd::prelude::*;
use crate::driver::values;
use crate::model::{
    count, expand, lemma_canonical_unique, lemma_count_is_len, lemma_expand, members, well_formed,
};
use crate::set::RBSet;

verus! {

/// A set in canonical form lists its intervals sorted by start, each
/// non-empty, and each ending at least two below the start of the next.
pub proof fn lemma_canonical_shape(set: &RBSet)
    requires
        set.wf(),
    ensures
        forall|i: int| 0 <= i < set@.len() ==> #[trigger] set@[i].0 <= set@[i].1,
        forall|i: int| 0 <= i < set@.len() - 1 ==> #[trigger] set@[i].1 + 1 < set@[i + 1].0,
        forall|i: int, j: int| 0 <= i < j < set@.len() ==> set@[i].0 < set@[j].0,
{
    assert forall|i: int, j: int| 0 <= i < j < set@.len() implies set@[i].0 < set@[j].0 by {
        assert(set@[i].1 + 1 < set@[j].0);
    }
    assert forall|i: int| 0 <= i < set@.len() - 1 implies #[trigger] set@[i].1 + 1 < set@[i + 1].0 by {
        assert(set@[i].1 + 1 < set@[i + 1].0);
    }
}

/// A set's intervals are those obtained by sorting the values of a plain set
/// that holds the same values and grouping them into runs of consecutive
/// integers.
pub proof fn lemma_ranges_are_runs(set: &RBSet, sorted: Seq<u32>, runs: Seq<(u32, u32)>)
    requires
        set.wf(),
        forall|i: int, j: int| 0 <= i < j < sorted.len() ==> sorted[i] < sorted[j],
        values(sorted) == set.set(),
        well_formed(runs),
        members(runs) == values(sorted),
    ensures
        set@ == runs,
{
    lemma_canonical_unique(set@, runs);
}

/// Iterating a set yields as many values as the set holds, in strictly
/// ascending order, each of them in the set, and every value of the set.
pub proof fn lemma_iteration_complete(set: &RBSet)
    requires
        set.wf(),
    ensures
        expand(set@).len() == set.set().len(),
        forall|i: int, j: int| 0 <= i < j < expand(set@).len() ==> expand(set@)[i] < expand(set@)[j],
        forall|v: int| expand(set@).contains(v) <==> set.set().contains(v),
{
    lemma_expand(set@);
    lemma_count_is_len(set@);
    assert(count(set@) == set.set().len());
}

} // verus!
