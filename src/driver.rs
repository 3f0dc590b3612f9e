use vstd::prelude::*;
use crate::model::{lemma_members_insert, members, span, well_formed};
use crate::set::RBSet;

verus! {

/// One step of a randomized comparison run against a plain set.
#[derive(Clone, Copy, Debug, PartialEq, Eq)]
pub enum Action {
    Insert(u8),
    Remove(u8),
    Check(u8),
    CheckOrder,
}

/// What an action does to a plain set of values: checks change nothing.
pub open spec fn model_step(s: Set<int>, a: Action) -> Set<int> {
    match a {
        Action::Insert(v) => s.insert(v as int),
        Action::Remove(v) => s.remove(v as int),
        Action::Check(_) => s,
        Action::CheckOrder => s,
    }
}

/// A plain set after the actions, applied in order to the empty set.
pub open spec fn model_after(actions: Seq<Action>) -> Set<int>
    decreases actions.len(),
{
    if actions.len() == 0 {
        Set::empty()
    } else {
        model_step(model_after(actions.drop_last()), actions.last())
    }
}

/// The values listed in `d`.
pub open spec fn values(d: Seq<u32>) -> Set<int> {
    Set::new(|v: int| exists|k: int| 0 <= k < d.len() && #[trigger] d[k] == v)
}

impl RBSet {
    /// Performs the insertion or removal that `action` asks for; checks leave
    /// the set alone.
    pub fn apply(&mut self, action: &Action)
        requires
            old(self).wf(),
        ensures
            final(self).wf(),
            final(self).set() == model_step(old(self).set(), *action),
    {
        match action {
            Action::Insert(v) => self.insert(*v as u32),
            Action::Remove(v) => self.remove(&(*v as u32)),
            Action::Check(_) => {},
            Action::CheckOrder => {},
        }
    }
}

/// Runs `actions` on a new set. The result holds exactly what a plain set
/// holds after the same insertions and removals, so membership and size agree
/// with it after every prefix of the run.
pub fn replay(actions: &[Action]) -> (set: RBSet)
    ensures
        set.wf(),
        set.set() == model_after(actions@),
{
    let mut set = RBSet::new();
    let mut i: usize = 0;
    while i < actions.len()
        invariant
            i <= actions@.len(),
            set.wf(),
            set.set() == model_after(actions@.subrange(0, i as int)),
        decreases actions@.len() - i,
    {
        set.apply(&actions[i]);
        proof {
            assert(actions@.subrange(0, i + 1).drop_last() =~= actions@.subrange(0, i as int));
        }
        i += 1;
    }
    assert(actions@.subrange(0, actions@.len() as int) =~= actions@);
    set
}

/// Groups strictly ascending values into runs of consecutive integers,
/// each given as `(first, last)`. The result is the canonical interval list
/// of those values.
pub fn consecutive_slices(data: &[u32]) -> (r: Vec<(u32, u32)>)
    requires
        forall|i: int, j: int| 0 <= i < j < data@.len() ==> data@[i] < data@[j],
    ensures
        well_formed(r@),
        members(r@) == values(data@),
{
    let n = data.len();
    let mut result: Vec<(u32, u32)> = Vec::new();
    if n == 0 {
        assert(members(result@) =~= values(data@));
        return result;
    }
    let mut slice_start: usize = 0;
    let mut i: usize = 1;
    while i < n
        invariant
            n == data@.len(),
            forall|a: int, b: int| 0 <= a < b < data@.len() ==> data@[a] < data@[b],
            1 <= i <= n,
            slice_start < i,
            well_formed(result@),
            forall|a: int| 0 <= a < result@.len() ==> #[trigger] result@[a].1 + 1 < data@[slice_start as int],
            members(result@) == values(data@.subrange(0, slice_start as int)),
            forall|k: int| slice_start <= k < i ==> #[trigger] data@[k] == data@[slice_start as int] + (k - slice_start),
        decreases n - i,
    {
        assert(data@[i - 1] < data@[i as int]);
        if data[i - 1] + 1 != data[i] {
            let ghost old_result = result@;
            let ghost ss = slice_start as int;
            proof {
                assert(data@[ss] <= data@[i - 1]) by {
                    if ss < i - 1 {
                        assert(data@[ss] < data@[i - 1]);
                    }
                }
            }
            result.push((data[slice_start], data[i - 1]));
            proof {
                lemma_run_values(data@, ss, i as int);
                lemma_members_insert(old_result, old_result.len() as int, (data@[ss], data@[i - 1]));
                assert(result@ == old_result.insert(old_result.len() as int, (data@[ss], data@[i - 1])));
                lemma_values_split(data@, ss, i as int);
                assert forall|a: int, b: int| 0 <= a < b < result@.len() implies #[trigger] result@[a].1 + 1 < #[trigger] result@[b].0 by {
                    if b < old_result.len() {
                        assert(old_result[a].1 + 1 < old_result[b].0);
                    }
                }
            }
            slice_start = i;
        }
        i += 1;
    }
    let ghost old_result = result@;
    let ghost ss = slice_start as int;
    result.push((data[slice_start], data[n - 1]));
    proof {
        lemma_run_values(data@, ss, n as int);
        lemma_members_insert(old_result, old_result.len() as int, (data@[ss], data@[n - 1]));
        assert(result@ == old_result.insert(old_result.len() as int, (data@[ss], data@[n - 1])));
        lemma_values_split(data@, ss, n as int);
        assert(data@.subrange(0, n as int) =~= data@);
        assert forall|a: int, b: int| 0 <= a < b < result@.len() implies #[trigger] result@[a].1 + 1 < #[trigger] result@[b].0 by {
            if b < old_result.len() {
                assert(old_result[a].1 + 1 < old_result[b].0);
            }
        }
    }
    result
}

/// A stretch of consecutive values covers exactly the interval from its
/// first to its last value.
proof fn lemma_run_values(d: Seq<u32>, a: int, b: int)
    requires
        0 <= a < b <= d.len(),
        forall|k: int| a <= k < b ==> #[trigger] d[k] == d[a] + (k - a),
    ensures
        span((d[a], d[b - 1])) == values(d.subrange(a, b)),
{
    let s = d.subrange(a, b);
    assert forall|v: int| span((d[a], d[b - 1])).contains(v) <==> values(s).contains(v) by {
        if span((d[a], d[b - 1])).contains(v) {
            let k = v - d[a];
            assert(s[k] == d[a + k]);
        }
        if values(s).contains(v) {
            let k = choose|k: int| 0 <= k < s.len() && #[trigger] s[k] == v;
            assert(s[k] == d[a + k]);
        }
    }
    assert(span((d[a], d[b - 1])) =~= values(s));
}

/// The values of a prefix are those of a shorter prefix and of the stretch
/// between them.
proof fn lemma_values_split(d: Seq<u32>, a: int, b: int)
    requires
        0 <= a <= b <= d.len(),
    ensures
        values(d.subrange(0, b)) == values(d.subrange(0, a)).union(values(d.subrange(a, b))),
{
    let whole = d.subrange(0, b);
    let left = d.subrange(0, a);
    let right = d.subrange(a, b);
    assert forall|v: int| values(whole).contains(v) <==> values(left).union(values(right)).contains(v) by {
        if values(whole).contains(v) {
            let k = choose|k: int| 0 <= k < whole.len() && #[trigger] whole[k] == v;
            if k < a {
                assert(left[k] == v);
            } else {
                assert(right[k - a] == v);
            }
        }
        if values(left).contains(v) {
            let k = choose|k: int| 0 <= k < left.len() && #[trigger] left[k] == v;
            assert(whole[k] == v);
        }
        if values(right).contains(v) {
            let k = choose|k: int| 0 <= k < right.len() && #[trigger] right[k] == v;
            assert(whole[k + a] == v);
        }
    }
    assert(values(whole) =~= values(left).union(values(right)));
}

} // verus!
