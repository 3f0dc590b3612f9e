use vstd::prelude::*;
use crate::model::{
    count, lemma_count_bound, lemma_count_is_len, lemma_members_insert, lemma_members_remove,
    lemma_members_update, lemma_not_member, lemma_remove_well_formed, lemma_span_in_members,
    lemma_subrange_well_formed, members, span, well_formed,
};

verus! {

/// A set of `u32` values, held as a sorted list of closed intervals
/// `(start, end)` that are disjoint and never touch.
///
/// The whole `u32` domain is usable: extending an interval upward only
/// happens below a larger value, and downward only above a smaller one, so
/// no bound is ever pushed past `u32::MAX` or below zero.
pub struct RBSet {
    ranges: Vec<(u32, u32)>,
}

impl View for RBSet {
    type V = Seq<(u32, u32)>;

    closed spec fn view(&self) -> Seq<(u32, u32)> {
        self.ranges@
    }
}

impl RBSet {
    /// The set is in canonical form.
    pub open spec fn wf(&self) -> bool {
        well_formed(self@)
    }

    /// The values the set holds.
    pub open spec fn set(&self) -> Set<int> {
        members(self@)
    }

    pub fn new() -> (r: Self)
        ensures
            r.wf(),
            r@ == Seq::<(u32, u32)>::empty(),
            r.set() == Set::<int>::empty(),
    {
        let r = RBSet { ranges: Vec::new() };
        assert(r.set() =~= Set::<int>::empty());
        r
    }

    /// Adds `value`. Adding a value that is already present changes nothing.
    pub fn insert(&mut self, value: u32)
        requires
            old(self).wf(),
        ensures
            final(self).wf(),
            final(self).set().contains(value as int),
            final(self).set() == old(self).set().insert(value as int),
            old(self).set().contains(value as int) ==> final(self)@ == old(self)@,
    {
        let ghost r = self@;
        let ghost v = value as int;
        let n = self.ranges.len();
        let mut i: usize = 0;
        while i < n
            invariant
                self@ == r,
                r == old(self)@,
                v == value as int,
                n == r.len(),
                i <= n,
                well_formed(r),
                forall|j: int| 0 <= j < i ==> #[trigger] r[j].1 + 1 < value,
            decreases n - i,
        {
            let (start, end) = self.ranges[i];
            if value < start {
                proof {
                    lemma_not_member(r, v, i as int);
                }
                if value + 1 == start {
                    // The entry before ends below `value - 1`, or the scan
                    // would have stopped there: nothing to merge.
                    self.ranges[i] = (value, end);
                    proof {
                        lemma_members_update(r, i as int, (value, end));
                        lemma_span_in_members(r, i as int);
                        assert(self@ == r.update(i as int, (value, end)));
                        assert forall|a: int, b: int| 0 <= a < b < self@.len() implies #[trigger] self@[a].1 + 1 < #[trigger] self@[b].0 by {
                            assert(r[a].1 + 1 < r[b].0);
                        }
                        assert(span((value, end)) =~= span(r[i as int]).insert(v));
                        assert(self.set() =~= members(r).insert(v));
                    }
                } else {
                    self.ranges.insert(i, (value, value));
                    proof {
                        lemma_members_insert(r, i as int, (value, value));
                        assert(self@ == r.insert(i as int, (value, value)));
                        assert forall|a: int, b: int| 0 <= a < b < self@.len() implies #[trigger] self@[a].1 + 1 < #[trigger] self@[b].0 by {
                            if a < i && b > i {
                                assert(r[a].1 + 1 < r[b - 1].0);
                            } else if a > i {
                                assert(r[a - 1].1 + 1 < r[b - 1].0);
                            } else if a == i && b - 1 > i {
                                assert(r[a].1 + 1 < r[b - 1].0);
                            }
                        }
                        assert(self.set() =~= members(r).insert(v));
                    }
                }
                return;
            } else if value <= end {
                proof {
                    lemma_span_in_members(r, i as int);
                    assert(self.set() =~= members(r).insert(v));
                }
                return;
            } else if value - 1 == end {
                proof {
                    if i + 1 < n {
                        assert(r[i as int].1 + 1 < r[i + 1].0);
                    }
                }
                self.ranges[i] = (start, value);
                if i + 1 < n && value + 1 == self.ranges[i + 1].0 {
                    let next_end = self.ranges[i + 1].1;
                    self.ranges[i] = (start, next_end);
                    self.ranges.remove(i + 1);
                    proof {
                        let k = (i + 1) as int;
                        let q = r.remove(k);
                        lemma_remove_well_formed(r, k);
                        lemma_members_remove(r, k);
                        assert(self@ =~= q.update(i as int, (start, next_end)));
                        lemma_members_update(q, i as int, (start, next_end));
                        lemma_span_in_members(r, i as int);
                        lemma_span_in_members(r, k);
                        lemma_not_member(r, v, k);
                        assert forall|a: int, b: int| 0 <= a < b < self@.len() implies #[trigger] self@[a].1 + 1 < #[trigger] self@[b].0 by {
                            assert(q[a].1 + 1 < q[b].0);
                            if a == i {
                                assert(r[k].1 + 1 < r[b + 1].0);
                            }
                        }
                        assert(self.set() =~= members(r).insert(v));
                    }
                } else {
                    proof {
                        lemma_members_update(r, i as int, (start, value));
                        lemma_span_in_members(r, i as int);
                        lemma_not_member(r, v, i + 1);
                        assert(self@ == r.update(i as int, (start, value)));
                        assert forall|a: int, b: int| 0 <= a < b < self@.len() implies #[trigger] self@[a].1 + 1 < #[trigger] self@[b].0 by {
                            assert(r[a].1 + 1 < r[b].0);
                        }
                        assert(self.set() =~= members(r).insert(v));
                    }
                }
                return;
            }
            i += 1;
        }
        self.ranges.push((value, value));
        proof {
            lemma_not_member(r, v, n as int);
            lemma_members_insert(r, n as int, (value, value));
            assert(self@ =~= r.insert(n as int, (value, value)));
            assert forall|a: int, b: int| 0 <= a < b < self@.len() implies #[trigger] self@[a].1 + 1 < #[trigger] self@[b].0 by {
                if b < n {
                    assert(r[a].1 + 1 < r[b].0);
                }
            }
            assert(self.set() =~= members(r).insert(v));
        }
    }

    /// Takes `value` out. Taking out a value that is absent changes nothing.
    pub fn remove(&mut self, value: &u32)
        requires
            old(self).wf(),
        ensures
            final(self).wf(),
            !final(self).set().contains(*value as int),
            final(self).set() == old(self).set().remove(*value as int),
            !old(self).set().contains(*value as int) ==> final(self)@ == old(self)@,
    {
        let ghost r = self@;
        let v = *value;
        let n = self.ranges.len();
        let mut i: usize = 0;
        while i < n
            invariant
                self@ == r,
                r == old(self)@,
                v == *value,
                n == r.len(),
                i <= n,
                well_formed(r),
                forall|j: int| 0 <= j < i ==> !(#[trigger] r[j].0 <= v && v <= r[j].1),
            decreases n - i,
        {
            let (start, end) = self.ranges[i];
            if v == start {
                if v == end {
                    self.ranges.remove(i);
                    proof {
                        lemma_members_remove(r, i as int);
                        lemma_remove_well_formed(r, i as int);
                        assert(span(r[i as int]) =~= set![v as int]);
                        assert(self.set() =~= members(r).remove(v as int));
                    }
                } else {
                    self.ranges[i] = (start + 1, end);
                    proof {
                        lemma_members_update(r, i as int, self@[i as int]);
                        lemma_span_in_members(r, i as int);
                        assert(self@ == r.update(i as int, self@[i as int]));
                        assert forall|a: int, b: int| 0 <= a < b < self@.len() implies #[trigger] self@[a].1 + 1 < #[trigger] self@[b].0 by {
                            assert(r[a].1 + 1 < r[b].0);
                        }
                        assert(span(r[i as int]) =~= span(self@[i as int]).insert(v as int));
                        assert(self.set() =~= members(r).remove(v as int));
                    }
                }
                return;
            } else if v == end {
                self.ranges[i] = (start, end - 1);
                proof {
                    lemma_members_update(r, i as int, self@[i as int]);
                    lemma_span_in_members(r, i as int);
                    assert(self@ == r.update(i as int, self@[i as int]));
                    assert forall|a: int, b: int| 0 <= a < b < self@.len() implies #[trigger] self@[a].1 + 1 < #[trigger] self@[b].0 by {
                        assert(r[a].1 + 1 < r[b].0);
                    }
                    assert(span(r[i as int]) =~= span(self@[i as int]).insert(v as int));
                    assert(self.set() =~= members(r).remove(v as int));
                }
                return;
            } else if start < v && v < end {
                self.ranges[i] = (start, v - 1);
                self.ranges.insert(i + 1, (v + 1, end));
                proof {
                    let k = i as int;
                    let q = r.update(k, (start, (v - 1) as u32));
                    lemma_members_update(r, k, (start, (v - 1) as u32));
                    lemma_span_in_members(r, k);
                    assert forall|a: int, b: int| 0 <= a < b < q.len() implies #[trigger] q[a].1 + 1 < #[trigger] q[b].0 by {
                        assert(r[a].1 + 1 < r[b].0);
                    }
                    lemma_members_insert(q, k + 1, ((v + 1) as u32, end));
                    assert(self@ == q.insert(k + 1, ((v + 1) as u32, end)));
                    assert forall|a: int, b: int| 0 <= a < b < self@.len() implies #[trigger] self@[a].1 + 1 < #[trigger] self@[b].0 by {
                        if b <= k {
                            assert(r[a].1 + 1 < r[b].0);
                        } else if a < k && b > k + 1 {
                            assert(r[a].1 + 1 < r[b - 1].0);
                        } else if a < k {
                            assert(r[a].1 + 1 < r[k].0);
                        } else if a >= k + 1 && b > k + 1 {
                            assert(r[a - 1].1 + 1 < r[b - 1].0);
                        } else if a == k && b > k + 1 {
                            assert(r[k].1 + 1 < r[b - 1].0);
                        }
                    }
                    assert(span(r[k]) =~= span(q[k]).union(span(((v + 1) as u32, end))).insert(v as int));
                    assert(self.set() =~= members(r).remove(v as int));
                }
                return;
            }
            i += 1;
        }
        proof {
            assert(!members(r).contains(v as int));
            assert(self.set() =~= members(r).remove(v as int));
        }
    }

    /// Removes every value.
    pub fn clear(&mut self)
        ensures
            final(self).wf(),
            final(self)@ == Seq::<(u32, u32)>::empty(),
            final(self).set() == Set::<int>::empty(),
    {
        self.ranges.clear();
        assert(self@ =~= Seq::<(u32, u32)>::empty());
        assert(self.set() =~= Set::<int>::empty());
    }

    /// Whether the set holds no value.
    pub fn is_empty(&self) -> (r: bool)
        requires
            self.wf(),
        ensures
            r == (self@.len() == 0),
            r == (self.set() == Set::<int>::empty()),
    {
        proof {
            if self@.len() > 0 {
                assert(self.set().contains(self@[0].0 as int));
            } else {
                assert(self.set() =~= Set::<int>::empty());
            }
        }
        self.ranges.len() == 0
    }

    /// Whether `value` is in the set.
    pub fn contains(&self, value: &u32) -> (r: bool)
        ensures
            r == self.set().contains(*value as int),
    {
        let n = self.ranges.len();
        let mut i: usize = 0;
        while i < n
            invariant
                n == self@.len(),
                i <= n,
                forall|j: int| 0 <= j < i ==> !(#[trigger] self@[j].0 <= *value && *value <= self@[j].1),
            decreases n - i,
        {
            let (start, end) = self.ranges[i];
            if start <= *value && *value <= end {
                assert(self@[i as int].0 <= *value && *value <= self@[i as int].1);
                return true;
            }
            i += 1;
        }
        false
    }

    /// The intervals `(start, end)`, in ascending order.
    pub fn ranges(&self) -> (r: &[(u32, u32)])
        ensures
            r@ == self@,
    {
        self.ranges.as_slice()
    }

    /// The number of values in the set.
    pub fn len(&self) -> (r: u64)
        requires
            self.wf(),
        ensures
            r == self.set().len(),
            r == count(self@),
    {
        let ghost s = self@;
        let n = self.ranges.len();
        let mut total: u64 = 0;
        let mut i: usize = 0;
        proof {
            lemma_count_bound(s);
            lemma_count_is_len(s);
            assert(s.subrange(0, n as int) =~= s);
        }
        while i < n
            invariant
                s == self@,
                n == s.len(),
                i <= n,
                well_formed(s),
                count(s) <= 0x1_0000_0000,
                total + count(s.subrange(i as int, n as int)) == count(s),
            decreases n - i,
        {
            let (start, end) = self.ranges[i];
            proof {
                let rest = s.subrange(i as int, n as int);
                assert(rest.drop_first() =~= s.subrange(i + 1, n as int));
                lemma_subrange_well_formed(s, i + 1, n as int);
                lemma_count_bound(s.subrange(i + 1, n as int));
                assert(s[i as int].0 <= s[i as int].1);
            }
            total = total + (end - start) as u64 + 1;
            i += 1;
        }
        proof {
            assert(s.subrange(n as int, n as int) =~= Seq::<(u32, u32)>::empty());
            lemma_count_is_len(s);
        }
        total
    }

    /// Builds a set from a list of intervals, which must already be in
    /// canonical form: each `start <= end`, and each interval ending at least
    /// two below the start of the next. Any other list gives `None`.
    pub fn from_ranges(ranges: Vec<(u32, u32)>) -> (r: Option<Self>)
        ensures
            r is Some <==> well_formed(ranges@),
            r matches Some(set) ==> set@ == ranges@,
    {
        let n = ranges.len();
        let mut i: usize = 0;
        while i < n
            invariant
                n == ranges@.len(),
                i <= n,
                well_formed(ranges@.subrange(0, i as int)),
            decreases n - i,
        {
            let (start, end) = ranges[i];
            if start > end {
                proof {
                    assert(ranges@[i as int].0 > ranges@[i as int].1);
                }
                return None;
            }
            if i > 0 {
                let prev_end = ranges[i - 1].1;
                if !(prev_end < start && start - prev_end >= 2) {
                    proof {
                        let a = (i - 1) as int;
                        let b = i as int;
                        assert(!(ranges@[a].1 + 1 < ranges@[b].0));
                    }
                    return None;
                }
            }
            proof {
                let p = ranges@.subrange(0, i as int);
                let q = ranges@.subrange(0, i + 1);
                assert forall|a: int, b: int| 0 <= a < b < q.len() implies #[trigger] q[a].1 + 1 < #[trigger] q[b].0 by {
                    if b < i {
                        assert(p[a].1 + 1 < p[b].0);
                    } else if a < i - 1 {
                        assert(p[a].1 + 1 < p[i - 1].0);
                        assert(p[i - 1].0 <= p[i - 1].1);
                    }
                }
                assert forall|a: int| 0 <= a < q.len() implies #[trigger] q[a].0 <= q[a].1 by {
                    if a < i {
                        assert(p[a].0 <= p[a].1);
                    }
                }
            }
            i += 1;
        }
        assert(ranges@.subrange(0, n as int) =~= ranges@);
        Some(RBSet { ranges })
    }
}

impl Default for RBSet {
    fn default() -> (r: Self)
        ensures
            r.wf(),
            r@ == Seq::<(u32, u32)>::empty(),
            r.set() == Set::<int>::empty(),
    {
        RBSet::new()
    }
}

} // verus!
