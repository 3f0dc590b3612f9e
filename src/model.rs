use vstd::prelude::*;
use vstd::set_lib::{lemma_int_range, lemma_len_subset, lemma_set_disjoint_lens, set_int_range};

verus! {

/// The closed interval `[start, end]` belongs to the set exactly when
/// `start <= v <= end` for some entry.
pub open spec fn in_ranges(r: Seq<(u32, u32)>, v: int) -> bool {
    exists|i: int| 0 <= i < r.len() && #[trigger] r[i].0 <= v && v <= r[i].1
}

/// The members covered by a list of intervals.
pub open spec fn members(r: Seq<(u32, u32)>) -> Set<int> {
    Set::new(|v: int| in_ranges(r, v))
}

/// Canonical form: every interval is non-empty, and any earlier interval ends
/// at least two below the start of any later one (sorted, disjoint and never
/// touching).
pub open spec fn well_formed(r: Seq<(u32, u32)>) -> bool {
    &&& forall|i: int| 0 <= i < r.len() ==> #[trigger] r[i].0 <= r[i].1
    &&& forall|i: int, j: int|
        0 <= i < j < r.len() ==> #[trigger] r[i].1 + 1 < #[trigger] r[j].0
}

/// The ascending values `a, a + 1, ..., b` (empty when `b < a`).
pub open spec fn run(a: int, b: int) -> Seq<int> {
    if a <= b {
        Seq::new((b - a + 1) as nat, |k: int| a + k)
    } else {
        Seq::empty()
    }
}

/// The members listed interval by interval, each interval in ascending order.
pub open spec fn expand(r: Seq<(u32, u32)>) -> Seq<int>
    decreases r.len(),
{
    if r.len() == 0 {
        Seq::empty()
    } else {
        run(r[0].0 as int, r[0].1 as int) + expand(r.drop_first())
    }
}

/// The number of members: the sum of the interval sizes.
pub open spec fn count(r: Seq<(u32, u32)>) -> int
    decreases r.len(),
{
    if r.len() == 0 {
        0
    } else {
        (r[0].1 - r[0].0 + 1) + count(r.drop_first())
    }
}

pub proof fn lemma_drop_first_well_formed(r: Seq<(u32, u32)>)
    requires
        well_formed(r),
        r.len() > 0,
    ensures
        well_formed(r.drop_first()),
{
    let d = r.drop_first();
    assert forall|i: int, j: int| 0 <= i < j < d.len() implies #[trigger] d[i].1 + 1 < #[trigger] d[j].0 by {
        assert(r[i + 1].1 + 1 < r[j + 1].0);
    }
}

/// The members are those of the first interval and those of the rest.
pub proof fn lemma_members_split(r: Seq<(u32, u32)>)
    requires
        r.len() > 0,
    ensures
        members(r) == set_int_range(r[0].0 as int, r[0].1 + 1) + members(r.drop_first()),
{
    let d = r.drop_first();
    assert forall|v: int| members(r).contains(v) implies (set_int_range(r[0].0 as int, r[0].1 + 1) + members(d)).contains(v) by {
        let i = choose|i: int| 0 <= i < r.len() && #[trigger] r[i].0 <= v && v <= r[i].1;
        if i > 0 {
            assert(d[i - 1] == r[i]);
        }
    }
    assert forall|v: int| (set_int_range(r[0].0 as int, r[0].1 + 1) + members(d)).contains(v) implies members(r).contains(v) by {
        if r[0].0 <= v && v <= r[0].1 {
            assert(r[0].0 <= v && v <= r[0].1);
        } else {
            let i = choose|i: int| 0 <= i < d.len() && #[trigger] d[i].0 <= v && v <= d[i].1;
            assert(r[i + 1] == d[i]);
        }
    }
    assert(members(r) =~= set_int_range(r[0].0 as int, r[0].1 + 1) + members(d));
}

/// Every member lies at or above the first start, and those above the first
/// interval are exactly the members of the rest.
pub proof fn lemma_first_interval(r: Seq<(u32, u32)>, v: int)
    requires
        well_formed(r),
        r.len() > 0,
        members(r).contains(v),
    ensures
        r[0].0 <= v,
        v > r[0].1 ==> v > r[0].1 + 1 && members(r.drop_first()).contains(v),
        v <= r[0].1 ==> !members(r.drop_first()).contains(v),
{
    lemma_members_split(r);
    let d = r.drop_first();
    let i = choose|i: int| 0 <= i < r.len() && #[trigger] r[i].0 <= v && v <= r[i].1;
    if i > 0 {
        assert(r[0].1 + 1 < r[i].0);
    }
    if v <= r[0].1 && members(d).contains(v) {
        let j = choose|j: int| 0 <= j < d.len() && #[trigger] d[j].0 <= v && v <= d[j].1;
        assert(r[0].1 + 1 < r[j + 1].0);
    }
}

/// The member set is finite and has `count(r)` elements.
pub proof fn lemma_count_is_len(r: Seq<(u32, u32)>)
    requires
        well_formed(r),
    ensures
        members(r).finite(),
        members(r).len() == count(r),
    decreases r.len(),
{
    if r.len() == 0 {
        assert(members(r) =~= Set::<int>::empty());
    } else {
        let d = r.drop_first();
        let head = set_int_range(r[0].0 as int, r[0].1 + 1);
        lemma_drop_first_well_formed(r);
        lemma_count_is_len(d);
        lemma_members_split(r);
        lemma_int_range(r[0].0 as int, r[0].1 + 1);
        assert forall|v: int| head.contains(v) implies !members(d).contains(v) by {
            if members(d).contains(v) {
                let j = choose|j: int| 0 <= j < d.len() && #[trigger] d[j].0 <= v && v <= d[j].1;
                assert(r[0].1 + 1 < r[j + 1].0);
            }
        }
        assert(head.disjoint(members(d)));
        lemma_set_disjoint_lens(head, members(d));
    }
}

/// A well-formed list of `u32` intervals holds at most `2^32` members.
pub proof fn lemma_count_bound(r: Seq<(u32, u32)>)
    requires
        well_formed(r),
    ensures
        0 <= count(r) <= 0x1_0000_0000,
{
    lemma_count_is_len(r);
    let all = set_int_range(0, 0x1_0000_0000);
    lemma_int_range(0, 0x1_0000_0000);
    assert forall|v: int| members(r).contains(v) implies all.contains(v) by {
        let i = choose|i: int| 0 <= i < r.len() && #[trigger] r[i].0 <= v && v <= r[i].1;
    }
    lemma_len_subset(members(r), all);
}

/// A well-formed list of intervals is determined by the values it covers: two
/// canonical lists with the same members are the same list.
pub proof fn lemma_canonical_unique(a: Seq<(u32, u32)>, b: Seq<(u32, u32)>)
    requires
        well_formed(a),
        well_formed(b),
        members(a) == members(b),
    ensures
        a == b,
    decreases a.len() + b.len(),
{
    if a.len() == 0 || b.len() == 0 {
        if a.len() > 0 {
            assert(members(b).contains(a[0].0 as int));
        }
        if b.len() > 0 {
            assert(members(a).contains(b[0].0 as int));
        }
        assert(a =~= b);
    } else {
        assert(members(b).contains(a[0].0 as int));
        assert(members(a).contains(b[0].0 as int));
        lemma_first_interval(a, b[0].0 as int);
        lemma_first_interval(b, a[0].0 as int);
        if a[0].1 < b[0].1 {
            assert(members(b).contains(a[0].1 + 1));
            lemma_first_interval(a, a[0].1 + 1);
            lemma_first_interval(b, a[0].1 + 1);
        }
        if b[0].1 < a[0].1 {
            assert(members(a).contains(b[0].1 + 1));
            lemma_first_interval(a, b[0].1 + 1);
            lemma_first_interval(b, b[0].1 + 1);
        }
        assert(a[0] == b[0]);
        let da = a.drop_first();
        let db = b.drop_first();
        assert forall|v: int| members(da).contains(v) <==> members(db).contains(v) by {
            lemma_members_split(a);
            lemma_members_split(b);
            if members(da).contains(v) {
                lemma_first_interval(a, v);
                lemma_first_interval(b, v);
            }
            if members(db).contains(v) {
                lemma_first_interval(a, v);
                lemma_first_interval(b, v);
            }
        }
        assert(members(da) =~= members(db));
        lemma_drop_first_well_formed(a);
        lemma_drop_first_well_formed(b);
        lemma_canonical_unique(da, db);
        assert forall|i: int| 0 <= i < a.len() implies a[i] == b[i] by {
            if i > 0 {
                assert(a[i] == da[i - 1]);
                assert(b[i] == db[i - 1]);
            }
        }
        assert(a =~= b);
    }
}

/// Listing the members interval by interval gives `count(r)` values, strictly
/// ascending, each of them a member, and every member among them.
pub proof fn lemma_expand(r: Seq<(u32, u32)>)
    requires
        well_formed(r),
    ensures
        expand(r).len() == count(r),
        forall|i: int, j: int| 0 <= i < j < expand(r).len() ==> expand(r)[i] < expand(r)[j],
        forall|v: int| expand(r).contains(v) <==> members(r).contains(v),
        r.len() > 0 ==> forall|k: int| 0 <= k < expand(r).len() ==> r[0].0 <= #[trigger] expand(r)[k],
    decreases r.len(),
{
    if r.len() > 0 {
        let d = r.drop_first();
        let h = run(r[0].0 as int, r[0].1 as int);
        lemma_drop_first_well_formed(r);
        lemma_expand(d);
        lemma_members_split(r);
        let e = expand(r);
        assert(e == h + expand(d));
        if d.len() > 0 {
            assert(r[0].1 + 1 < r[1].0);
            assert(d[0] == r[1]);
        }
        assert forall|i: int, j: int| 0 <= i < j < e.len() implies e[i] < e[j] by {
            if j >= h.len() && i < h.len() {
                assert(expand(d)[j - h.len()] >= d[0].0);
            }
        }
        assert forall|v: int| e.contains(v) <==> members(r).contains(v) by {
            if e.contains(v) {
                let k = choose|k: int| 0 <= k < e.len() && e[k] == v;
                if k >= h.len() {
                    assert(expand(d).contains(v));
                }
            }
            if members(r).contains(v) {
                if r[0].0 <= v <= r[0].1 {
                    assert(e[v - r[0].0] == v);
                } else {
                    assert(expand(d).contains(v));
                    let k = choose|k: int| 0 <= k < expand(d).len() && expand(d)[k] == v;
                    assert(e[k + h.len()] == v);
                }
            }
        }
        assert forall|k: int| 0 <= k < e.len() implies r[0].0 <= #[trigger] e[k] by {
            if k >= h.len() && d.len() > 0 {
                assert(expand(d)[k - h.len()] >= d[0].0);
            }
        }
    }
}

/// The values of one interval.
pub open spec fn span(p: (u32, u32)) -> Set<int> {
    set_int_range(p.0 as int, p.1 + 1)
}

/// Replacing one interval of a canonical list trades its values for those of
/// the new interval.
pub proof fn lemma_members_update(r: Seq<(u32, u32)>, i: int, p: (u32, u32))
    requires
        well_formed(r),
        0 <= i < r.len(),
    ensures
        members(r.update(i, p)) == members(r).difference(span(r[i])).union(span(p)),
{
    let u = r.update(i, p);
    assert forall|v: int| #[trigger] members(u).contains(v) <==> members(r).difference(span(r[i])).union(span(p)).contains(v) by {
        if members(u).contains(v) {
            let j = choose|j: int| 0 <= j < u.len() && #[trigger] u[j].0 <= v && v <= u[j].1;
            if j != i {
                assert(r[j] == u[j]);
                if i < j {
                    assert(r[i].1 + 1 < r[j].0);
                } else {
                    assert(r[j].1 + 1 < r[i].0);
                }
            }
        }
        if members(r).contains(v) && !span(r[i]).contains(v) {
            let j = choose|j: int| 0 <= j < r.len() && #[trigger] r[j].0 <= v && v <= r[j].1;
            assert(u[j] == r[j]);
        }
        if span(p).contains(v) {
            assert(u[i] == p);
        }
    }
    assert(members(u) =~= members(r).difference(span(r[i])).union(span(p)));
}

/// Inserting an interval adds its values.
pub proof fn lemma_members_insert(r: Seq<(u32, u32)>, i: int, p: (u32, u32))
    requires
        0 <= i <= r.len(),
    ensures
        members(r.insert(i, p)) == members(r).union(span(p)),
{
    let u = r.insert(i, p);
    assert forall|v: int| #[trigger] members(u).contains(v) <==> members(r).union(span(p)).contains(v) by {
        if members(u).contains(v) {
            let j = choose|j: int| 0 <= j < u.len() && #[trigger] u[j].0 <= v && v <= u[j].1;
            if j < i {
                assert(r[j] == u[j]);
            } else if j > i {
                assert(r[j - 1] == u[j]);
            }
        }
        if members(r).contains(v) {
            let j = choose|j: int| 0 <= j < r.len() && #[trigger] r[j].0 <= v && v <= r[j].1;
            if j < i {
                assert(u[j] == r[j]);
            } else {
                assert(u[j + 1] == r[j]);
            }
        }
        if span(p).contains(v) {
            assert(u[i] == p);
        }
    }
    assert(members(u) =~= members(r).union(span(p)));
}

/// Removing an interval of a canonical list drops its values.
pub proof fn lemma_members_remove(r: Seq<(u32, u32)>, i: int)
    requires
        well_formed(r),
        0 <= i < r.len(),
    ensures
        members(r.remove(i)) == members(r).difference(span(r[i])),
{
    let u = r.remove(i);
    assert forall|v: int| #[trigger] members(u).contains(v) <==> members(r).difference(span(r[i])).contains(v) by {
        if members(u).contains(v) {
            let j = choose|j: int| 0 <= j < u.len() && #[trigger] u[j].0 <= v && v <= u[j].1;
            if j < i {
                assert(r[j] == u[j]);
                assert(r[j].1 + 1 < r[i].0);
            } else {
                assert(r[j + 1] == u[j]);
                assert(r[i].1 + 1 < r[j + 1].0);
            }
        }
        if members(r).contains(v) && !span(r[i]).contains(v) {
            let j = choose|j: int| 0 <= j < r.len() && #[trigger] r[j].0 <= v && v <= r[j].1;
            if j < i {
                assert(u[j] == r[j]);
            } else {
                assert(u[j - 1] == r[j]);
            }
        }
    }
    assert(members(u) =~= members(r).difference(span(r[i])));
}

/// Every value of an entry is a member.
pub proof fn lemma_span_in_members(r: Seq<(u32, u32)>, i: int)
    requires
        0 <= i < r.len(),
    ensures
        span(r[i]).subset_of(members(r)),
{
    assert forall|v: int| span(r[i]).contains(v) implies members(r).contains(v) by {
        assert(r[i].0 <= v && v <= r[i].1);
    }
}

/// A value above the ends of the first `k` entries and below the start of
/// entry `k` is not a member.
pub proof fn lemma_not_member(r: Seq<(u32, u32)>, v: int, k: int)
    requires
        well_formed(r),
        0 <= k <= r.len(),
        forall|j: int| 0 <= j < k ==> #[trigger] r[j].1 + 1 < v + 1,
        k < r.len() ==> v < r[k].0,
    ensures
        !members(r).contains(v),
{
    if members(r).contains(v) {
        let j = choose|j: int| 0 <= j < r.len() && #[trigger] r[j].0 <= v && v <= r[j].1;
        if j > k {
            assert(r[k].1 + 1 < r[j].0);
        }
    }
}

/// Dropping an entry keeps the list canonical.
pub proof fn lemma_remove_well_formed(r: Seq<(u32, u32)>, i: int)
    requires
        well_formed(r),
        0 <= i < r.len(),
    ensures
        well_formed(r.remove(i)),
{
    let u = r.remove(i);
    assert forall|a: int, b: int| 0 <= a < b < u.len() implies #[trigger] u[a].1 + 1 < #[trigger] u[b].0 by {
        let a2 = if a < i { a } else { a + 1 };
        let b2 = if b < i { b } else { b + 1 };
        assert(r[a2].1 + 1 < r[b2].0);
    }
}

/// A contiguous part of a canonical list is canonical.
pub proof fn lemma_subrange_well_formed(r: Seq<(u32, u32)>, a: int, b: int)
    requires
        well_formed(r),
        0 <= a <= b <= r.len(),
    ensures
        well_formed(r.subrange(a, b)),
{
    let u = r.subrange(a, b);
    assert forall|i: int, j: int| 0 <= i < j < u.len() implies #[trigger] u[i].1 + 1 < #[trigger] u[j].0 by {
        assert(r[i + a].1 + 1 < r[j + a].0);
    }
}

} // verus!
