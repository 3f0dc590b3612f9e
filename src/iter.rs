use vstd::prelude::*;
use crate::model::{expand, run, well_formed};
use crate::set::RBSet;

verus! {

/// Walks the values of a set one by one, in ascending order.
pub struct RBSetIter<'i> {
    set: &'i RBSet,
    pos: usize,
    last_yielded: Option<u32>,
}

impl RBSet {
    /// An iterator over the values of the set, from the smallest up.
    pub fn iter(&self) -> (r: RBSetIter<'_>)
        requires
            self.wf(),
        ensures
            r.wf(),
            r.remaining() == expand(self@),
    {
        let r = RBSetIter { set: self, pos: 0, last_yielded: None };
        proof {
            if self@.len() > 0 {
                assert(self@.subrange(0, self@.len() as int) =~= self@);
            } else {
                assert(expand(self@) =~= Seq::<int>::empty());
            }
        }
        r
    }
}

impl<'i> RBSetIter<'i> {
    /// The iterator's position is consistent with the set it walks.
    pub closed spec fn wf(&self) -> bool {
        let r = self.set@;
        &&& well_formed(r)
        &&& self.pos <= r.len()
        &&& match self.last_yielded {
            Some(x) => self.pos < r.len() ==> r[self.pos as int].0 <= x <= r[self.pos as int].1,
            None => self.pos == 0,
        }
    }

    /// The values still to come, in the order they will be yielded.
    pub closed spec fn remaining(&self) -> Seq<int> {
        let r = self.set@;
        let n = r.len() as int;
        if self.pos >= n {
            Seq::empty()
        } else {
            match self.last_yielded {
                None => expand(r.subrange(self.pos as int, n)),
                Some(x) => run(x + 1, r[self.pos as int].1 as int) + expand(
                    r.subrange(self.pos + 1, n),
                ),
            }
        }
    }

    /// Yields the next value, or `None` once every value has been yielded.
    pub fn next(&mut self) -> (r: Option<u32>)
        requires
            old(self).wf(),
        ensures
            final(self).wf(),
            r is None <==> old(self).remaining().len() == 0,
            r is None ==> final(self).remaining() == old(self).remaining(),
            r matches Some(x) ==> x == old(self).remaining()[0] && final(self).remaining()
                == old(self).remaining().drop_first(),
    {
        let ranges = self.set.ranges();
        let n = ranges.len();
        let ghost s = self.set@;
        if self.pos >= n {
            return None;
        }
        proof {
            lemma_expand_from(s, self.pos as int);
        }
        match self.last_yielded {
            Some(x) => {
                let (_, end) = ranges[self.pos];
                if x == end {
                    self.pos = self.pos + 1;
                    if self.pos < n {
                        let start = ranges[self.pos].0;
                        self.last_yielded = Some(start);
                        proof {
                            lemma_expand_from(s, self.pos as int);
                            lemma_run_first(s[self.pos as int].0 as int, s[self.pos as int].1 as int);
                            assert(run(x + 1, end as int) =~= Seq::<int>::empty());
                        }
                        Some(start)
                    } else {
                        proof {
                            assert(run(x + 1, end as int) =~= Seq::<int>::empty());
                            assert(s.subrange(n as int, n as int) =~= Seq::<(u32, u32)>::empty());
                        }
                        None
                    }
                } else {
                    self.last_yielded = Some(x + 1);
                    proof {
                        lemma_run_first(x + 1, end as int);
                    }
                    Some(x + 1)
                }
            },
            None => {
                let start = ranges[0].0;
                self.last_yielded = Some(start);
                proof {
                    lemma_run_first(s[0].0 as int, s[0].1 as int);
                }
                Some(start)
            },
        }
    }
}

/// A run with at least one value starts with its lower bound.
proof fn lemma_run_first(a: int, b: int)
    requires
        a <= b,
    ensures
        run(a, b).len() > 0,
        run(a, b)[0] == a,
        run(a, b).drop_first() == run(a + 1, b),
{
    assert(run(a, b).drop_first() =~= run(a + 1, b));
}

/// The values from entry `p` on are those of entry `p`, then those after it.
proof fn lemma_expand_from(r: Seq<(u32, u32)>, p: int)
    requires
        well_formed(r),
        0 <= p < r.len(),
    ensures
        expand(r.subrange(p, r.len() as int)) == run(r[p].0 as int, r[p].1 as int) + expand(
            r.subrange(p + 1, r.len() as int),
        ),
        r[p].0 <= r[p].1,
{
    let t = r.subrange(p, r.len() as int);
    assert(t.drop_first() =~= r.subrange(p + 1, r.len() as int));
    assert(t[0] == r[p]);
}

} // verus!
