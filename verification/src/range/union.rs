//! Union of range sets.

use super::{
    covered, holds, interval_of, intervals_of, lemma_covered_push, normalized, span_of, RangeSet,
};
use std::ops::Range;
use vstd::prelude::*;

verus! {

/// Set union.
pub trait Union<Rhs> {
    type Output;

    /// Returns the set union of `self` and `other`.
    fn union(&self, other: &Rhs) -> Self::Output;
}

/// Set union in place.
pub trait UnionMut<Rhs> {
    /// Replaces `self` by the set union of `self` and `other`.
    fn union_mut(&mut self, other: &Rhs);
}

/// A canonical list with one more interval taken in: merged into the last
/// interval where it touches or overlaps it, appended where it lies beyond.
pub open spec fn absorbed(s: Seq<(int, int)>, iv: (int, int)) -> Seq<(int, int)> {
    if s.len() > 0 && iv.0 <= s.last().1 {
        s.update(s.len() - 1, (s.last().0, if iv.1 > s.last().1 { iv.1 } else { s.last().1 }))
    } else {
        s.push(iv)
    }
}

/// The first `n` intervals of a list cover what the first `n - 1` cover,
/// and the positions of the `n`-th.
pub proof fn lemma_covered_take(s: Seq<(int, int)>, n: int)
    requires
        0 < n <= s.len(),
    ensures
        covered(s.take(n)) == covered(s.take(n - 1)).union(span_of(s[n - 1].0, s[n - 1].1)),
{
    assert(s.take(n) =~= s.take(n - 1).push(s[n - 1]));
    lemma_covered_push(s.take(n - 1), s[n - 1]);
}

/// Taking in an interval that starts no earlier than the last one keeps the
/// list canonical and adds exactly the positions of the interval.
pub proof fn lemma_absorbed(s: Seq<(int, int)>, iv: (int, int))
    requires
        normalized(s),
        0 <= iv.0 < iv.1,
        s.len() > 0 ==> s.last().0 <= iv.0,
    ensures
        normalized(absorbed(s, iv)),
        covered(absorbed(s, iv)) == covered(s).union(span_of(iv.0, iv.1)),
        absorbed(s, iv).len() > 0,
        absorbed(s, iv).last().0 <= iv.0,
        absorbed(s, iv).last().1 == if s.len() > 0 && iv.1 <= s.last().1 { s.last().1 } else { iv.1 },
{
    let t = absorbed(s, iv);
    if s.len() > 0 && iv.0 <= s.last().1 {
        let n = s.len() - 1;
        assert forall|i: int, j: int| 0 <= i < j < t.len() implies (#[trigger] t[i]).1 < (
        #[trigger] t[j]).0 by {
            assert(s[i].1 < s[j].0);
        }
        assert forall|k: int| 0 <= k < t.len() implies 0 <= (#[trigger] t[k]).0 < t[k].1 by {
            assert(0 <= s[k].0 < s[k].1);
        }
        assert forall|x: int| covered(t).contains(x) <==> (covered(s).contains(x) || iv.0 <= x
            < iv.1) by {
            if covered(t).contains(x) {
                let k = choose|k: int| holds(t, k, x);
                if k < n {
                    assert(holds(s, k, x));
                } else if x < s[n].1 {
                    assert(holds(s, n, x));
                }
            }
            if covered(s).contains(x) {
                let k = choose|k: int| holds(s, k, x);
                assert(holds(t, k, x));
            }
            if iv.0 <= x < iv.1 {
                assert(holds(t, n, x));
            }
        }
        assert(covered(t) =~= covered(s).union(span_of(iv.0, iv.1)));
    } else {
        lemma_covered_push(s, iv);
        assert forall|i: int, j: int| 0 <= i < j < t.len() implies (#[trigger] t[i]).1 < (
        #[trigger] t[j]).0 by {
            if j == s.len() {
                if i < s.len() - 1 {
                    assert(s[i].1 < s[s.len() - 1].0);
                    assert(0 <= s[s.len() - 1].0 < s[s.len() - 1].1);
                }
            } else {
                assert(s[i].1 < s[j].0);
            }
        }
    }
}

/// Takes the range `start..end` into the canonical list `out`.
fn absorb(out: &mut Vec<Range<usize>>, start: usize, end: usize)
    requires
        start < end,
    ensures
        intervals_of(final(out)@) == absorbed(intervals_of(old(out)@), (start as int, end as int)),
{
    let ghost before = intervals_of(out@);
    let n = out.len();
    if n > 0 && start <= out[n - 1].end {
        assert(before[n - 1] == interval_of(out@[n - 1]));
        let last_start = out[n - 1].start;
        let last_end = out[n - 1].end;
        out.pop();
        out.push(Range { start: last_start, end: if end > last_end { end } else { last_end } });
        assert(intervals_of(out@) =~= absorbed(before, (start as int, end as int)));
    } else {
        if n > 0 {
            assert(before[n - 1] == interval_of(out@[n - 1]));
        }
        out.push(Range { start, end });
        assert(intervals_of(out@) =~= absorbed(before, (start as int, end as int)));
    }
}

impl Union<RangeSet> for RangeSet {
    type Output = RangeSet;

    /// The positions that either set holds; ranges that touch or overlap
    /// are merged into one.
    fn union(&self, other: &RangeSet) -> (r: RangeSet)
        ensures
            r.wf(),
            r@ == self@.union(other@),
    {
        proof {
            use_type_invariant(self);
            use_type_invariant(other);
        }
        let ours = self.ranges();
        let theirs = other.ranges();
        let ghost sa = self.intervals();
        let ghost sb = other.intervals();
        let mut out: Vec<Range<usize>> = Vec::new();
        let mut i: usize = 0;
        let mut j: usize = 0;
        proof {
            super::lemma_covered_empty();
            assert(sa.take(0) =~= Seq::<(int, int)>::empty());
            assert(sb.take(0) =~= Seq::<(int, int)>::empty());
            assert(intervals_of(out@) =~= Seq::<(int, int)>::empty());
            assert(covered(intervals_of(out@)) =~= covered(sa.take(0)).union(covered(sb.take(0))));
        }
        while i < ours.len() || j < theirs.len()
            invariant
                i <= ours.len(),
                j <= theirs.len(),
                sa == intervals_of(ours@),
                sb == intervals_of(theirs@),
                normalized(sa),
                normalized(sb),
                normalized(intervals_of(out@)),
                covered(intervals_of(out@)) == covered(sa.take(i as int)).union(
                    covered(sb.take(j as int)),
                ),
                out.len() > 0 && i < ours.len() ==> intervals_of(out@).last().0 <= sa[i as int].0,
                out.len() > 0 && j < theirs.len() ==> intervals_of(out@).last().0 <= sb[j as int].0,
            decreases (ours.len() - i) + (theirs.len() - j),
        {
            let ghost so = intervals_of(out@);
            let ghost i0 = i as int;
            let ghost j0 = j as int;
            let from_ours = j >= theirs.len() || (i < ours.len() && ours[i].start
                <= theirs[j].start);
            let (start, end) = if from_ours {
                assert(sa[i0] == interval_of(ours@[i0]));
                let r = &ours[i];
                i += 1;
                (r.start, r.end)
            } else {
                assert(sb[j0] == interval_of(theirs@[j0]));
                let r = &theirs[j];
                j += 1;
                (r.start, r.end)
            };
            proof {
                let iv = (start as int, end as int);
                if i0 < sa.len() {
                    assert(sa[i0] == interval_of(ours@[i0]));
                    assert(0 <= sa[i0].0 < sa[i0].1);
                }
                if j0 < sb.len() {
                    assert(sb[j0] == interval_of(theirs@[j0]));
                    assert(0 <= sb[j0].0 < sb[j0].1);
                }
                lemma_absorbed(so, iv);
                if from_ours {
                    lemma_covered_take(sa, i0 + 1);
                    if i < ours.len() {
                        assert(sa[i0].1 < sa[i0 + 1].0);
                    }
                } else {
                    lemma_covered_take(sb, j0 + 1);
                    if j < theirs.len() {
                        assert(sb[j0].1 < sb[j0 + 1].0);
                    }
                }
                assert(covered(absorbed(so, iv)) =~= covered(sa.take(i as int)).union(
                    covered(sb.take(j as int)),
                ));
            }
            absorb(&mut out, start, end);
        }
        proof {
            assert(sa.take(i as int) =~= sa);
            assert(sb.take(j as int) =~= sb);
        }
        RangeSet::from_normalized(out)
    }
}

impl UnionMut<RangeSet> for RangeSet {
    /// Takes the positions of `other` into `self`.
    fn union_mut(&mut self, other: &RangeSet)
        ensures
            final(self).wf(),
            final(self)@ == old(self)@.union(other@),
    {
        let merged = self.union(other);
        *self = merged;
    }
}

impl RangeSet {
    /// The set of the positions of the given ranges, which may come in any
    /// order, overlap, touch or be empty.
    pub fn new(ranges: &[Range<usize>]) -> (r: RangeSet)
        ensures
            r.wf(),
            r@ == covered(intervals_of(ranges@)),
    {
        let ghost all = intervals_of(ranges@);
        let mut set = RangeSet::empty();
        let mut i: usize = 0;
        proof {
            assert(all.take(0) =~= Seq::<(int, int)>::empty());
            super::lemma_covered_empty();
        }
        while i < ranges.len()
            invariant
                i <= ranges.len(),
                all == intervals_of(ranges@),
                set.wf(),
                set@ == covered(all.take(i as int)),
            decreases ranges.len() - i,
        {
            let one = RangeSet::from_range(Range { start: ranges[i].start, end: ranges[i].end });
            proof {
                assert(all[i as int] == interval_of(ranges@[i as int]));
                lemma_covered_take(all, i + 1);
            }
            set = set.union(&one);
            i += 1;
        }
        proof {
            assert(all.take(i as int) =~= all);
        }
        set
    }
}

} // verus!
