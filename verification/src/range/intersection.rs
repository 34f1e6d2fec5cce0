//! Intersection of ranges and range sets.

use super::{
    covered, holds, intervals_of, lemma_beyond, lemma_same_positions, normalized, span_of, RangeSet,
};
use std::ops::Range;
use vstd::prelude::*;

verus! {

/// Set intersection.
pub trait Intersection<Rhs> {
    type Output;

    /// Returns the set intersection of `self` and `other`.
    fn intersection(&self, other: &Rhs) -> Self::Output;
}

/// The larger of two positions.
fn larger(a: usize, b: usize) -> (m: usize)
    ensures
        m == if a >= b { a } else { b },
{
    if a >= b {
        a
    } else {
        b
    }
}

/// The smaller of two positions.
fn smaller(a: usize, b: usize) -> (m: usize)
    ensures
        m == if a <= b { a } else { b },
{
    if a <= b {
        a
    } else {
        b
    }
}

impl Intersection<Range<usize>> for Range<usize> {
    type Output = Option<Range<usize>>;

    /// The overlap of two ranges, `None` where they share no position.
    fn intersection(&self, other: &Range<usize>) -> (r: Option<Range<usize>>)
        ensures
            match r {
                Some(both) => {
                    &&& both.start < both.end
                    &&& both.start == if self.start >= other.start { self.start } else { other.start }
                    &&& both.end == if self.end <= other.end { self.end } else { other.end }
                    &&& span_of(both.start as int, both.end as int) == span_of(
                        self.start as int,
                        self.end as int,
                    ).intersect(span_of(other.start as int, other.end as int))
                },
                None => span_of(self.start as int, self.end as int).intersect(
                    span_of(other.start as int, other.end as int),
                ) == Set::<int>::empty(),
            },
    {
        let start = larger(self.start, other.start);
        let end = smaller(self.end, other.end);
        proof {
            let both = span_of(self.start as int, self.end as int).intersect(
                span_of(other.start as int, other.end as int),
            );
            if start < end {
                assert(both =~= span_of(start as int, end as int));
            } else {
                assert(both =~= Set::<int>::empty());
            }
        }
        if start < end {
            Some(Range { start, end })
        } else {
            None
        }
    }
}

impl Intersection<RangeSet> for Range<usize> {
    type Output = RangeSet;

    /// The positions of the set that lie in the range.
    fn intersection(&self, other: &RangeSet) -> (r: RangeSet)
        ensures
            r.wf(),
            r@ == span_of(self.start as int, self.end as int).intersect(other@),
    {
        proof {
            use_type_invariant(other);
        }
        let theirs = other.ranges();
        let ghost sb = other.intervals();
        let mut out: Vec<Range<usize>> = Vec::new();
        let mut j: usize = 0;
        while j < theirs.len() && theirs[j].start < self.end
            invariant
                j <= theirs.len(),
                sb == intervals_of(theirs@),
                normalized(sb),
                normalized(intervals_of(out@)),
                forall|k: int|
                    0 <= k < out.len() && j < theirs.len() ==> (#[trigger] intervals_of(out@)[k]).1
                        < sb[j as int].0,
                forall|x: int| #[trigger]
                    covered(intervals_of(out@)).contains(x) ==> self.start <= x < self.end
                        && covered(sb).contains(x),
                forall|x: int|
                    self.start <= x < self.end && #[trigger] covered(sb).contains(x) ==> covered(
                        intervals_of(out@),
                    ).contains(x) || (j < theirs.len() && x >= sb[j as int].0),
            decreases theirs.len() - j,
        {
            let ghost so = intervals_of(out@);
            let b = &theirs[j];
            assert(sb[j as int] == (b.start as int, b.end as int));
            assert(0 <= sb[j as int].0 < sb[j as int].1);
            let start = larger(self.start, b.start);
            let end = smaller(self.end, b.end);
            if start < end {
                out.push(Range { start, end });
                proof {
                    let sn = intervals_of(out@);
                    let iv = (start as int, end as int);
                    assert(sn =~= so.push(iv));
                    super::lemma_covered_push(so, iv);
                    assert forall|p: int, q: int| 0 <= p < q < sn.len() implies (#[trigger] sn[p]).1
                        < (#[trigger] sn[q]).0 by {
                        if q == so.len() {
                            assert(so[p].1 < sb[j as int].0);
                        } else {
                            assert(so[p].1 < so[q].0);
                        }
                    }
                    assert forall|x: int| #[trigger]
                        covered(sn).contains(x) implies self.start <= x < self.end && covered(
                        sb,
                    ).contains(x) by {
                        if iv.0 <= x < iv.1 {
                            assert(holds(sb, j as int, x));
                        }
                    }
                }
            }
            proof {
                let sn = intervals_of(out@);
                assert forall|x: int|
                    self.start <= x < self.end && #[trigger] covered(sb).contains(x) implies covered(
                    sn,
                ).contains(x) || (j + 1 < theirs.len() && x >= sb[j + 1].0) by {
                    if !covered(so).contains(x) {
                        if x < b.end {
                            assert(start <= x < end);
                            assert(holds(sn, so.len() as int, x));
                        } else {
                            lemma_beyond(sb, j as int, x);
                        }
                    } else if start < end {
                        super::lemma_covered_push(so, (start as int, end as int));
                    }
                }
                assert forall|k: int| 0 <= k < out.len() && j + 1 < theirs.len() implies (
                #[trigger] sn[k]).1 < sb[j + 1].0 by {
                    assert(sb[j as int].1 < sb[j + 1].0);
                    if k < so.len() {
                        assert(so[k].1 < sb[j as int].0);
                    }
                }
            }
            j += 1;
        }
        proof {
            let so = intervals_of(out@);
            assert forall|x: int|
                self.start <= x < self.end && covered(sb).contains(x) implies covered(so).contains(
                x,
            ) by {
                if !covered(so).contains(x) {
                    // Then the sweep stopped at a range that starts at or after `self.end`.
                    assert(j < theirs.len() && x >= sb[j as int].0);
                }
            }
            assert(covered(so) =~= span_of(self.start as int, self.end as int).intersect(
                covered(sb),
            ));
        }
        RangeSet::from_normalized(out)
    }
}

impl Intersection<Range<usize>> for RangeSet {
    type Output = RangeSet;

    /// The positions of the set that lie in the range.
    fn intersection(&self, other: &Range<usize>) -> (r: RangeSet)
        ensures
            r.wf(),
            r@ == self@.intersect(span_of(other.start as int, other.end as int)),
    {
        let r = other.intersection(self);
        assert(r@ =~= self@.intersect(span_of(other.start as int, other.end as int)));
        r
    }
}

/// A range and a set have one intersection, whichever of the two is asked
/// for it: both answers have the same ranges.
pub proof fn lemma_intersection_symmetric(
    range: Range<usize>,
    set: RangeSet,
    of_range: RangeSet,
    of_set: RangeSet,
)
    requires
        of_range.wf(),
        of_set.wf(),
        of_range@ == span_of(range.start as int, range.end as int).intersect(set@),
        of_set@ == set@.intersect(span_of(range.start as int, range.end as int)),
    ensures
        of_range.intervals() == of_set.intervals(),
{
    assert(of_range@ =~= of_set@);
    lemma_same_positions(of_range, of_set);
}

impl Intersection<RangeSet> for RangeSet {
    type Output = RangeSet;

    /// The positions that both sets hold.
    fn intersection(&self, other: &RangeSet) -> (r: RangeSet)
        ensures
            r.wf(),
            r@ == self@.intersect(other@),
    {
        proof {
            use_type_invariant(self);
            use_type_invariant(other);
        }
        let ours = self.ranges();
        let theirs = other.ranges();
        let ghost sa = self.intervals();
        let ghost sb = other.intervals();
        let mut out: Vec<Range<usize>> = Vec::new();
        let mut i: usize = 0;
        let mut j: usize = 0;
        while i < ours.len() && j < theirs.len()
            invariant
                i <= ours.len(),
                j <= theirs.len(),
                sa == intervals_of(ours@),
                sb == intervals_of(theirs@),
                normalized(sa),
                normalized(sb),
                normalized(intervals_of(out@)),
                forall|k: int|
                    0 <= k < out.len() && i < ours.len() && j < theirs.len() ==> (
                    #[trigger] intervals_of(out@)[k]).1 < sa[i as int].0 || intervals_of(out@)[k].1
                        < sb[j as int].0,
                forall|x: int| #[trigger]
                    covered(intervals_of(out@)).contains(x) ==> covered(sa).contains(x) && covered(
                        sb,
                    ).contains(x),
                forall|x: int|
                    #[trigger] covered(sa).contains(x) && covered(sb).contains(x) ==> covered(
                        intervals_of(out@),
                    ).contains(x) || (i < ours.len() && j < theirs.len() && x >= sa[i as int].0 && x
                        >= sb[j as int].0),
            decreases (ours.len() - i) + (theirs.len() - j),
        {
            let ghost so = intervals_of(out@);
            let a = &ours[i];
            let b = &theirs[j];
            assert(sa[i as int] == (a.start as int, a.end as int));
            assert(sb[j as int] == (b.start as int, b.end as int));
            assert(0 <= sa[i as int].0 < sa[i as int].1);
            assert(0 <= sb[j as int].0 < sb[j as int].1);
            let ghost i0 = i as int;
            let ghost j0 = j as int;
            if a.end <= b.start {
                // `a` is leftward of `b`.
                i += 1;
            } else if b.end <= a.start {
                // `b` is leftward of `a`.
                j += 1;
            } else {
                let start = larger(a.start, b.start);
                let end = smaller(a.end, b.end);
                out.push(Range { start, end });
                proof {
                    let sn = intervals_of(out@);
                    let iv = (start as int, end as int);
                    assert(sn =~= so.push(iv));
                    super::lemma_covered_push(so, iv);
                    assert forall|p: int, q: int| 0 <= p < q < sn.len() implies (#[trigger] sn[p]).1
                        < (#[trigger] sn[q]).0 by {
                        if q == so.len() {
                            assert(so[p].1 < sa[i0].0 || so[p].1 < sb[j0].0);
                        } else {
                            assert(so[p].1 < so[q].0);
                        }
                    }
                    assert forall|x: int| #[trigger]
                        covered(sn).contains(x) implies covered(sa).contains(x) && covered(
                        sb,
                    ).contains(x) by {
                        if iv.0 <= x < iv.1 {
                            assert(holds(sa, i0, x));
                            assert(holds(sb, j0, x));
                        }
                    }
                }
                if a.end <= b.end {
                    i += 1;
                }
                if b.end <= a.end {
                    j += 1;
                }
            }
            proof {
                let sn = intervals_of(out@);
                assert forall|x: int|
                    #[trigger] covered(sa).contains(x) && covered(sb).contains(x) implies covered(
                    sn,
                ).contains(x) || (i < ours.len() && j < theirs.len() && x >= sa[i as int].0 && x
                    >= sb[j as int].0) by {
                    if covered(so).contains(x) {
                        if sn.len() > so.len() {
                            super::lemma_covered_push(so, sn[so.len() as int]);
                        }
                    } else {
                        assert(x >= sa[i0].0 && x >= sb[j0].0);
                        if sn.len() > so.len() && x < sn[so.len() as int].1 {
                            assert(holds(sn, so.len() as int, x));
                        } else {
                            if i > i0 {
                                lemma_beyond(sa, i0, x);
                            }
                            if j > j0 {
                                lemma_beyond(sb, j0, x);
                            }
                        }
                    }
                }
                assert forall|k: int|
                    0 <= k < out.len() && i < ours.len() && j < theirs.len() implies (
                #[trigger] sn[k]).1 < sa[i as int].0 || sn[k].1 < sb[j as int].0 by {
                    if i > i0 {
                        assert(sa[i0].1 < sa[i as int].0);
                    }
                    if j > j0 {
                        assert(sb[j0].1 < sb[j as int].0);
                    }
                    if k < so.len() {
                        assert(so[k].1 < sa[i0].0 || so[k].1 < sb[j0].0);
                    }
                }
            }
        }
        proof {
            assert(covered(intervals_of(out@)) =~= covered(sa).intersect(covered(sb)));
        }
        RangeSet::from_normalized(out)
    }
}

impl core::ops::BitAnd<RangeSet> for Range<usize> {
    type Output = RangeSet;

    /// The positions that both hold.
    fn bitand(self, other: RangeSet) -> (r: RangeSet)
        ensures
            r.wf(),
            r@ == span_of(self.start as int, self.end as int).intersect(other@),
    {
        self.intersection(&other)
    }
}

/// What `&` returns is said by the `ensures` of `bitand`, not by a spec
/// function.
impl vstd::std_specs::ops::BitAndSpecImpl<RangeSet> for Range<usize> {
    open spec fn obeys_bitand_spec() -> bool {
        false
    }

    open spec fn bitand_req(self, other: RangeSet) -> bool {
        true
    }

    open spec fn bitand_spec(self, other: RangeSet) -> RangeSet {
        arbitrary()
    }
}

impl core::ops::BitAnd<&RangeSet> for Range<usize> {
    type Output = RangeSet;

    /// The positions that both hold.
    fn bitand(self, other: &RangeSet) -> (r: RangeSet)
        ensures
            r.wf(),
            r@ == span_of(self.start as int, self.end as int).intersect(other@),
    {
        self.intersection(other)
    }
}

/// What `&` returns is said by the `ensures` of `bitand`, not by a spec
/// function.
impl vstd::std_specs::ops::BitAndSpecImpl<&RangeSet> for Range<usize> {
    open spec fn obeys_bitand_spec() -> bool {
        false
    }

    open spec fn bitand_req(self, other: &RangeSet) -> bool {
        true
    }

    open spec fn bitand_spec(self, other: &RangeSet) -> RangeSet {
        arbitrary()
    }
}

impl core::ops::BitAnd<Range<usize>> for RangeSet {
    type Output = RangeSet;

    /// The positions that both hold.
    fn bitand(self, other: Range<usize>) -> (r: RangeSet)
        ensures
            r.wf(),
            r@ == self@.intersect(span_of(other.start as int, other.end as int)),
    {
        other.intersection(&self)
    }
}

/// What `&` returns is said by the `ensures` of `bitand`, not by a spec
/// function.
impl vstd::std_specs::ops::BitAndSpecImpl<Range<usize>> for RangeSet {
    open spec fn obeys_bitand_spec() -> bool {
        false
    }

    open spec fn bitand_req(self, other: Range<usize>) -> bool {
        true
    }

    open spec fn bitand_spec(self, other: Range<usize>) -> RangeSet {
        arbitrary()
    }
}

impl core::ops::BitAnd<&Range<usize>> for RangeSet {
    type Output = RangeSet;

    /// The positions that both hold.
    fn bitand(self, other: &Range<usize>) -> (r: RangeSet)
        ensures
            r.wf(),
            r@ == self@.intersect(span_of(other.start as int, other.end as int)),
    {
        other.intersection(&self)
    }
}

/// What `&` returns is said by the `ensures` of `bitand`, not by a spec
/// function.
impl vstd::std_specs::ops::BitAndSpecImpl<&Range<usize>> for RangeSet {
    open spec fn obeys_bitand_spec() -> bool {
        false
    }

    open spec fn bitand_req(self, other: &Range<usize>) -> bool {
        true
    }

    open spec fn bitand_spec(self, other: &Range<usize>) -> RangeSet {
        arbitrary()
    }
}

impl core::ops::BitAnd<RangeSet> for RangeSet {
    type Output = RangeSet;

    /// The positions that both hold.
    fn bitand(self, other: RangeSet) -> (r: RangeSet)
        ensures
            r.wf(),
            r@ == self@.intersect(other@),
    {
        self.intersection(&other)
    }
}

/// What `&` returns is said by the `ensures` of `bitand`, not by a spec
/// function.
impl vstd::std_specs::ops::BitAndSpecImpl<RangeSet> for RangeSet {
    open spec fn obeys_bitand_spec() -> bool {
        false
    }

    open spec fn bitand_req(self, other: RangeSet) -> bool {
        true
    }

    open spec fn bitand_spec(self, other: RangeSet) -> RangeSet {
        arbitrary()
    }
}

impl core::ops::BitAnd<&RangeSet> for RangeSet {
    type Output = RangeSet;

    /// The positions that both hold.
    fn bitand(self, other: &RangeSet) -> (r: RangeSet)
        ensures
            r.wf(),
            r@ == self@.intersect(other@),
    {
        self.intersection(other)
    }
}

/// What `&` returns is said by the `ensures` of `bitand`, not by a spec
/// function.
impl vstd::std_specs::ops::BitAndSpecImpl<&RangeSet> for RangeSet {
    open spec fn obeys_bitand_spec() -> bool {
        false
    }

    open spec fn bitand_req(self, other: &RangeSet) -> bool {
        true
    }

    open spec fn bitand_spec(self, other: &RangeSet) -> RangeSet {
        arbitrary()
    }
}

impl core::ops::BitAndAssign<&RangeSet> for RangeSet {
    /// Keeps the positions that `other` holds too.
    fn bitand_assign(&mut self, other: &RangeSet)
        ensures
            final(self).wf(),
            final(self)@ == old(self)@.intersect(other@),
    {
        let both = self.intersection(other);
        *self = both;
    }
}

impl core::ops::BitAndAssign<RangeSet> for RangeSet {
    /// Keeps the positions that `other` holds too.
    fn bitand_assign(&mut self, other: RangeSet)
        ensures
            final(self).wf(),
            final(self)@ == old(self)@.intersect(other@),
    {
        let both = self.intersection(&other);
        *self = both;
    }
}

impl core::ops::BitAndAssign<&Range<usize>> for RangeSet {
    /// Keeps the positions that lie in `other`.
    fn bitand_assign(&mut self, other: &Range<usize>)
        ensures
            final(self).wf(),
            final(self)@ == old(self)@.intersect(span_of(other.start as int, other.end as int)),
    {
        let both = self.intersection(other);
        *self = both;
    }
}

impl core::ops::BitAndAssign<Range<usize>> for RangeSet {
    /// Keeps the positions that lie in `other`.
    fn bitand_assign(&mut self, other: Range<usize>)
        ensures
            final(self).wf(),
            final(self)@ == old(self)@.intersect(span_of(other.start as int, other.end as int)),
    {
        let both = self.intersection(&other);
        *self = both;
    }
}

} // verus!
