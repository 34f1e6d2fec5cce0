//! Difference of range sets.

use super::{covered, holds, interval_of, intervals_of, lemma_beyond, lemma_covered_push, normalized, RangeSet};
use std::ops::Range;
use vstd::prelude::*;

verus! {

/// Set difference.
pub trait Difference<Rhs> {
    type Output;

    /// Returns the positions of `self` that `other` does not hold.
    fn difference(&self, other: &Rhs) -> Self::Output;
}

impl Difference<RangeSet> for RangeSet {
    type Output = RangeSet;

    /// The positions of `self` that `other` does not hold. Each range of
    /// `self` loses what `other` covers of it, and leaves the pieces between.
    fn difference(&self, other: &RangeSet) -> (r: RangeSet)
        ensures
            r.wf(),
            r@ == self@.difference(other@),
    {
        proof {
            use_type_invariant(self);
            use_type_invariant(other);
        }
        let ours = self.ranges();
        let theirs = other.ranges();
        let ghost sa = self.intervals();
        let ghost sb = other.intervals();
        let mut out: Vec<Range<usize>> = Vec::new();
        let mut i: usize = 0;
        let mut j: usize = 0;
        while i < ours.len()
            invariant
                i <= ours.len(),
                j <= theirs.len(),
                sa == intervals_of(ours@),
                sb == intervals_of(theirs@),
                normalized(sa),
                normalized(sb),
                normalized(intervals_of(out@)),
                forall|k: int|
                    0 <= k < out.len() && i < ours.len() ==> (#[trigger] intervals_of(out@)[k]).1
                        < sa[i as int].0,
                forall|k: int|
                    0 <= k < j && i < ours.len() ==> (#[trigger] sb[k]).1 <= sa[i as int].0,
                forall|x: int| #[trigger]
                    covered(intervals_of(out@)).contains(x) ==> covered(sa).contains(x) && !covered(
                        sb,
                    ).contains(x),
                forall|x: int|
                    #[trigger] covered(sa).contains(x) && !covered(sb).contains(x) ==> covered(
                        intervals_of(out@),
                    ).contains(x) || (i < ours.len() && x >= sa[i as int].0),
            decreases ours.len() - i,
        {
            let ghost i0 = i as int;
            assert(sa[i0] == interval_of(ours@[i0]));
            assert(0 <= sa[i0].0 < sa[i0].1);
            let mut start = ours[i].start;
            let end = ours[i].end;
            while j < theirs.len() && start < end && theirs[j].start < end
                invariant
                    i == i0,
                    i < ours.len(),
                    j <= theirs.len(),
                    sa == intervals_of(ours@),
                    sb == intervals_of(theirs@),
                    normalized(sa),
                    normalized(sb),
                    normalized(intervals_of(out@)),
                    sa[i0].0 <= start <= end == sa[i0].1,
                    forall|k: int| 0 <= k < out.len() ==> (#[trigger] intervals_of(out@)[k]).1 < start,
                    forall|k: int| 0 <= k < j ==> (#[trigger] sb[k]).1 <= start,
                    forall|x: int| #[trigger]
                        covered(intervals_of(out@)).contains(x) ==> covered(sa).contains(x)
                            && !covered(sb).contains(x),
                    forall|x: int|
                        #[trigger] covered(sa).contains(x) && !covered(sb).contains(x) ==> covered(
                            intervals_of(out@),
                        ).contains(x) || x >= start,
                decreases (theirs.len() - j) + (end - start),
            {
                let ghost so = intervals_of(out@);
                let ghost j0 = j as int;
                let ghost start0 = start as int;
                let b = &theirs[j];
                assert(sb[j0] == interval_of(theirs@[j0]));
                assert(0 <= sb[j0].0 < sb[j0].1);
                if b.end <= start {
                    j += 1;
                } else {
                    if start < b.start {
                        out.push(Range { start, end: b.start });
                        proof {
                            let iv = (start0, b.start as int);
                            let sn = intervals_of(out@);
                            assert(sn =~= so.push(iv));
                            lemma_covered_push(so, iv);
                            assert forall|p: int, q: int| 0 <= p < q < sn.len() implies (
                            #[trigger] sn[p]).1 < (#[trigger] sn[q]).0 by {
                                if q == so.len() {
                                    assert(so[p].1 < start0);
                                } else {
                                    assert(so[p].1 < so[q].0);
                                }
                            }
                            assert forall|x: int| #[trigger]
                                covered(sn).contains(x) implies covered(sa).contains(x) && !covered(
                                sb,
                            ).contains(x) by {
                                if iv.0 <= x < iv.1 {
                                    assert(holds(sa, i0, x));
                                    if covered(sb).contains(x) {
                                        let k = choose|k: int| holds(sb, k, x);
                                        if k < j0 {
                                            assert(sb[k].1 <= start0);
                                        } else if k > j0 {
                                            assert(sb[j0].1 < sb[k].0);
                                        }
                                    }
                                }
                            }
                        }
                    }
                    if b.end < end {
                        start = b.end;
                        j += 1;
                    } else {
                        start = end;
                    }
                }
                proof {
                    let sn = intervals_of(out@);
                    assert forall|k: int| 0 <= k < j implies (#[trigger] sb[k]).1 <= start by {
                        if k < j0 {
                            assert(sb[k].1 <= start0);
                        }
                    }
                    assert forall|k: int| 0 <= k < out.len() implies (#[trigger] sn[k]).1 < start by {
                        if k < so.len() {
                            assert(so[k].1 < start0);
                        }
                    }
                    assert forall|x: int|
                        #[trigger] covered(sa).contains(x) && !covered(sb).contains(x) implies covered(
                        sn,
                    ).contains(x) || x >= start by {
                        if covered(so).contains(x) {
                            if sn.len() > so.len() {
                                lemma_covered_push(so, sn[so.len() as int]);
                            }
                        } else if x < start {
                            assert(x >= start0);
                            if x < sb[j0].0 {
                                assert(holds(sn, so.len() as int, x));
                            } else {
                                assert(holds(sb, j0, x));
                            }
                        }
                    }
                }
            }
            let ghost so = intervals_of(out@);
            if start < end {
                out.push(Range { start, end });
                proof {
                    let iv = (start as int, end as int);
                    let sn = intervals_of(out@);
                    assert(sn =~= so.push(iv));
                    lemma_covered_push(so, iv);
                    assert forall|p: int, q: int| 0 <= p < q < sn.len() implies (#[trigger] sn[p]).1
                        < (#[trigger] sn[q]).0 by {
                        if q == so.len() {
                            assert(so[p].1 < start);
                        } else {
                            assert(so[p].1 < so[q].0);
                        }
                    }
                    assert forall|x: int| #[trigger]
                        covered(sn).contains(x) implies covered(sa).contains(x) && !covered(
                        sb,
                    ).contains(x) by {
                        if iv.0 <= x < iv.1 {
                            assert(holds(sa, i0, x));
                            if covered(sb).contains(x) {
                                let k = choose|k: int| holds(sb, k, x);
                                if k < j {
                                    assert(sb[k].1 <= start);
                                } else if k > j {
                                    assert(sb[j as int].1 < sb[k].0);
                                }
                            }
                        }
                    }
                }
            }
            i += 1;
            proof {
                let sn = intervals_of(out@);
                if i < ours.len() {
                    assert(sa[i0].1 < sa[i0 + 1].0);
                }
                assert forall|k: int| 0 <= k < out.len() && i < ours.len() implies (
                #[trigger] sn[k]).1 < sa[i as int].0 by {
                    if k < so.len() {
                        assert(so[k].1 < start);
                    }
                }
                assert forall|k: int| 0 <= k < j && i < ours.len() implies (#[trigger] sb[k]).1
                    <= sa[i as int].0 by {
                    assert(sb[k].1 <= start);
                }
                assert forall|x: int|
                    #[trigger] covered(sa).contains(x) && !covered(sb).contains(x) implies covered(
                    sn,
                ).contains(x) || (i < ours.len() && x >= sa[i as int].0) by {
                    if covered(so).contains(x) {
                        if sn.len() > so.len() {
                            lemma_covered_push(so, sn[so.len() as int]);
                        }
                    } else if x < end {
                        assert(x >= start);
                        assert(holds(sn, so.len() as int, x));
                    } else {
                        lemma_beyond(sa, i0, x);
                    }
                }
            }
        }
        proof {
            assert(covered(intervals_of(out@)) =~= covered(sa).difference(covered(sb)));
        }
        RangeSet::from_normalized(out)
    }
}

} // verus!
