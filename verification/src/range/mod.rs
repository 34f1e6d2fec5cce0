//! Sets of byte positions, held as sorted, separated, non-empty ranges.
//!
//! A [`RangeSet`] is modelled twice: by the positions it contains (its view,
//! a `Set<int>`) and by its list of intervals. The list is canonical, so the
//! two models determine each other; [`lemma_canonical`] states it.

pub mod difference;
pub mod intersection;
pub mod union;

use std::ops::Range;
use vstd::prelude::*;

verus! {

/// The integers of the half-open interval `[lo, hi)`.
pub open spec fn span_of(lo: int, hi: int) -> Set<int> {
    Set::new(|x: int| lo <= x < hi)
}

/// Whether position `x` lies in the `k`-th interval of `s`.
pub open spec fn holds(s: Seq<(int, int)>, k: int, x: int) -> bool {
    0 <= k < s.len() && s[k].0 <= x < s[k].1
}

/// The positions covered by a list of half-open intervals, in any order.
pub open spec fn covered(s: Seq<(int, int)>) -> Set<int> {
    Set::new(|x: int| exists|k: int| holds(s, k, x))
}

/// The canonical form: no interval is empty, and each one ends strictly before
/// the next begins, so the list is sorted and nothing touches or overlaps.
pub open spec fn normalized(s: Seq<(int, int)>) -> bool {
    &&& forall|k: int| 0 <= k < s.len() ==> 0 <= (#[trigger] s[k]).0 < s[k].1
    &&& forall|i: int, j: int| 0 <= i < j < s.len() ==> (#[trigger] s[i]).1 < (#[trigger] s[j]).0
}

/// The end of the last interval of a canonical list, 0 for the empty list.
pub open spec fn upper(s: Seq<(int, int)>) -> int {
    if s.len() == 0 {
        0
    } else {
        s.last().1
    }
}

/// Every interval moved up by `delta`.
pub open spec fn shifted(s: Seq<(int, int)>, delta: int) -> Seq<(int, int)> {
    Seq::new(s.len(), |k: int| (s[k].0 + delta, s[k].1 + delta))
}

/// The interval that a range denotes.
pub open spec fn interval_of(r: Range<usize>) -> (int, int) {
    (r.start as int, r.end as int)
}

/// The intervals that a list of ranges denotes, in the same order.
pub open spec fn intervals_of(v: Seq<Range<usize>>) -> Seq<(int, int)> {
    Seq::new(v.len(), |k: int| interval_of(v[k]))
}

/// Covering is additive: one more interval adds exactly its positions.
pub proof fn lemma_covered_push(s: Seq<(int, int)>, iv: (int, int))
    ensures
        covered(s.push(iv)) == covered(s).union(span_of(iv.0, iv.1)),
{
    let t = s.push(iv);
    assert forall|x: int| covered(t).contains(x) <==> (covered(s).contains(x) || iv.0 <= x
        < iv.1) by {
        if covered(t).contains(x) {
            let k = choose|k: int| holds(t, k, x);
            if k < s.len() {
                assert(holds(s, k, x));
            }
        }
        if covered(s).contains(x) {
            let k = choose|k: int| holds(s, k, x);
            assert(holds(t, k, x));
        }
        if iv.0 <= x < iv.1 {
            assert(holds(t, s.len() as int, x));
        }
    }
    assert(covered(t) =~= covered(s).union(span_of(iv.0, iv.1)));
}

/// The empty list covers nothing.
pub proof fn lemma_covered_empty()
    ensures
        covered(Seq::<(int, int)>::empty()) == Set::<int>::empty(),
{
    assert(covered(Seq::<(int, int)>::empty()) =~= Set::<int>::empty());
}

/// In a canonical list, a covered position at or past the end of interval `i`
/// lies at or past the start of interval `i + 1`, which therefore exists.
pub proof fn lemma_beyond(s: Seq<(int, int)>, i: int, x: int)
    requires
        normalized(s),
        0 <= i < s.len(),
        covered(s).contains(x),
        x >= s[i].1,
    ensures
        i + 1 < s.len(),
        x >= s[i + 1].0,
{
    let k = choose|k: int| holds(s, k, x);
    if k < i {
        assert(s[k].1 < s[i].0);
    }
    if k > i + 1 {
        assert(s[i + 1].1 < s[k].0);
    }
}

/// In a canonical list, every covered position lies in `[s[0].0, upper(s))`.
pub proof fn lemma_bounds(s: Seq<(int, int)>, x: int)
    requires
        normalized(s),
        covered(s).contains(x),
    ensures
        s.len() > 0,
        s[0].0 <= x < upper(s),
{
    let k = choose|k: int| holds(s, k, x);
    if 0 < k {
        assert(s[0].1 < s[k].0);
    }
    if k < s.len() - 1 {
        assert(s[k].1 < s[s.len() - 1].0);
    }
}

/// Two canonical lists that cover the same positions are the same list.
pub proof fn lemma_canonical(s: Seq<(int, int)>, t: Seq<(int, int)>)
    requires
        normalized(s),
        normalized(t),
        covered(s) == covered(t),
    ensures
        s == t,
    decreases s.len(),
{
    if s.len() == 0 {
        if t.len() > 0 {
            assert(holds(t, 0, t[0].0));
            assert(covered(t).contains(t[0].0));
            lemma_bounds(s, t[0].0);
        }
        assert(s =~= t);
    } else {
        assert(holds(s, 0, s[0].0));
        assert(covered(s).contains(s[0].0));
        lemma_bounds(t, s[0].0);
        assert(holds(t, 0, t[0].0));
        assert(covered(t).contains(t[0].0));
        lemma_bounds(s, t[0].0);
        assert(s[0].0 == t[0].0);
        if s[0].1 < t[0].1 {
            assert(holds(t, 0, s[0].1));
            assert(covered(s).contains(s[0].1));
            lemma_beyond(s, 0, s[0].1);
        }
        if t[0].1 < s[0].1 {
            assert(holds(s, 0, t[0].1));
            assert(covered(t).contains(t[0].1));
            lemma_beyond(t, 0, t[0].1);
        }
        assert(s[0] == t[0]);
        let s1 = s.drop_first();
        let t1 = t.drop_first();
        assert forall|x: int| covered(s1).contains(x) <==> covered(t1).contains(x) by {
            if covered(s1).contains(x) {
                let k = choose|k: int| holds(s1, k, x);
                assert(holds(s, k + 1, x));
                assert(s[0].1 < s[k + 1].0);
                assert(covered(t).contains(x));
                let m = choose|m: int| holds(t, m, x);
                assert(holds(t1, m - 1, x));
            }
            if covered(t1).contains(x) {
                let k = choose|k: int| holds(t1, k, x);
                assert(holds(t, k + 1, x));
                assert(t[0].1 < t[k + 1].0);
                assert(covered(s).contains(x));
                let m = choose|m: int| holds(s, m, x);
                assert(holds(s1, m - 1, x));
            }
        }
        assert(covered(s1) =~= covered(t1));
        assert(normalized(s1)) by {
            assert forall|i: int, j: int| 0 <= i < j < s1.len() implies (#[trigger] s1[i]).1 < (
            #[trigger] s1[j]).0 by {
                assert(s[i + 1].1 < s[j + 1].0);
            }
        }
        assert(normalized(t1)) by {
            assert forall|i: int, j: int| 0 <= i < j < t1.len() implies (#[trigger] t1[i]).1 < (
            #[trigger] t1[j]).0 by {
                assert(t[i + 1].1 < t[j + 1].0);
            }
        }
        lemma_canonical(s1, t1);
        assert(s =~= seq![s[0]] + s1);
        assert(t =~= seq![t[0]] + t1);
    }
}

/// A range set is settled by the positions it holds: two sets that hold the
/// same positions have the same ranges.
pub proof fn lemma_same_positions(a: RangeSet, b: RangeSet)
    requires
        a.wf(),
        b.wf(),
        a@ == b@,
    ensures
        a.intervals() == b.intervals(),
{
    lemma_canonical(a.intervals(), b.intervals());
}

/// Moving a list up by `a` and then by `b` is moving it up by `a + b`.
pub proof fn lemma_shifted_twice(s: Seq<(int, int)>, a: int, b: int)
    ensures
        shifted(shifted(s, a), b) == shifted(s, a + b),
{
    assert(shifted(shifted(s, a), b) =~= shifted(s, a + b));
}

/// Moving a list up moves the positions it covers, and keeps it canonical.
pub proof fn lemma_shifted(s: Seq<(int, int)>, delta: int)
    requires
        0 <= delta,
    ensures
        normalized(s) ==> normalized(shifted(s, delta)),
        upper(shifted(s, delta)) == if s.len() == 0 { 0 } else { upper(s) + delta },
        forall|x: int| covered(shifted(s, delta)).contains(x) <==> covered(s).contains(x - delta),
{
    let t = shifted(s, delta);
    if normalized(s) {
        assert forall|i: int, j: int| 0 <= i < j < t.len() implies (#[trigger] t[i]).1 < (
        #[trigger] t[j]).0 by {
            assert(s[i].1 < s[j].0);
        }
        assert forall|k: int| 0 <= k < t.len() implies 0 <= (#[trigger] t[k]).0 < t[k].1 by {
            assert(0 <= s[k].0 < s[k].1);
        }
    }
    assert forall|x: int| covered(t).contains(x) <==> covered(s).contains(x - delta) by {
        if covered(t).contains(x) {
            let k = choose|k: int| holds(t, k, x);
            assert(holds(s, k, x - delta));
        }
        let y = x - delta;
        if covered(s).contains(y) {
            let k = choose|k: int| holds(s, k, y);
            assert(holds(t, k, x));
        }
    }
}

/// A set of positions in canonical form.
#[derive(Debug, PartialEq, Eq)]
pub struct RangeSet {
    ranges: Vec<Range<usize>>,
}

impl View for RangeSet {
    type V = Set<int>;

    open spec fn view(&self) -> Set<int> {
        covered(self.intervals())
    }
}

impl Clone for RangeSet {
    fn clone(&self) -> (r: RangeSet)
        ensures
            r.wf(),
            r.intervals() == self.intervals(),
    {
        proof {
            use_type_invariant(self);
        }
        let mut ranges: Vec<Range<usize>> = Vec::new();
        let mut i: usize = 0;
        while i < self.ranges.len()
            invariant
                i <= self.ranges.len(),
                ranges.len() == i,
                forall|k: int| 0 <= k < i ==> ranges@[k] == self.ranges@[k],
            decreases self.ranges.len() - i,
        {
            ranges.push(Range { start: self.ranges[i].start, end: self.ranges[i].end });
            i += 1;
        }
        assert(ranges@ =~= self.ranges@);
        RangeSet { ranges }
    }
}

impl From<Vec<Range<usize>>> for RangeSet {
    /// The set of the positions of the given ranges, in any order.
    fn from(ranges: Vec<Range<usize>>) -> (r: RangeSet)
        ensures
            r.wf(),
            r@ == covered(intervals_of(ranges@)),
    {
        RangeSet::new(ranges.as_slice())
    }
}

/// What `from` returns is said by its own `ensures`, not by a spec function.
impl vstd::std_specs::convert::FromSpecImpl<Vec<Range<usize>>> for RangeSet {
    open spec fn obeys_from_spec() -> bool {
        false
    }

    open spec fn from_spec(ranges: Vec<Range<usize>>) -> RangeSet {
        arbitrary()
    }
}

impl From<Range<usize>> for RangeSet {
    /// The set of the positions of one range.
    fn from(range: Range<usize>) -> (r: RangeSet)
        ensures
            r.wf(),
            r@ == span_of(range.start as int, range.end as int),
    {
        RangeSet::from_range(range)
    }
}

/// What `from` returns is said by its own `ensures`, not by a spec function.
impl vstd::std_specs::convert::FromSpecImpl<Range<usize>> for RangeSet {
    open spec fn obeys_from_spec() -> bool {
        false
    }

    open spec fn from_spec(range: Range<usize>) -> RangeSet {
        arbitrary()
    }
}

impl Default for RangeSet {
    fn default() -> (r: RangeSet)
        ensures
            r.wf(),
            r.intervals() == Seq::<(int, int)>::empty(),
            r@ == Set::<int>::empty(),
    {
        RangeSet::empty()
    }
}

impl RangeSet {
    /// The intervals of the set, in ascending order.
    pub closed spec fn intervals(&self) -> Seq<(int, int)> {
        intervals_of(self.ranges@)
    }

    /// The invariant of the type: the intervals are canonical and fit `usize`.
    pub open spec fn wf(&self) -> bool {
        &&& normalized(self.intervals())
        &&& upper(self.intervals()) <= usize::MAX
    }

    /// What holds of every value of the type.
    #[verifier::type_invariant]
    pub open spec fn inv(&self) -> bool {
        self.wf()
    }

    /// Wraps a list of ranges that is already canonical.
    pub(crate) fn from_normalized(ranges: Vec<Range<usize>>) -> (r: RangeSet)
        requires
            normalized(intervals_of(ranges@)),
        ensures
            r.wf(),
            r.intervals() == intervals_of(ranges@),
    {
        RangeSet { ranges }
    }

    /// The ranges of the set, in ascending order.
    pub fn ranges(&self) -> (r: &[Range<usize>])
        ensures
            self.wf(),
            intervals_of(r@) == self.intervals(),
    {
        proof {
            use_type_invariant(self);
        }
        self.ranges.as_slice()
    }

    /// The empty set.
    pub fn empty() -> (r: RangeSet)
        ensures
            r.wf(),
            r.intervals() == Seq::<(int, int)>::empty(),
            r@ == Set::<int>::empty(),
    {
        let r = RangeSet { ranges: Vec::new() };
        assert(r.intervals() =~= Seq::<(int, int)>::empty());
        assert(r@ =~= Set::<int>::empty());
        r
    }

    /// The set of the positions of one range; empty where the range is.
    pub fn from_range(range: Range<usize>) -> (r: RangeSet)
        ensures
            r.wf(),
            r@ == span_of(range.start as int, range.end as int),
            r.intervals() == if range.start < range.end {
                seq![(range.start as int, range.end as int)]
            } else {
                Seq::<(int, int)>::empty()
            },
    {
        let mut ranges: Vec<Range<usize>> = Vec::new();
        if range.start < range.end {
            ranges.push(Range { start: range.start, end: range.end });
        }
        let r = RangeSet { ranges };
        proof {
            let s = r.intervals();
            if range.start < range.end {
                assert(s =~= seq![(range.start as int, range.end as int)]);
                assert forall|x: int| covered(s).contains(x) <==> range.start <= x < range.end by {
                    if range.start <= x < range.end {
                        assert(holds(s, 0, x));
                    }
                }
            } else {
                assert(s =~= Seq::<(int, int)>::empty());
            }
            assert(r@ =~= span_of(range.start as int, range.end as int));
        }
        r
    }

    /// The number of ranges.
    pub fn len(&self) -> (n: usize)
        ensures
            n == self.intervals().len(),
    {
        self.ranges.len()
    }

    /// Whether the set holds no position.
    pub fn is_empty(&self) -> (b: bool)
        ensures
            b == (self.intervals().len() == 0),
            b == (self@ == Set::<int>::empty()),
    {
        proof {
            use_type_invariant(self);
            let s = self.intervals();
            if s.len() == 0 {
                assert(self@ =~= Set::<int>::empty());
            } else {
                assert(holds(s, 0, s[0].0));
                assert(self@.contains(s[0].0));
            }
        }
        self.ranges.len() == 0
    }

    /// Whether the set holds position `pos`.
    pub fn contains(&self, pos: usize) -> (b: bool)
        ensures
            b == self@.contains(pos as int),
    {
        let mut i: usize = 0;
        while i < self.ranges.len()
            invariant
                i <= self.ranges.len(),
                forall|k: int| 0 <= k < i ==> !holds(self.intervals(), k, pos as int),
            decreases self.ranges.len() - i,
        {
            if self.ranges[i].start <= pos && pos < self.ranges[i].end {
                assert(holds(self.intervals(), i as int, pos as int));
                return true;
            }
            i += 1;
        }
        false
    }

    /// Moves every position up by `delta`.
    pub fn shift(&mut self, delta: usize)
        requires
            upper(old(self).intervals()) + delta <= usize::MAX,
        ensures
            final(self).wf(),
            final(self).intervals() == shifted(old(self).intervals(), delta as int),
            forall|x: int| final(self)@.contains(x) <==> old(self)@.contains(x - delta),
    {
        proof {
            use_type_invariant(&*self);
            lemma_shifted(self.intervals(), delta as int);
        }
        let ghost before = self.intervals();
        let mut ranges: Vec<Range<usize>> = Vec::new();
        let mut i: usize = 0;
        while i < self.ranges.len()
            invariant
                i <= self.ranges.len(),
                ranges.len() == i,
                before == intervals_of(self.ranges@),
                normalized(before),
                upper(before) + delta <= usize::MAX,
                forall|k: int| 0 <= k < i ==> interval_of(#[trigger] ranges@[k]) == (
                    before[k].0 + delta,
                    before[k].1 + delta,
                ),
            decreases self.ranges.len() - i,
        {
            let r = &self.ranges[i];
            proof {
                assert(before[i as int] == interval_of(self.ranges@[i as int]));
                if i < before.len() - 1 {
                    assert(before[i as int].1 < before[before.len() - 1].0);
                }
                assert(0 <= before[i as int].0 < before[i as int].1);
                assert(0 <= before[before.len() - 1].0 < before[before.len() - 1].1);
            }
            ranges.push(Range { start: r.start + delta, end: r.end + delta });
            i += 1;
        }
        assert(intervals_of(ranges@) =~= shifted(before, delta as int));
        self.ranges = ranges;
    }
}

} // verus!
