use spansy::range::difference::Difference;
use spansy::range::intersection::Intersection;
use spansy::range::union::{Union, UnionMut};
use spansy::range::RangeSet;

#[test]
fn test_range_intersection_range() {
    assert!((0..0).intersection(&(0..0)).is_none());
    assert!((0..1).intersection(&(0..0)).is_none());
    assert!((0..0).intersection(&(0..1)).is_none());
    assert_eq!((0..1).intersection(&(0..1)), Some(0..1));
    assert_eq!((0..2).intersection(&(0..1)), Some(0..1));
    assert_eq!((0..1).intersection(&(0..2)), Some(0..1));
    assert_eq!((0..2).intersection(&(0..2)), Some(0..2));
    assert_eq!((0..2).intersection(&(1..2)), Some(1..2));
    assert_eq!((1..2).intersection(&(0..2)), Some(1..2));
}

#[test]
fn test_range_intersection_set() {
    let set = RangeSet::from(vec![0..1, 2..3, 4..5]);

    assert_eq!(set.intersection(&(0..0)), RangeSet::default());
    assert_eq!(set.intersection(&(0..1)), RangeSet::from(vec![0..1]));
    assert_eq!(set.intersection(&(0..2)), RangeSet::from(vec![0..1]));
    assert_eq!(set.intersection(&(0..3)), RangeSet::from(vec![0..1, 2..3]));
    assert_eq!(set.intersection(&(0..4)), RangeSet::from(vec![0..1, 2..3]));
    assert_eq!(set.intersection(&(1..3)), RangeSet::from(vec![2..3]));
    assert_eq!(
        set.intersection(&(0..6)),
        RangeSet::from(vec![0..1, 2..3, 4..5])
    );
    assert_eq!(
        set.intersection(&(0..6)),
        RangeSet::from(vec![0..1, 2..3, 4..5])
    );
}

#[test]
fn test_set_intersection_set() {
    let set = RangeSet::from(vec![0..1, 2..3, 5..6]);

    assert_eq!(set.intersection(&RangeSet::default()), RangeSet::default());
    assert_eq!(
        set.intersection(&RangeSet::from(vec![1..2])),
        RangeSet::default()
    );
    assert_eq!(
        set.intersection(&RangeSet::from(vec![3..5])),
        RangeSet::default()
    );
    assert_eq!(
        set.intersection(&RangeSet::from(vec![7..8])),
        RangeSet::default()
    );
    assert_eq!(
        set.intersection(&RangeSet::from(vec![0..1])),
        RangeSet::from(vec![0..1])
    );
    assert_eq!(
        set.intersection(&RangeSet::from(vec![0..2])),
        RangeSet::from(vec![0..1])
    );
    assert_eq!(
        set.intersection(&RangeSet::from(vec![0..3])),
        RangeSet::from(vec![0..1, 2..3])
    );
    assert_eq!(set.intersection(&RangeSet::from(vec![0..6])), set);
    assert_eq!(
        set.intersection(&RangeSet::from(vec![1..6])),
        RangeSet::from(vec![2..3, 5..6])
    );
    assert_eq!(
        set.intersection(&RangeSet::from(vec![2..3, 5..6])),
        RangeSet::from(vec![2..3, 5..6])
    );
}

/// The positions below `bound` that `set` holds, one by one.
fn members(set: &RangeSet, bound: usize) -> Vec<usize> {
    (0..bound).filter(|x| set.contains(*x)).collect()
}

/// Every pair of sets made of two ranges with bounds below 5, against
/// membership position by position.
#[test]
fn test_set_algebra_against_membership() {
    let bounds: Vec<(usize, usize)> = (0..5usize)
        .flat_map(|s| (0..5usize).map(move |e| (s, e)))
        .collect();
    for &(xs, xe) in &bounds {
        for &(ys, ye) in &bounds {
            let s1 = RangeSet::new(&[xs..xe, ys..ye]);
            assert_invariants(&s1);
            let m1 = members(&s1, 6);
            for &(ws, we) in &bounds {
                let s2 = RangeSet::new(&[ws..we, 1..2]);
                let m2 = members(&s2, 6);

                let both = s1.intersection(&s2);
                assert_invariants(&both);
                let expected: Vec<usize> =
                    m1.iter().copied().filter(|x| m2.contains(x)).collect();
                assert_eq!(members(&both, 6), expected);

                let either = s1.union(&s2);
                assert_invariants(&either);
                let expected: Vec<usize> = (0..6usize)
                    .filter(|x| m1.contains(x) || m2.contains(x))
                    .collect();
                assert_eq!(members(&either, 6), expected);

                let rest = s1.difference(&s2);
                assert_invariants(&rest);
                let expected: Vec<usize> =
                    m1.iter().copied().filter(|x| !m2.contains(x)).collect();
                assert_eq!(members(&rest, 6), expected);
            }
        }
    }
}

/// Sorted, non-empty, and neither touching nor overlapping.
fn assert_invariants(set: &RangeSet) {
    let ranges = set.ranges();
    for r in ranges {
        assert!(r.start < r.end);
    }
    for w in ranges.windows(2) {
        assert!(w[0].end < w[1].start);
    }
}

#[test]
fn test_new_merges_touching_and_overlapping_ranges() {
    let set = RangeSet::new(&[5..7, 0..2, 2..3, 6..9, 4..4]);
    assert_eq!(set.ranges(), &[0..3, 5..9]);
    assert_eq!(set.len(), 2);
    assert!(!set.is_empty());
    assert!(RangeSet::new(&[3..3, 5..1]).is_empty());
}

#[test]
fn test_union_merges_adjacent_ranges() {
    let a = RangeSet::from(vec![0..2, 6..8]);
    let b = RangeSet::from(vec![2..4, 5..6, 10..11]);
    assert_eq!(a.union(&b), RangeSet::from(vec![0..4, 5..8, 10..11]));
    assert_eq!(b.union(&a), RangeSet::from(vec![0..4, 5..8, 10..11]));
    assert_eq!(a.union(&RangeSet::default()), a);

    let mut c = a.clone();
    c.union_mut(&b);
    assert_eq!(c, a.union(&b));
}

#[test]
fn test_difference_splits_ranges() {
    let a = RangeSet::from(vec![0..10, 20..30]);
    let b = RangeSet::from(vec![2..4, 8..22, 29..35]);
    assert_eq!(a.difference(&b), RangeSet::from(vec![0..2, 4..8, 22..29]));
    assert_eq!(a.difference(&RangeSet::default()), a);
    assert_eq!(a.difference(&a), RangeSet::default());
    assert_eq!(
        a.difference(&RangeSet::from(5..6)),
        RangeSet::from(vec![0..5, 6..10, 20..30])
    );
}

#[test]
fn test_shift_moves_every_range() {
    let mut set = RangeSet::from(vec![0..2, 5..9]);
    set.shift(3);
    assert_eq!(set, RangeSet::from(vec![3..5, 8..12]));

    let mut twice = RangeSet::from(vec![0..2, 5..9]);
    twice.shift(1);
    twice.shift(2);
    assert_eq!(twice, set);
}
