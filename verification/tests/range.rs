use extent_lift::range::RangeOps;

#[test]
fn lift_overlaps() {
    assert!((0..10).overlaps_range(&(10..20)) == false);
    assert!((0..11).overlaps_range(&(10..20)) == true);
    assert!((0..30).overlaps_range(&(10..20)) == true);
    assert!((10..20).overlaps_range(&(10..20)) == true);
    assert!((12..18).overlaps_range(&(10..20)) == true);
    assert!((19..30).overlaps_range(&(10..20)) == true);
    assert!((20..30).overlaps_range(&(10..20)) == false);
}

#[test]
fn overlaps_spam() {
    let min = 0u64;
    let max = 10u64;

    for a_b in min..max {
        for a_e in (a_b + 1)..=max {
            for b_b in min..max {
                for b_e in (b_b + 1)..=max {
                    let expected = (min..max)
                        .into_iter()
                        .any(|q| (a_b..a_e).contains(&q) && (b_b..b_e).contains(&q));

                    let actual = (a_b..a_e).overlaps_range(&(b_b..b_e));
                    assert_eq!(expected, actual);
                }
            }
        }
    }
}

#[test]
fn contains_range_cases() {
    assert!((0..10).contains_range(&(0..10)));
    assert!((0..10).contains_range(&(3..4)));
    assert!(!(0..10).contains_range(&(3..11)));
    assert!(!(5..10).contains_range(&(4..6)));
    assert!(!(5..10).contains_range(&(0..5)));
}

#[test]
fn overlap_has_a_common_offset() {
    // two non-empty intervals overlap exactly when some offset lies in both
    for a in 0u64..6 {
        for b in (a + 1)..=6 {
            for c in 0u64..6 {
                for d in (c + 1)..=6 {
                    let lo = a.min(c);
                    let hi = b.max(d);
                    let witness = (lo..hi).any(|q| a <= q && q < b && c <= q && q < d);
                    assert_eq!((a..b).overlaps_range(&(c..d)), witness);
                }
            }
        }
    }
}
