use std::ops::Range;

use extent_lift::lift::itree::{IntervalTree, IntervalTreeEntry};
use extent_lift::range::RangeOps;

#[derive(Debug, Eq, PartialEq, Clone)]
struct Entry {
    span: Range<u64>,
    value: String,
}

impl Entry {
    fn new(span: Range<u64>, value: &str) -> Self {
        Self {
            span: span,
            value: value.to_string(),
        }
    }
}

impl IntervalTreeEntry for Entry {
    fn interval_spec(&self) -> Range<u64> {
        self.span.clone()
    }

    fn interval(&self) -> Range<u64> {
        self.span.clone()
    }

    fn same_entry(&self, other: &Self) -> bool {
        self == other
    }
}

#[test]
fn itree_overlaps() {
    assert!((0..10).overlaps_range(&(10..20)) == false);
    assert!((0..11).overlaps_range(&(10..20)) == true);
    assert!((0..30).overlaps_range(&(10..20)) == true);
    assert!((19..30).overlaps_range(&(10..20)) == true);
    assert!((20..30).overlaps_range(&(10..20)) == false);
}

#[test]
fn simple() {
    let mut tree: IntervalTree<Entry> = IntervalTree::new(0..100);

    let hello = Entry::new(40..50, "Hello");
    let world = Entry::new(45..60, "World");
    tree.insert(hello.clone());
    tree.insert(world.clone());

    assert!(tree.find(&(0..5)).is_empty());
    assert_eq!(tree.find(&(40..41)), vec![&hello]);
}

#[test]
fn spam() {
    let min = 0u64;
    let max = 10u64;
    let mut tree: IntervalTree<Entry> = IntervalTree::new(min..max);

    for a_b in min..max {
        for a_e in (a_b + 1)..=max {
            let entry_a = Entry::new(a_b..a_e, "A");
            tree.insert(entry_a.clone());

            for b_b in min..max {
                for b_e in (b_b + 1)..=max {
                    let entry_b = Entry::new(b_b..b_e, "B");
                    tree.insert(entry_b.clone());

                    for c_b in min..max {
                        for c_e in (c_b + 1)..=max {
                            let entry_c = Entry::new(c_b..c_e, "C");
                            tree.insert(entry_c.clone());

                            for q_b in min..max {
                                for q_e in (q_b + 1)..=max {
                                    let r: Vec<&Entry> = tree.find(&(q_b..q_e));

                                    assert_eq!(
                                        r.contains(&&entry_a),
                                        (a_b..a_e).overlaps_range(&(q_b..q_e))
                                    );
                                    assert_eq!(
                                        r.contains(&&entry_b),
                                        (b_b..b_e).overlaps_range(&(q_b..q_e))
                                    );
                                    assert_eq!(
                                        r.contains(&&entry_c),
                                        (c_b..c_e).overlaps_range(&(q_b..q_e))
                                    );
                                }
                            }

                            tree.remove(&entry_c);
                        }
                    }
                    tree.remove(&entry_b);
                }
            }
            tree.remove(&entry_a);
        }
    }
}

#[test]
fn insert_then_remove_leaves_empty_tree() {
    let mut tree: IntervalTree<Entry> = IntervalTree::new(0..100);
    assert!(tree.is_empty());
    let e = Entry::new(3..4, "only");
    assert!(tree.insert(e.clone()));
    assert!(!tree.is_empty());
    assert!(tree.remove(&e));
    assert!(tree.is_empty());
    assert!(tree.first().is_none());
    assert!(tree.find(&(0..100)).is_empty());
}

#[test]
fn duplicate_entries_are_rejected() {
    let mut tree: IntervalTree<Entry> = IntervalTree::new(0..100);
    // an entry that could nest many levels below the root
    let deep = Entry::new(0..1, "deep");
    assert!(tree.insert(deep.clone()));
    assert!(!tree.insert(deep.clone()));
    // an entry that straddles the middle of the span
    let wide = Entry::new(40..60, "wide");
    assert!(tree.insert(wide.clone()));
    assert!(!tree.insert(wide.clone()));
    assert!(!tree.insert(deep.clone()));
    assert_eq!(tree.find(&(0..100)).len(), 2);
    // same interval, other value: another entry
    assert!(tree.insert(Entry::new(0..1, "twin")));
    assert_eq!(tree.find(&(0..1)).len(), 2);
}

#[test]
fn remove_reports_absence() {
    let mut tree: IntervalTree<Entry> = IntervalTree::new(0..16);
    let a = Entry::new(0..4, "a");
    let b = Entry::new(4..8, "b");
    assert!(!tree.remove(&a));
    tree.insert(a.clone());
    assert!(!tree.remove(&b));
    assert!(tree.remove(&a));
    assert!(!tree.remove(&a));
    assert!(tree.is_empty());
}

#[test]
fn first_returns_a_live_entry() {
    let mut tree: IntervalTree<Entry> = IntervalTree::new(0..64);
    let entries = vec![
        Entry::new(0..1, "a"),
        Entry::new(10..30, "b"),
        Entry::new(31..33, "c"),
        Entry::new(63..64, "d"),
        Entry::new(0..64, "e"),
    ];
    for e in &entries {
        assert!(tree.insert(e.clone()));
    }
    let mut left = entries.len();
    while !tree.is_empty() {
        let picked = tree.first().unwrap().clone();
        assert!(entries.contains(&picked));
        assert!(tree.remove(&picked));
        left -= 1;
    }
    assert_eq!(left, 0);
}

#[test]
fn find_outside_the_span_is_empty() {
    let mut tree: IntervalTree<Entry> = IntervalTree::new(0..10);
    tree.insert(Entry::new(0..10, "all"));
    assert!(tree.find(&(10..20)).is_empty());
    assert_eq!(tree.find(&(9..20)).len(), 1);
}

#[test]
fn find_lists_each_overlapping_entry_once() {
    let mut tree: IntervalTree<Entry> = IntervalTree::new(0..8);
    let mut live: Vec<Entry> = Vec::new();
    let mut seed = 12345u64;
    for round in 0..400 {
        seed = seed.wrapping_mul(6364136223846793005).wrapping_add(1442695040888963407);
        let b = (seed >> 33) % 8;
        let e = b + 1 + (seed >> 40) % (8 - b);
        let entry = Entry::new(b..e, if (seed >> 50) % 2 == 0 { "x" } else { "y" });
        if (seed >> 60) % 3 == 0 {
            let was = live.iter().position(|l| *l == entry);
            assert_eq!(tree.remove(&entry), was.is_some());
            if let Some(i) = was {
                live.swap_remove(i);
            }
        } else {
            let fresh = !live.contains(&entry);
            assert_eq!(tree.insert(entry.clone()), fresh);
            if fresh {
                live.push(entry);
            }
        }
        assert_eq!(tree.is_empty(), live.is_empty());
        let qb = round % 8;
        for qe in (qb + 1)..=8 {
            let found = tree.find(&(qb..qe));
            let expected: Vec<&Entry> = live.iter().filter(|l| l.span.start < qe && qb < l.span.end).collect();
            assert_eq!(found.len(), expected.len());
            for x in &expected {
                assert_eq!(found.iter().filter(|f| f == &x).count(), 1);
            }
        }
    }
}
