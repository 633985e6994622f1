use bootmem::range::Range;
use bootmem::registry::RangeSet;

fn ranges_of(rs: &RangeSet) -> Vec<(u64, u64)> {
    rs.ranges().iter().map(|r| (r.start, r.end)).collect()
}

#[test]
fn new_registry_is_empty() {
    let rs = RangeSet::new();
    assert_eq!(rs.len(), 0);
    assert!(ranges_of(&rs).is_empty());
}

#[test]
fn insert_single_range() {
    let mut rs = RangeSet::new();
    rs.insert(Range { start: 3, end: 7 });
    assert_eq!(ranges_of(&rs), vec![(3, 7)]);
}

#[test]
fn boundary_merge_adjacent_ranges() {
    // Adjacency merges: a gap of zero addresses between closed ranges.
    let mut rs = RangeSet::new();
    rs.insert(Range { start: 0, end: 9 });
    rs.insert(Range { start: 10, end: 19 });
    assert_eq!(ranges_of(&rs), vec![(0, 19)]);
}

#[test]
fn disjoint_ranges_stay_separate() {
    let mut rs = RangeSet::new();
    rs.insert(Range { start: 0, end: 9 });
    rs.insert(Range { start: 11, end: 19 });
    assert_eq!(ranges_of(&rs), vec![(0, 9), (11, 19)]);
}

#[test]
fn insert_keeps_sorted_order() {
    let mut rs = RangeSet::new();
    rs.insert(Range { start: 100, end: 199 });
    rs.insert(Range { start: 0, end: 9 });
    rs.insert(Range { start: 40, end: 59 });
    assert_eq!(ranges_of(&rs), vec![(0, 9), (40, 59), (100, 199)]);
}

#[test]
fn insert_absorbs_several_ranges() {
    let mut rs = RangeSet::new();
    rs.insert(Range { start: 0, end: 9 });
    rs.insert(Range { start: 20, end: 29 });
    rs.insert(Range { start: 40, end: 49 });
    rs.insert(Range { start: 5, end: 42 });
    assert_eq!(ranges_of(&rs), vec![(0, 49)]);
}

#[test]
fn insert_overlapping_is_union() {
    let mut rs = RangeSet::new();
    rs.insert(Range { start: 0, end: 20 });
    rs.insert(Range { start: 10, end: 30 });
    assert_eq!(ranges_of(&rs), vec![(0, 30)]);
}

#[test]
fn insert_idempotent() {
    let mut once = RangeSet::new();
    once.insert(Range { start: 5, end: 15 });
    let mut twice = RangeSet::new();
    twice.insert(Range { start: 5, end: 15 });
    twice.insert(Range { start: 5, end: 15 });
    assert_eq!(ranges_of(&once), ranges_of(&twice));
}

#[test]
fn remove_idempotent() {
    let mut once = RangeSet::new();
    once.insert(Range { start: 0, end: 99 });
    once.remove(Range { start: 10, end: 19 });
    let mut twice = RangeSet::new();
    twice.insert(Range { start: 0, end: 99 });
    twice.remove(Range { start: 10, end: 19 });
    twice.remove(Range { start: 10, end: 19 });
    assert_eq!(ranges_of(&once), ranges_of(&twice));
}

#[test]
fn insert_order_does_not_matter() {
    let mut ab = RangeSet::new();
    ab.insert(Range { start: 0, end: 9 });
    ab.insert(Range { start: 5, end: 25 });
    let mut ba = RangeSet::new();
    ba.insert(Range { start: 5, end: 25 });
    ba.insert(Range { start: 0, end: 9 });
    assert_eq!(ranges_of(&ab), ranges_of(&ba));
}

#[test]
fn remove_order_does_not_matter() {
    let mut ab = RangeSet::new();
    ab.insert(Range { start: 0, end: 99 });
    ab.remove(Range { start: 10, end: 19 });
    ab.remove(Range { start: 15, end: 40 });
    let mut ba = RangeSet::new();
    ba.insert(Range { start: 0, end: 99 });
    ba.remove(Range { start: 15, end: 40 });
    ba.remove(Range { start: 10, end: 19 });
    assert_eq!(ranges_of(&ab), ranges_of(&ba));
}

#[test]
fn remove_splits_interior() {
    // Removing a window strictly inside one range leaves two remainders.
    let mut rs = RangeSet::new();
    rs.insert(Range { start: 0, end: 99 });
    rs.remove(Range { start: 40, end: 59 });
    assert_eq!(ranges_of(&rs), vec![(0, 39), (60, 99)]);
}

#[test]
fn remove_fully_contained_range() {
    let mut rs = RangeSet::new();
    rs.insert(Range { start: 10, end: 20 });
    rs.insert(Range { start: 30, end: 40 });
    rs.remove(Range { start: 10, end: 20 });
    assert_eq!(ranges_of(&rs), vec![(30, 40)]);
}

#[test]
fn remove_truncates_boundaries() {
    let mut rs = RangeSet::new();
    rs.insert(Range { start: 10, end: 20 });
    rs.remove(Range { start: 0, end: 12 });
    assert_eq!(ranges_of(&rs), vec![(13, 20)]);
    rs.remove(Range { start: 18, end: 25 });
    assert_eq!(ranges_of(&rs), vec![(13, 17)]);
}

#[test]
fn remove_without_overlap_is_noop() {
    let mut rs = RangeSet::new();
    rs.insert(Range { start: 10, end: 20 });
    rs.remove(Range { start: 30, end: 40 });
    assert_eq!(ranges_of(&rs), vec![(10, 20)]);
}

#[test]
fn remove_spanning_several_ranges() {
    let mut rs = RangeSet::new();
    rs.insert(Range { start: 0, end: 9 });
    rs.insert(Range { start: 20, end: 29 });
    rs.insert(Range { start: 40, end: 49 });
    rs.remove(Range { start: 5, end: 45 });
    assert_eq!(ranges_of(&rs), vec![(0, 4), (46, 49)]);
}

#[test]
fn remove_everything_empties_registry() {
    let mut rs = RangeSet::new();
    rs.insert(Range { start: 0, end: u64::MAX });
    rs.remove(Range { start: 0, end: u64::MAX });
    assert_eq!(rs.len(), 0);
}

#[test]
fn invariant_holds_after_mixed_operations() {
    // Sorted, pairwise non-overlapping, pairwise non-adjacent, after an
    // arbitrary mix of inserts and removes.
    let mut rs = RangeSet::new();
    rs.insert(Range { start: 50, end: 60 });
    rs.insert(Range { start: 0, end: 10 });
    rs.remove(Range { start: 5, end: 55 });
    rs.insert(Range { start: 100, end: 100 });
    rs.insert(Range { start: 12, end: 20 });
    rs.remove(Range { start: 58, end: 58 });
    let v = rs.ranges();
    for w in v.windows(2) {
        assert!(w[0].end + 1 < w[1].start);
    }
    for r in v.iter() {
        assert!(r.start <= r.end);
    }
}
