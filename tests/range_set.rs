use bootmem::error::MemError;
use bootmem::range::Range;
use bootmem::range_set::RangeSet;

fn set_of(ranges: &[(u64, u64)]) -> RangeSet {
    let mut set = RangeSet::new();
    for &(start, end) in ranges {
        set.insert(Range::new(start, end));
    }
    set
}

fn sorted(set: &RangeSet) -> Vec<(u64, u64)> {
    let mut v: Vec<(u64, u64)> = set.entries().iter().map(|r| (r.start, r.end)).collect();
    v.sort();
    v
}

fn assert_disjoint_and_apart(set: &RangeSet) {
    let e = set.entries();
    for i in 0..e.len() {
        assert!(e[i].start <= e[i].end);
        for j in 0..e.len() {
            if i != j {
                let a = e[i];
                let b = e[j];
                let touch = a.start <= b.end.saturating_add(1) && b.start <= a.end.saturating_add(1);
                assert!(!touch, "entries {:?} and {:?} overlap or touch", a, b);
            }
        }
    }
}

#[test]
fn range_new_keeps_bounds() {
    let r = Range::new(3, 9);
    assert_eq!(r.start, 3);
    assert_eq!(r.end, 9);
}

#[test]
fn range_contains() {
    let r = Range::new(10, 20);
    assert!(r.contains(&Range::new(10, 20)));
    assert!(r.contains(&Range::new(12, 15)));
    assert!(!r.contains(&Range::new(9, 15)));
    assert!(!r.contains(&Range::new(15, 21)));
}

#[test]
fn range_overlaps() {
    let r = Range::new(10, 20);
    assert_eq!(r.overlaps(&Range::new(15, 30)), Some(Range::new(15, 20)));
    assert_eq!(r.overlaps(&Range::new(0, 10)), Some(Range::new(10, 10)));
    assert_eq!(r.overlaps(&Range::new(12, 13)), Some(Range::new(12, 13)));
    assert_eq!(r.overlaps(&Range::new(21, 30)), None);
    assert_eq!(r.overlaps(&Range::new(0, 9)), None);
}

#[test]
fn new_set_is_empty() {
    let set = RangeSet::new();
    assert!(set.entries().is_empty());
}

#[test]
fn insert_merges_overlapping_entry() {
    let mut set = set_of(&[(0, 99)]);
    set.insert(Range::new(50, 149));
    assert_eq!(sorted(&set), vec![(0, 149)]);
}

#[test]
fn remove_splits_entry() {
    let mut set = set_of(&[(0, 199)]);
    set.remove(Range::new(50, 99));
    assert_eq!(sorted(&set), vec![(0, 49), (100, 199)]);
}

#[test]
fn insert_merges_touching_entries() {
    let mut set = RangeSet::new();
    set.insert(Range::new(0, 99));
    set.insert(Range::new(100, 199));
    assert_eq!(sorted(&set), vec![(0, 199)]);
}

#[test]
fn insert_merges_several_entries_at_once() {
    let mut set = set_of(&[(0, 9), (20, 29), (40, 49), (100, 109)]);
    set.insert(Range::new(5, 45));
    assert_eq!(sorted(&set), vec![(0, 49), (100, 109)]);
    set.insert(Range::new(50, 99));
    assert_eq!(sorted(&set), vec![(0, 109)]);
}

#[test]
fn insert_keeps_order_of_untouched_entries() {
    let mut set = set_of(&[(40, 49), (0, 9), (20, 29)]);
    set.insert(Range::new(8, 12));
    let e: Vec<(u64, u64)> = set.entries().iter().map(|r| (r.start, r.end)).collect();
    assert_eq!(e, vec![(40, 49), (20, 29), (0, 12)]);
}

#[test]
fn insert_at_top_of_address_space() {
    let mut set = set_of(&[(u64::MAX - 9, u64::MAX)]);
    set.insert(Range::new(u64::MAX - 20, u64::MAX - 10));
    assert_eq!(sorted(&set), vec![(u64::MAX - 20, u64::MAX)]);
}

#[test]
fn remove_trims_and_deletes() {
    let mut set = set_of(&[(0, 9), (20, 29), (40, 49)]);
    set.remove(Range::new(5, 44));
    assert_eq!(sorted(&set), vec![(0, 4), (45, 49)]);
    set.remove(Range::new(0, 100));
    assert!(set.entries().is_empty());
}

#[test]
fn remove_outside_changes_nothing() {
    let mut set = set_of(&[(10, 19)]);
    set.remove(Range::new(0, 9));
    set.remove(Range::new(20, 29));
    assert_eq!(sorted(&set), vec![(10, 19)]);
}

#[test]
fn entries_stay_apart_after_mixed_edits() {
    let mut set = RangeSet::new();
    let steps: [(bool, u64, u64); 10] = [
        (true, 0, 99),
        (true, 200, 299),
        (false, 50, 250),
        (true, 100, 120),
        (true, 121, 199),
        (false, 0, 0),
        (true, 300, 400),
        (false, 310, 320),
        (true, 49, 49),
        (false, 395, 1000),
    ];
    for &(add, start, end) in steps.iter() {
        if add {
            set.insert(Range::new(start, end));
        } else {
            set.remove(Range::new(start, end));
        }
        assert_disjoint_and_apart(&set);
    }
    assert_eq!(sorted(&set), vec![(1, 49), (100, 199), (251, 309), (321, 394)]);
}

#[test]
fn insert_then_remove_disjoint_range_restores_entries() {
    let mut set = set_of(&[(0, 9), (100, 199)]);
    let before = sorted(&set);
    set.insert(Range::new(10, 99));
    assert_eq!(sorted(&set), vec![(0, 199)]);
    set.remove(Range::new(10, 99));
    assert_eq!(sorted(&set), before);

    set.insert(Range::new(500, 600));
    set.remove(Range::new(500, 600));
    assert_eq!(sorted(&set), before);
}

#[test]
fn inserting_twice_equals_inserting_once() {
    let mut once = set_of(&[(0, 9), (30, 39)]);
    once.insert(Range::new(5, 31));
    let mut twice = once;
    twice.insert(Range::new(5, 31));
    assert_eq!(sorted(&once), sorted(&twice));
    assert_eq!(sorted(&twice), vec![(0, 39)]);
}

#[test]
fn allocate_aligned_from_best_fit() {
    let mut set = set_of(&[(0, 9), (32, 63)]);
    assert_eq!(set.allocate(16, 16, None), Some(32));
    assert_eq!(sorted(&set), vec![(0, 9), (48, 63)]);
}

#[test]
fn allocation_is_aligned_and_taken_out() {
    let mut set = set_of(&[(3, 1000)]);
    let a = set.allocate(100, 64, None).unwrap() as u64;
    assert_eq!(a, 64);
    assert_eq!(a % 64, 0);
    assert_eq!(sorted(&set), vec![(3, 63), (164, 1000)]);
    for e in set.entries() {
        assert!(e.end < a || e.start > a + 99);
    }
}

#[test]
fn allocate_prefers_narrowest_entry() {
    let mut set = set_of(&[(0, 999), (2000, 2099), (3000, 3499)]);
    assert_eq!(set.allocate(50, 1, None), Some(2000));
    assert_eq!(sorted(&set), vec![(0, 999), (2050, 2099), (3000, 3499)]);
}

#[test]
fn allocate_tie_goes_to_first_entry() {
    let mut set = set_of(&[(500, 599), (100, 199)]);
    assert_eq!(set.allocate(10, 1, None), Some(500));
}

#[test]
fn allocate_on_empty_set_fails() {
    let mut set = RangeSet::new();
    assert_eq!(set.allocate(1, 1, None), None);
    assert!(set.entries().is_empty());
}

#[test]
fn allocate_too_large_fails_and_keeps_set() {
    let mut set = set_of(&[(0, 9), (20, 35)]);
    assert_eq!(set.allocate(17, 1, None), None);
    assert_eq!(sorted(&set), vec![(0, 9), (20, 35)]);
    // Wide enough, but not once the start is aligned.
    assert_eq!(set.allocate(16, 32, None), None);
    assert_eq!(sorted(&set), vec![(0, 9), (20, 35)]);
}

#[test]
fn allocate_uses_hint_over_better_fit() {
    // A small entry outside the hint and a larger one inside it.
    let mut set = set_of(&[(0, 0xff), (0x1000, 0x1fff)]);
    let hints = set_of(&[(0x1800, 0x2fff)]);
    assert_eq!(set.allocate(0x10, 0x10, Some(&hints)), Some(0x1800));
    assert_eq!(sorted(&set), vec![(0, 0xff), (0x1000, 0x17ff), (0x1810, 0x1fff)]);
}

#[test]
fn allocate_uses_hinted_smaller_entry() {
    let mut set = set_of(&[(0x100, 0x1ff), (0x10000, 0xfffff)]);
    let hints = set_of(&[(0x0, 0x17f)]);
    assert_eq!(set.allocate(0x20, 0x20, Some(&hints)), Some(0x100));
    assert_eq!(sorted(&set), vec![(0x120, 0x1ff), (0x10000, 0xfffff)]);
}

#[test]
fn allocate_falls_back_when_hint_has_no_room() {
    let mut set = set_of(&[(0, 0xff), (0x1000, 0x1fff)]);
    let hints = set_of(&[(0x1ff8, 0x2fff)]);
    assert_eq!(set.allocate(0x10, 0x10, Some(&hints)), Some(0));
}

#[test]
fn capacity_holds_256_entries() {
    let mut set = RangeSet::new();
    for k in 0..256u64 {
        assert_eq!(set.try_insert(Range::new(2 * k, 2 * k)), Ok(()));
    }
    assert_eq!(set.entries().len(), 256);
    assert_eq!(set.try_insert(Range::new(1000, 1000)), Err(MemError::CapacityExceeded));
    assert_eq!(set.entries().len(), 256);
    // A range that merges needs no new entry.
    assert_eq!(set.try_insert(Range::new(1, 1)), Ok(()));
    assert_eq!(set.entries().len(), 255);
}

#[test]
fn try_insert_rejects_inverted_range() {
    let mut set = RangeSet::new();
    assert_eq!(set.try_insert(Range { start: 5, end: 4 }), Err(MemError::InvalidRange));
    assert_eq!(set.try_remove(Range { start: 5, end: 4 }), Err(MemError::InvalidRange));
}

#[test]
fn try_remove_refuses_split_when_full() {
    let mut set = RangeSet::new();
    for k in 0..256u64 {
        set.insert(Range::new(10 * k, 10 * k + 5));
    }
    assert_eq!(set.try_remove(Range::new(12, 13)), Err(MemError::CapacityExceeded));
    assert_eq!(set.entries().len(), 256);
    assert_eq!(set.try_remove(Range::new(10, 13)), Ok(()));
    assert_eq!(set.entries().len(), 256);
    assert_eq!(set.try_remove(Range::new(0, 5)), Ok(()));
    assert_eq!(set.entries().len(), 255);
}

#[test]
fn try_allocate_errors() {
    let mut set = set_of(&[(0, 99)]);
    assert_eq!(set.try_allocate(0, 8, None), Err(MemError::ZeroSizeAllocation));
    assert_eq!(set.try_allocate(8, 0, None), Err(MemError::NonPowerOfTwoAlignment));
    assert_eq!(set.try_allocate(8, 12, None), Err(MemError::NonPowerOfTwoAlignment));
    assert_eq!(set.try_allocate(200, 8, None), Err(MemError::OutOfMemory));
    assert_eq!(sorted(&set), vec![(0, 99)]);
    assert_eq!(set.try_allocate(8, 8, None), Ok(0));
    assert_eq!(sorted(&set), vec![(8, 99)]);
}

#[test]
fn try_allocate_refuses_split_when_full() {
    let mut set = RangeSet::new();
    for k in 0..256u64 {
        set.insert(Range::new(100 * k + 1, 100 * k + 50));
    }
    // Aligned to 16, the request sits inside entry [1, 50].
    assert_eq!(set.try_allocate(4, 16, None), Err(MemError::CapacityExceeded));
    assert_eq!(set.entries().len(), 256);
    assert_eq!(set.try_allocate(4, 1, None), Ok(1));
}
