use bootmem::error::MemError;
use bootmem::physmem::{allocate, free, populate, MemoryDescriptor, LOW_MEMORY_END, USABLE};
use bootmem::range::Range;
use bootmem::range_set::RangeSet;

fn desc(base: u64, size: u64, typ: u8) -> MemoryDescriptor {
    MemoryDescriptor { base, size, typ }
}

fn sorted(set: &RangeSet) -> Vec<(u64, u64)> {
    let mut v: Vec<(u64, u64)> = set.entries().iter().map(|r| (r.start, r.end)).collect();
    v.sort();
    v
}

#[test]
fn populate_keeps_usable_minus_reserved_and_low_memory() {
    let map = [
        desc(0, 0xA0000, USABLE),
        desc(0xF0000, 0x10000, 2),
        desc(0x100000, 0x7F00000, USABLE),
        desc(0x7000000, 0x100000, 2),
    ];
    let set = populate(&map).unwrap();
    assert_eq!(sorted(&set), vec![(0x100000, 0x6FFFFFF), (0x7100000, 0x7FFFFFF)]);
}

#[test]
fn populate_reserved_wins_whatever_the_order() {
    let map = [desc(0x200000, 0x1000, 3), desc(0x200000, 0x2000, USABLE)];
    let set = populate(&map).unwrap();
    assert_eq!(sorted(&set), vec![(0x201000, 0x201FFF)]);
}

#[test]
fn populate_removes_low_region_even_if_usable() {
    let map = [desc(0, 0x200000, USABLE)];
    let set = populate(&map).unwrap();
    assert_eq!(sorted(&set), vec![(LOW_MEMORY_END + 1, 0x1FFFFF)]);
}

#[test]
fn populate_ignores_empty_spans() {
    let map = [desc(0x300000, 0, USABLE), desc(0x400000, 0, 2), desc(0x500000, 0x10, USABLE)];
    let set = populate(&map).unwrap();
    assert_eq!(sorted(&set), vec![(0x500000, 0x50000F)]);
}

#[test]
fn populate_rejects_span_past_address_space() {
    let map = [desc(0x100000, 0x1000, USABLE), desc(u64::MAX, 2, 2)];
    assert_eq!(populate(&map).err(), Some(MemError::Unrepresentable));
    let last = [desc(u64::MAX, 1, USABLE)];
    let set = populate(&last).unwrap();
    assert_eq!(sorted(&set), vec![(u64::MAX, u64::MAX)]);
}

#[test]
fn populate_empty_map() {
    let set = populate(&[]).unwrap();
    assert!(set.entries().is_empty());
}

#[test]
fn allocate_before_populate_is_refused() {
    let mut mem: Option<RangeSet> = None;
    assert_eq!(allocate(&mut mem, 16, 16), Err(MemError::Uninitialized));
    assert_eq!(free(&mut mem, 0x100000, 16), Err(MemError::Uninitialized));
    assert!(mem.is_none());
}

#[test]
fn allocate_and_free_round_trip() {
    let mut mem = Some(populate(&[desc(0x100000, 0x100000, USABLE)]).unwrap());
    let a = allocate(&mut mem, 0x1000, 0x1000).unwrap();
    assert_eq!(a, 0x100000);
    assert_eq!(sorted(mem.as_ref().unwrap()), vec![(0x101000, 0x1FFFFF)]);
    let b = allocate(&mut mem, 0x10, 0x10).unwrap();
    assert_eq!(b, 0x101000);
    assert_eq!(free(&mut mem, a as u64, 0x1000), Ok(()));
    assert_eq!(sorted(mem.as_ref().unwrap()), vec![(0x100000, 0x100FFF), (0x101010, 0x1FFFFF)]);
    assert_eq!(free(&mut mem, b as u64, 0x10), Ok(()));
    assert_eq!(sorted(mem.as_ref().unwrap()), vec![(0x100000, 0x1FFFFF)]);
}

#[test]
fn allocate_reports_exhaustion() {
    let mut mem = Some(populate(&[desc(0x100000, 0x100, USABLE)]).unwrap());
    assert_eq!(allocate(&mut mem, 0x200, 1), Err(MemError::OutOfMemory));
    assert_eq!(allocate(&mut mem, 0, 1), Err(MemError::ZeroSizeAllocation));
    assert_eq!(allocate(&mut mem, 1, 3), Err(MemError::NonPowerOfTwoAlignment));
    assert_eq!(sorted(mem.as_ref().unwrap()), vec![(0x100000, 0x1000FF)]);
}

#[test]
fn free_checks_its_range() {
    let mut mem = Some(RangeSet::new());
    assert_eq!(free(&mut mem, 0x1000, 0), Err(MemError::InvalidRange));
    assert_eq!(free(&mut mem, u64::MAX, 2), Err(MemError::Unrepresentable));
    assert_eq!(free(&mut mem, u64::MAX, 1), Ok(()));
    let set = mem.unwrap();
    assert_eq!(set.entries(), &[Range::new(u64::MAX, u64::MAX)][..]);
}

#[test]
fn populate_runs_out_of_entries() {
    let many: Vec<MemoryDescriptor> =
        (0..257u64).map(|k| desc(0x1000_0000 + 0x10 * k, 8, USABLE)).collect();
    assert_eq!(populate(&many).err(), Some(MemError::CapacityExceeded));
    let fewer = &many[..255];
    let set = populate(fewer).unwrap();
    assert_eq!(set.entries().len(), 255);
}
