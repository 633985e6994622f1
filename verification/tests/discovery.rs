use bootmem::discovery::discover_free_memory;
use bootmem::discovery::end_exclusive_to_inclusive;
use bootmem::discovery::kernel_span;
use bootmem::discovery::BootError;
use bootmem::discovery::MemoryArea;
use bootmem::discovery::SectionSpan;
use bootmem::registry::RangeSet;

fn ranges_of(rs: &RangeSet) -> Vec<(u64, u64)> {
    rs.ranges().iter().map(|r| (r.start, r.end)).collect()
}

fn area(start: u64, end_exclusive: u64) -> MemoryArea {
    MemoryArea { start_address: start, end_address_exclusive: end_exclusive }
}

fn section(start: u64, end_exclusive: u64) -> SectionSpan {
    SectionSpan { start_address: start, end_address_exclusive: end_exclusive }
}

#[test]
fn exclusive_bound_converts_to_inclusive() {
    assert_eq!(end_exclusive_to_inclusive(0x20000000), Ok(0x1FFFFFFF));
    assert_eq!(end_exclusive_to_inclusive(1), Ok(0));
}

#[test]
fn exclusive_bound_of_zero_is_degenerate() {
    // Never silently converted to u64::MAX.
    assert_eq!(end_exclusive_to_inclusive(0), Err(BootError::DegenerateAddressRange));
}

#[test]
fn kernel_span_is_min_start_max_end() {
    let sections = vec![
        section(0x110000, 0x120000),
        section(0x100000, 0x104000),
        section(0x140000, 0x150000),
    ];
    assert_eq!(kernel_span(&sections), (0x100000, 0x150000));
}

#[test]
fn missing_memory_map_is_fatal() {
    let sections = vec![section(0x100000, 0x150000)];
    let res = discover_free_memory(None, Some(&sections), 0x180000, 0x800);
    assert_eq!(res.err(), Some(BootError::MissingMemoryMap));
}

#[test]
fn missing_section_info_is_fatal() {
    let areas = vec![area(0, 0x20000000)];
    let res = discover_free_memory(Some(&areas), None, 0x180000, 0x800);
    assert_eq!(res.err(), Some(BootError::MissingSectionInfo));
}

#[test]
fn degenerate_memory_area_is_rejected() {
    // An exclusive end of 0 must fail instead of underflowing.
    let areas = vec![area(0, 0x20000000), area(0x40000000, 0)];
    let sections = vec![section(0x100000, 0x150000)];
    let res = discover_free_memory(Some(&areas), Some(&sections), 0x180000, 0x800);
    assert_eq!(res.err(), Some(BootError::DegenerateAddressRange));
}

#[test]
fn degenerate_section_span_is_rejected() {
    let areas = vec![area(0, 0x20000000)];
    let sections = vec![section(0, 0)];
    let res = discover_free_memory(Some(&areas), Some(&sections), 0x180000, 0x800);
    assert_eq!(res.err(), Some(BootError::DegenerateAddressRange));
}

#[test]
fn degenerate_multiboot_span_is_rejected() {
    let areas = vec![area(0, 0x20000000)];
    let sections = vec![section(0x100000, 0x150000)];
    let res = discover_free_memory(Some(&areas), Some(&sections), 0, 0);
    assert_eq!(res.err(), Some(BootError::DegenerateAddressRange));
}

#[test]
fn discovery_end_to_end() {
    // One usable area of 512 MiB; the kernel image and the boot-information
    // structure lie inside it.
    let areas = vec![area(0, 0x20000000)];
    let sections = vec![section(0x100000, 0x150000)];
    let rs = discover_free_memory(Some(&areas), Some(&sections), 0x180000, 0x800).unwrap();
    assert_eq!(ranges_of(&rs), vec![(0x150000, 0x17FFFF), (0x180800, 0x1FFFFFFF)]);
}

#[test]
fn discovery_tolerates_unsorted_overlapping_areas() {
    let areas = vec![
        area(0x10000000, 0x20000000),
        area(0, 0x10000000),
        area(0x08000000, 0x18000000),
    ];
    let sections = vec![section(0x100000, 0x150000)];
    let rs = discover_free_memory(Some(&areas), Some(&sections), 0x180000, 0x800).unwrap();
    assert_eq!(ranges_of(&rs), vec![(0x150000, 0x17FFFF), (0x180800, 0x1FFFFFFF)]);
}

#[test]
fn discovery_with_window_outside_free_memory() {
    // A reserved window partially outside every reported area degrades to a
    // no-op on the part that is not free.
    let areas = vec![area(0x200000, 0x400000)];
    let sections = vec![section(0x100000, 0x250000)];
    let rs = discover_free_memory(Some(&areas), Some(&sections), 0x300000, 0x1000).unwrap();
    assert_eq!(ranges_of(&rs), vec![(0x250000, 0x2FFFFF), (0x301000, 0x3FFFFF)]);
}

#[test]
fn discovery_keeps_memory_above_low_window_only() {
    // Everything the firmware reports below 1 MiB is dropped.
    let areas = vec![area(0, 0x9FC00), area(0x100000, 0x200000)];
    let sections = vec![section(0x100000, 0x180000)];
    let rs = discover_free_memory(Some(&areas), Some(&sections), 0x190000, 0x800).unwrap();
    assert_eq!(ranges_of(&rs), vec![(0x180000, 0x18FFFF), (0x190800, 0x1FFFFF)]);
}
