//! The boot-time memory discovery pipeline.
//!
//! A single forward pass turns the firmware-reported usable memory areas and
//! the kernel's own footprint into a registry of the physical memory that is
//! safe to hand to a page allocator: the registry is seeded with every usable
//! area, then the low legacy megabyte, the kernel image's span and the
//! boot-information structure's span are carved out.

use vstd::prelude::*;
use crate::range::Range;
use crate::registry::RangeSet;
use crate::registry::seq_covers;

verus! {

/// Exclusive upper bound of the low-memory window: the first megabyte hosts
/// firmware and legacy structures and is never treated as free.
pub const LOW_MEMORY_BOUNDARY: u64 = 0x100000;

/// Fatal conditions of the discovery pipeline. Every one of them aborts the
/// boot sequence: with an unknown memory layout, continuing risks silent
/// corruption.
#[derive(Clone, Copy, Debug, PartialEq, Eq, Structural)]
pub enum BootError {
    /// The firmware did not supply a memory map.
    MissingMemoryMap,
    /// The ELF section metadata of the loaded kernel is absent.
    MissingSectionInfo,
    /// An exclusive upper bound of 0 would underflow to the maximum address
    /// when converted to an inclusive bound.
    DegenerateAddressRange,
}

/// A usable RAM area as reported by firmware: the half-open span
/// `[start_address, end_address_exclusive)`.
#[derive(Clone, Copy, Debug, PartialEq, Eq, Structural)]
pub struct MemoryArea {
    pub start_address: u64,
    pub end_address_exclusive: u64,
}

/// The address span of one loaded kernel ELF section: the half-open span
/// `[start_address, end_address_exclusive)`.
#[derive(Clone, Copy, Debug, PartialEq, Eq, Structural)]
pub struct SectionSpan {
    pub start_address: u64,
    pub end_address_exclusive: u64,
}

/// The address `a` lies in the half-open span of the area `m`.
pub open spec fn area_spans(m: MemoryArea, a: int) -> bool {
    m.start_address <= a < m.end_address_exclusive
}

/// The address `a` lies in some area of the firmware map.
pub open spec fn areas_cover(areas: Seq<MemoryArea>, a: int) -> bool {
    exists|i: int| 0 <= i < areas.len() && area_spans(#[trigger] areas[i], a)
}

/// No area has an exclusive upper bound of 0 (the condition the seeding
/// stage rejects as degenerate).
pub open spec fn areas_nondegenerate(areas: Seq<MemoryArea>) -> bool {
    forall|i: int| 0 <= i < areas.len() ==> (#[trigger] areas[i]).end_address_exclusive != 0
}

/// Every area is a forward, non-empty span, except that a bound of 0 is
/// tolerated: the pipeline detects that case and reports it as degenerate
/// instead of building an inverted range.
pub open spec fn areas_wf(areas: Seq<MemoryArea>) -> bool {
    forall|i: int| 0 <= i < areas.len()
        ==> ((#[trigger] areas[i]).end_address_exclusive == 0
            || areas[i].start_address < areas[i].end_address_exclusive)
}

/// The least section start: the lower bound of the kernel image's span.
pub open spec fn min_start(sections: Seq<SectionSpan>) -> int
    recommends
        sections.len() > 0,
    decreases sections.len(),
{
    if sections.len() <= 1 {
        sections[0].start_address as int
    } else {
        let m = min_start(sections.drop_last());
        if (sections.last().start_address as int) < m {
            sections.last().start_address as int
        } else {
            m
        }
    }
}

/// The greatest exclusive section end: the upper bound of the kernel image's
/// span.
pub open spec fn max_end(sections: Seq<SectionSpan>) -> int
    recommends
        sections.len() > 0,
    decreases sections.len(),
{
    if sections.len() <= 1 {
        sections[0].end_address_exclusive as int
    } else {
        let m = max_end(sections.drop_last());
        if (sections.last().end_address_exclusive as int) > m {
            sections.last().end_address_exclusive as int
        } else {
            m
        }
    }
}

/// The kernel image's span is forward: its least start lies below its
/// greatest end, except that a greatest end of 0 is tolerated (detected and
/// reported as degenerate).
pub open spec fn sections_wf(sections: Seq<SectionSpan>) -> bool {
    max_end(sections) == 0 || min_start(sections) < max_end(sections)
}

/// Converts an exclusive upper bound into the inclusive end of a closed
/// range. A bound of 0 has no predecessor in the address space: it is
/// rejected as degenerate rather than silently wrapped to the maximum
/// address.
pub fn end_exclusive_to_inclusive(end_address_exclusive: u64) -> (r: Result<u64, BootError>)
    ensures
        r == (if end_address_exclusive == 0 {
            Err::<u64, BootError>(BootError::DegenerateAddressRange)
        } else {
            Ok::<u64, BootError>((end_address_exclusive - 1) as u64)
        }),
{
    if end_address_exclusive == 0 {
        Err(BootError::DegenerateAddressRange)
    } else {
        Ok(end_address_exclusive - 1)
    }
}

/// The kernel image's occupied span over all loaded sections: the least
/// start address and the greatest exclusive end address.
pub fn kernel_span(sections: &Vec<SectionSpan>) -> (r: (u64, u64))
    requires
        sections@.len() > 0,
    ensures
        r.0 == min_start(sections@),
        r.1 == max_end(sections@),
{
    let mut lo = sections[0].start_address;
    let mut hi = sections[0].end_address_exclusive;
    let mut i: usize = 1;
    proof {
        assert(sections@.subrange(0, 1).len() == 1);
        assert(sections@.subrange(0, 1)[0] == sections@[0]);
    }
    while i < sections.len()
        invariant
            1 <= i <= sections@.len(),
            lo == min_start(sections@.subrange(0, i as int)),
            hi == max_end(sections@.subrange(0, i as int)),
        decreases sections@.len() - i,
    {
        let s = sections[i];
        proof {
            let prefix = sections@.subrange(0, i as int + 1);
            assert(prefix.drop_last() =~= sections@.subrange(0, i as int));
            assert(prefix.last() == sections@[i as int]);
        }
        if s.start_address < lo {
            lo = s.start_address;
        }
        if s.end_address_exclusive > hi {
            hi = s.end_address_exclusive;
        }
        i = i + 1;
    }
    proof {
        assert(sections@.subrange(0, sections@.len() as int) =~= sections@);
    }
    (lo, hi)
}

/// Runs the five discovery stages: acquire the firmware memory map, seed the
/// registry from every usable area, carve out the low legacy megabyte, the
/// kernel image's span, and the boot-information structure's span. On
/// success the returned registry covers exactly the firmware-reported
/// addresses that lie outside all three reserved windows.
pub fn discover_free_memory(
    memory_map: Option<&Vec<MemoryArea>>,
    elf_sections: Option<&Vec<SectionSpan>>,
    multiboot_address: u64,
    multiboot_total_size: u32,
) -> (res: Result<RangeSet, BootError>)
    requires
        memory_map matches Some(m) ==> areas_wf(m@),
        elf_sections matches Some(s) ==> s@.len() > 0 && sections_wf(s@),
        multiboot_address + multiboot_total_size <= u64::MAX,
        multiboot_total_size >= 1 || multiboot_address == 0,
    ensures
        memory_map is None ==> res == Err::<RangeSet, BootError>(BootError::MissingMemoryMap),
        memory_map is Some && !areas_nondegenerate(memory_map->Some_0@) ==> res == Err::<
            RangeSet,
            BootError,
        >(BootError::DegenerateAddressRange),
        memory_map is Some && areas_nondegenerate(memory_map->Some_0@) && elf_sections is None
            ==> res == Err::<RangeSet, BootError>(BootError::MissingSectionInfo),
        memory_map is Some && areas_nondegenerate(memory_map->Some_0@) && elf_sections is Some
            && max_end(elf_sections->Some_0@) == 0 ==> res == Err::<RangeSet, BootError>(
            BootError::DegenerateAddressRange,
        ),
        memory_map is Some && areas_nondegenerate(memory_map->Some_0@) && elf_sections is Some
            && max_end(elf_sections->Some_0@) != 0 && multiboot_address + multiboot_total_size
            == 0 ==> res == Err::<RangeSet, BootError>(BootError::DegenerateAddressRange),
        memory_map is Some && areas_nondegenerate(memory_map->Some_0@) && elf_sections is Some
            && max_end(elf_sections->Some_0@) != 0 && multiboot_address + multiboot_total_size
            != 0 ==> res is Ok && res->Ok_0.wf() && (forall|a: int|
            res->Ok_0.covers(a) <==> (areas_cover(memory_map->Some_0@, a) && !(0 <= a
                < LOW_MEMORY_BOUNDARY) && !(min_start(elf_sections->Some_0@) <= a < max_end(
                elf_sections->Some_0@,
            )) && !(multiboot_address <= a < multiboot_address + multiboot_total_size))),
{
    let areas = match memory_map {
        Some(m) => m,
        None => {
            return Err(BootError::MissingMemoryMap);
        },
    };

    // Stage 2: seed the registry with every usable area, converting each
    // exclusive end bound to an inclusive one, checked.
    let mut registry = RangeSet::new();
    let n = areas.len();
    let mut i: usize = 0;
    while i < n
        invariant
            memory_map is Some,
            memory_map->Some_0@ == areas@,
            n == areas@.len(),
            i <= n,
            areas_wf(areas@),
            registry.wf(),
            forall|k: int| 0 <= k < i ==> (#[trigger] areas@[k]).end_address_exclusive != 0,
            forall|a: int| #![trigger seq_covers(registry@, a)]
                seq_covers(registry@, a) <==> areas_cover(areas@.subrange(0, i as int), a),
        decreases n - i,
    {
        let area = areas[i];
        let end = match end_exclusive_to_inclusive(area.end_address_exclusive) {
            Ok(e) => e,
            Err(e) => {
                proof {
                    assert(areas@[i as int].end_address_exclusive == 0);
                    assert(!areas_nondegenerate(areas@));
                }
                return Err(e);
            },
        };
        registry.insert(Range { start: area.start_address, end });
        proof {
            assert(areas@.subrange(0, i as int + 1) =~= areas@.subrange(0, i as int).push(area));
            assert forall|a: int| #![trigger seq_covers(registry@, a)]
                seq_covers(registry@, a) <==> areas_cover(areas@.subrange(0, i as int + 1), a) by {
                lemma_areas_cover_push(areas@.subrange(0, i as int), area, a);
            }
        }
        i = i + 1;
    }
    proof {
        assert(areas@.subrange(0, n as int) =~= areas@);
    }

    // Stage 3: the low megabyte hosts firmware and legacy structures; it is
    // never free, whatever the memory map claims.
    let ghost seeded = registry;
    let low_window = Range { start: 0, end: LOW_MEMORY_BOUNDARY - 1 };
    registry.remove(low_window);
    let ghost after_low = registry;

    // Stage 4: carve out the kernel image's own span.
    let sections = match elf_sections {
        Some(s) => s,
        None => {
            return Err(BootError::MissingSectionInfo);
        },
    };
    let (kernel_start, kernel_end_exclusive) = kernel_span(sections);
    let kernel_end = match end_exclusive_to_inclusive(kernel_end_exclusive) {
        Ok(e) => e,
        Err(e) => {
            return Err(e);
        },
    };
    let kernel_window = Range { start: kernel_start, end: kernel_end };
    registry.remove(kernel_window);
    let ghost after_kernel = registry;

    // Stage 5: carve out the boot-information structure's span.
    let multiboot_end = match end_exclusive_to_inclusive(
        multiboot_address + (multiboot_total_size as u64),
    ) {
        Ok(e) => e,
        Err(e) => {
            return Err(e);
        },
    };
    let multiboot_window = Range { start: multiboot_address, end: multiboot_end };
    registry.remove(multiboot_window);

    proof {
        assert forall|a: int| #![trigger seq_covers(registry@, a)]
            seq_covers(registry@, a) <==> (areas_cover(areas@, a) && !(0 <= a
                < LOW_MEMORY_BOUNDARY) && !(min_start(sections@) <= a < max_end(sections@)) && !(
            multiboot_address <= a < multiboot_address + multiboot_total_size)) by {
            assert(seq_covers(seeded@, a) <==> areas_cover(areas@, a));
            assert(seq_covers(after_low@, a) <==> seq_covers(seeded@, a)
                && !low_window.spec_contains(a));
            assert(seq_covers(after_kernel@, a) <==> seq_covers(after_low@, a)
                && !kernel_window.spec_contains(a));
            assert(seq_covers(registry@, a) <==> seq_covers(after_kernel@, a)
                && !multiboot_window.spec_contains(a));
        }
    }
    Ok(registry)
}

/// Appending one area extends/// Appending one area extends the covered addresses by exactly that area's
/// span.
proof fn lemma_areas_cover_push(areas: Seq<MemoryArea>, m: MemoryArea, a: int)
    ensures
        areas_cover(areas.push(m), a) <==> areas_cover(areas, a) || area_spans(m, a),
{
    let t = areas.push(m);
    if areas_cover(areas, a) {
        let i = choose|i: int| 0 <= i < areas.len() && area_spans(#[trigger] areas[i], a);
        assert(area_spans(t[i], a));
    }
    if area_spans(m, a) {
        assert(area_spans(t[areas.len() as int], a));
    }
    if areas_cover(t, a) {
        let i = choose|i: int| 0 <= i < t.len() && area_spans(#[trigger] t[i], a);
        if i < areas.len() {
            assert(area_spans(areas[i], a));
        }
    }
}

} // verus!
