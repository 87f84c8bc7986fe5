//! The entry of the kernel. Each step looks at what was handed over, and goes on or says why not.
use vstd::prelude::*;

use crate::boot::{
    holder, ordered_regions, region_holding, usable_record, valid_boot_info, valid_memory_map,
    valid_pointer, BootAbi, BootInfo,
};
use crate::console::TextOutput;
use crate::memory::{
    frames_available, initialize_frame_allocator, MemoryRegion, PhysicalFrameAllocator,
    MEMORY_REGION_BYTES,
};
use crate::report::{
    report_rsdp, rsdp_lines, say, with, KERNEL_ENTRY_INVALID, KERNEL_FRAMEBUFFER_INVALID,
    KERNEL_MEMORY_MAP_INVALID,
};

verus! {

/// The text with a line, unless all is well.
pub open spec fn unless(ok: bool, text: Seq<u8>, line: &str) -> Seq<u8> {
    if ok {
        text
    } else {
        with(text, line)
    }
}

/// Looks at the address of the record.
pub fn accept_pointer<O: TextOutput>(output: &mut O, address: u64, align: u64) -> (ok: bool)
    requires
        align > 0,
    ensures
        ok == (address != 0 && address % align == 0),
        final(output).text() == unless(ok, old(output).text(), KERNEL_ENTRY_INVALID),
{
    let ok = valid_pointer(address, align);
    if !ok {
        say(output, KERNEL_ENTRY_INVALID);
    }
    ok
}

/// Looks at the record.
pub fn accept_record<O: TextOutput>(output: &mut O, info: &BootInfo, abi: &BootAbi) -> (ok: bool)
    ensures
        ok == usable_record(*info, *abi),
        final(output).text() == unless(ok, old(output).text(), KERNEL_ENTRY_INVALID),
{
    let ok = valid_boot_info(info, abi);
    if !ok {
        say(output, KERNEL_ENTRY_INVALID);
    }
    ok
}

/// Looks at the regions of memory that the record leads to.
pub fn accept_regions<O: TextOutput>(output: &mut O, regions: &[MemoryRegion]) -> (ok: bool)
    ensures
        ok == ordered_regions(regions@),
        final(output).text() == unless(ok, old(output).text(), KERNEL_ENTRY_INVALID),
{
    let ok = valid_memory_map(regions);
    if !ok {
        say(output, KERNEL_ENTRY_INVALID);
    }
    ok
}

/// What is said when the screen is set up, or is not: why the kernel stops, or where the firmware
/// tables are.
pub open spec fn memory_lines(
    text: Seq<u8>,
    info: BootInfo,
    info_start: u64,
    info_bytes: u64,
    regions: Seq<MemoryRegion>,
    screen: bool,
) -> Seq<u8> {
    if !screen {
        with(text, KERNEL_FRAMEBUFFER_INVALID)
    } else if !frames_available(regions, info_start, info_bytes, info.memory_map.entries_address) {
        with(text, KERNEL_MEMORY_MAP_INVALID)
    } else {
        rsdp_lines(text, info.acpi_rsdp_phys, holder(regions, info.acpi_rsdp_phys, 0))
    }
}

/// Takes the memory over, where the screen could be set up. The record at `info_start` and the map
/// of the regions stay where they are.
pub fn take_memory<'a, O: TextOutput>(
    output: &mut O,
    info: &BootInfo,
    info_start: u64,
    info_bytes: u64,
    regions: &'a [MemoryRegion],
    screen: bool,
) -> (frames: Option<PhysicalFrameAllocator<'a>>)
    ensures
        final(output).text() == memory_lines(
            old(output).text(),
            *info,
            info_start,
            info_bytes,
            regions@,
            screen,
        ),
        frames is Some <==> screen && frames_available(
            regions@,
            info_start,
            info_bytes,
            info.memory_map.entries_address,
        ),
        frames matches Some(frames) ==> {
            let map = info.memory_map.entries_address;
            &&& frames.wf()
            &&& frames@.regions == regions@
            &&& frames@.boot_info == (info_start, (info_start + info_bytes) as u64)
            &&& frames@.memory_map == (map, (map + regions@.len() * MEMORY_REGION_BYTES) as u64)
            &&& forall|f: int| #[trigger] frames@.usable(f) ==> frames@.cursor <= f
        },
{
    if !screen {
        say(output, KERNEL_FRAMEBUFFER_INVALID);
        return None;
    }
    let map: u64 = info.memory_map.entries_address;
    match initialize_frame_allocator(regions, info_start, info_bytes, map) {
        Ok(frames) => {
            let rsdp: u64 = info.acpi_rsdp_phys;
            report_rsdp(output, rsdp, region_holding(regions, rsdp));
            Some(frames)
        },
        Err(()) => {
            say(output, KERNEL_MEMORY_MAP_INVALID);
            None
        },
    }
}

} // verus!
