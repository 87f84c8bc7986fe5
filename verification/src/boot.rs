//! Checking what the loader hands to the kernel.
use vstd::prelude::*;

use crate::memory::{MemoryRegion, DIRECT_MAP_BYTES, MEMORY_REGION_BYTES, PHYSICAL_MEMORY_OFFSET};

verus! {

/// The most regions in a memory map.
pub const MAX_MEMORY_REGIONS: u64 = 512;

/// The record of a region starts at a multiple of this.
pub const MEMORY_REGION_ALIGN: u64 = 8;

/// The screen.
#[derive(Clone, Copy, Debug, PartialEq, Eq, Structural)]
pub struct FramebufferInfo {
    pub physical_base: u64,
    pub byte_len: u64,
    pub width: u32,
    pub height: u32,
    pub stride_pixels: u32,
    pub bytes_per_pixel: u32,
    pub pixel_format: u32,
    pub red_mask: u32,
    pub green_mask: u32,
    pub blue_mask: u32,
    pub reserved_mask: u32,
}

/// Where the memory map is.
#[derive(Clone, Copy, Debug, PartialEq, Eq, Structural)]
pub struct MemoryMapInfo {
    pub entries_address: u64,
    pub entry_count: u64,
}

/// What loader and kernel agree on.
#[derive(Clone, Copy, Debug, PartialEq, Eq, Structural)]
pub struct BootAbi {
    pub magic: u64,
    pub version: u32,
    pub struct_size: u32,
}

/// What the loader hands to the kernel.
#[derive(Clone, Copy)]
pub struct BootInfo {
    pub magic: u64,
    pub abi_version: u32,
    pub struct_size: u32,
    pub framebuffer: FramebufferInfo,
    pub memory_map: MemoryMapInfo,
    pub root_partition_guid: [u8; 16],
    pub physical_memory_offset: u64,
    pub acpi_rsdp_phys: u64,
}

/// A screen whose pixels fit in its memory, which the processor sees. A pixel has four bytes.
pub open spec fn usable_framebuffer(f: FramebufferInfo) -> bool {
    &&& f.physical_base != 0
    &&& f.byte_len != 0
    &&& f.width != 0
    &&& f.height != 0
    &&& f.stride_pixels >= f.width
    &&& f.bytes_per_pixel == 4
    &&& f.stride_pixels * f.height * 4 <= f.byte_len
    &&& f.physical_base + f.byte_len <= DIRECT_MAP_BYTES
}

/// A record that says where the memory map is.
pub open spec fn usable_map_record(map: MemoryMapInfo) -> bool {
    &&& 0 < map.entry_count <= MAX_MEMORY_REGIONS
    &&& map.entries_address != 0
    &&& map.entries_address % MEMORY_REGION_ALIGN == 0
    &&& map.entries_address + map.entry_count * MEMORY_REGION_BYTES <= u64::MAX
}

/// Regions in order, none of them empty.
pub open spec fn ordered_regions(regions: Seq<MemoryRegion>) -> bool {
    &&& forall|i: int|
        0 <= i < regions.len() ==> (#[trigger] regions[i]).start < regions[i].end
            && regions[i].reserved == 0
    &&& forall|i: int, j: int|
        0 <= i < j < regions.len() ==> (#[trigger] regions[i]).end <= (#[trigger] regions[j]).start
}

/// A record that follows the agreement, with a root partition and firmware tables.
pub open spec fn follows_abi(info: BootInfo, abi: BootAbi) -> bool {
    &&& info.magic == abi.magic
    &&& info.abi_version == abi.version
    &&& info.struct_size == abi.struct_size
    &&& info.physical_memory_offset == PHYSICAL_MEMORY_OFFSET
    &&& info.acpi_rsdp_phys != 0
    &&& info.acpi_rsdp_phys % 4 == 0
    &&& exists|i: int| 0 <= i < 16 && #[trigger] info.root_partition_guid@[i] != 0
}

/// A record that can be used, but for the regions themselves.
pub open spec fn usable_record(info: BootInfo, abi: BootAbi) -> bool {
    follows_abi(info, abi) && usable_framebuffer(info.framebuffer) && usable_map_record(
        info.memory_map,
    )
}

/// Whether an address can be that of a record.
pub fn valid_pointer(address: u64, align: u64) -> (r: bool)
    requires
        align > 0,
    ensures
        r == (address != 0 && address % align == 0),
{
    address != 0 && address % align == 0
}

/// Whether the loader handed over a record that can be used. The regions that it leads to are
/// checked next.
pub fn valid_boot_info(info: &BootInfo, abi: &BootAbi) -> (r: bool)
    ensures
        r == usable_record(*info, *abi),
{
    if info.magic != abi.magic || info.abi_version != abi.version || info.struct_size
        != abi.struct_size || info.physical_memory_offset != PHYSICAL_MEMORY_OFFSET
        || info.acpi_rsdp_phys == 0 || info.acpi_rsdp_phys % 4 != 0 || all_zero(
        &info.root_partition_guid,
    ) {
        return false;
    }
    valid_framebuffer(&info.framebuffer) && valid_map_record(&info.memory_map)
}

/// Whether all bytes are zero.
fn all_zero(bytes: &[u8; 16]) -> (r: bool)
    ensures
        r == !(exists|i: int| 0 <= i < 16 && #[trigger] bytes@[i] != 0),
{
    let mut i: usize = 0;
    while i < 16
        invariant
            i <= 16,
            forall|k: int| 0 <= k < i ==> #[trigger] bytes@[k] == 0,
        decreases 16 - i,
    {
        if bytes[i] != 0 {
            assert(bytes@[i as int] != 0);
            return false;
        }
        i = i + 1;
    }
    true
}

/// Whether a screen can be used.
pub fn valid_framebuffer(framebuffer: &FramebufferInfo) -> (r: bool)
    ensures
        r == usable_framebuffer(*framebuffer),
{
    if framebuffer.physical_base == 0 || framebuffer.byte_len == 0 || framebuffer.width == 0
        || framebuffer.height == 0 || framebuffer.stride_pixels < framebuffer.width
        || framebuffer.bytes_per_pixel != 4 {
        return false;
    }
    let stride: u64 = framebuffer.stride_pixels as u64;
    let height: u64 = framebuffer.height as u64;
    let pixels: u64 = match stride.checked_mul(height) {
        Some(pixels) => pixels,
        None => return false,
    };
    let required: u64 = match pixels.checked_mul(4) {
        Some(required) => required,
        None => return false,
    };
    let end: u64 = match framebuffer.physical_base.checked_add(framebuffer.byte_len) {
        Some(end) => end,
        None => return false,
    };
    required <= framebuffer.byte_len && end <= DIRECT_MAP_BYTES
}

/// Whether a record leads to a memory map.
fn valid_map_record(map: &MemoryMapInfo) -> (r: bool)
    ensures
        r == usable_map_record(*map),
{
    if map.entry_count == 0 || map.entry_count > MAX_MEMORY_REGIONS || map.entries_address == 0
        || map.entries_address % MEMORY_REGION_ALIGN != 0 {
        return false;
    }
    map.entries_address.checked_add(map.entry_count * MEMORY_REGION_BYTES).is_some()
}

/// Whether regions are in order.
pub fn valid_memory_map(regions: &[MemoryRegion]) -> (r: bool)
    ensures
        r == ordered_regions(regions@),
{
    let mut previous_end: u64 = 0;
    let mut i: usize = 0;
    while i < regions.len()
        invariant
            i <= regions@.len(),
            ordered_regions(regions@.take(i as int)),
            previous_end == (if i == 0 {
                0
            } else {
                regions@[i - 1].end
            }),
        decreases regions@.len() - i,
    {
        let region: MemoryRegion = regions[i];
        if region.start >= region.end || region.start < previous_end || region.reserved != 0 {
            proof {
                if ordered_regions(regions@) {
                    assert(regions@[i as int] == region);
                    if i > 0 {
                        assert(regions@[i - 1].end <= regions@[i as int].start);
                    }
                }
            }
            return false;
        }
        proof {
            let before = regions@.take(i as int);
            let after = regions@.take(i + 1);
            assert forall|k: int| 0 <= k < after.len() implies (#[trigger] after[k]).start
                < after[k].end && after[k].reserved == 0 by {
                if k < i {
                    assert(after[k] == before[k]);
                }
            }
            assert forall|k: int, j: int| 0 <= k < j < after.len() implies (
            #[trigger] after[k]).end <= (#[trigger] after[j]).start by {
                if j < i {
                    assert(before[k].end <= before[j].start);
                } else if k < i - 1 {
                    assert(before[k].end <= before[i - 1].start);
                    assert(before[i - 1].start < before[i - 1].end);
                }
            }
        }
        previous_end = region.end;
        i = i + 1;
    }
    assert(regions@.take(i as int) =~= regions@);
    true
}

/// The first region that holds an address.
pub open spec fn holder(regions: Seq<MemoryRegion>, address: u64, from: int) -> Option<MemoryRegion>
    decreases regions.len() - from,
{
    if from < 0 || from >= regions.len() {
        None
    } else if regions[from].start <= address < regions[from].end {
        Some(regions[from])
    } else {
        holder(regions, address, from + 1)
    }
}

/// The first region that holds an address.
pub fn region_holding(regions: &[MemoryRegion], address: u64) -> (r: Option<MemoryRegion>)
    ensures
        r == holder(regions@, address, 0),
{
    let mut i: usize = 0;
    while i < regions.len()
        invariant
            i <= regions@.len(),
            holder(regions@, address, 0) == holder(regions@, address, i as int),
        decreases regions@.len() - i,
    {
        let region: MemoryRegion = regions[i];
        if region.start <= address && address < region.end {
            return Some(region);
        }
        i = i + 1;
    }
    None
}

/// Every pixel of a screen that can be used lies in its memory, and the processor sees it.
pub proof fn law_pixels_are_in_memory(f: FramebufferInfo, x: int, y: int)
    requires
        usable_framebuffer(f),
        0 <= x < f.width,
        0 <= y < f.height,
    ensures
        (y * f.stride_pixels + x) * 4 + 4 <= f.byte_len,
        f.physical_base + (y * f.stride_pixels + x) * 4 + 4 <= DIRECT_MAP_BYTES,
{
    let stride = f.stride_pixels as int;
    let height = f.height as int;
    assert(y * stride + x + 1 <= stride * height) by (nonlinear_arith)
        requires
            0 <= x < stride,
            0 <= y < height,
    ;
}

proof fn lemma_holder(regions: Seq<MemoryRegion>, address: u64, from: int)
    requires
        0 <= from,
    ensures
        match holder(regions, address, from) {
            Some(region) => region.start <= address < region.end && exists|i: int|
                from <= i < regions.len() && #[trigger] regions[i] == region,
            None => forall|i: int|
                from <= i < regions.len() ==> !((#[trigger] regions[i]).start <= address
                    < regions[i].end),
        },
    decreases regions.len() - from,
{
    if from < regions.len() && !(regions[from].start <= address < regions[from].end) {
        lemma_holder(regions, address, from + 1);
    }
}

/// A region that is found is one of the list and holds the address; none is found only where no
/// region holds it.
pub proof fn law_the_holder_holds_the_address(regions: Seq<MemoryRegion>, address: u64)
    ensures
        match holder(regions, address, 0) {
            Some(region) => region.start <= address < region.end && exists|i: int|
                0 <= i < regions.len() && #[trigger] regions[i] == region,
            None => forall|i: int|
                0 <= i < regions.len() ==> !((#[trigger] regions[i]).start <= address
                    < regions[i].end),
        },
{
    lemma_holder(regions, address, 0);
}

} // verus!
