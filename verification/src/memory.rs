//! Physical memory: which frames may be handed out, and where the processor sees them.
use vstd::prelude::*;

verus! {

/// Where the processor sees physical address zero.
pub const PHYSICAL_MEMORY_OFFSET: u64 = 0xFFFF_8000_0000_0000;

/// The bytes of physical memory that the processor sees there.
pub const DIRECT_MAP_BYTES: u64 = 0x8000_0000_0000;

pub const PAGE_SIZE: u64 = 4096;

/// The kind of a region whose frames may be handed out.
pub const MEMORY_REGION_USABLE: u32 = 1;

/// A part of physical memory: from its first byte up to, but without, its end.
#[derive(Clone, Copy, Debug, PartialEq, Eq, Structural)]
pub struct MemoryRegion {
    pub start: u64,
    pub end: u64,
    pub kind: u32,
    pub reserved: u32,
}

/// Bytes in the record of a region.
pub const MEMORY_REGION_BYTES: u64 = 24;

/// A range that the processor sees: not empty, and nowhere behind what is mapped.
pub open spec fn directly_mapped(physical: int, len: int) -> bool {
    0 <= physical && 0 < len && physical + len <= DIRECT_MAP_BYTES
}

/// Where the processor sees a physical range, if it sees all of it.
pub fn direct_address(physical: u64, len: usize) -> (r: Option<u64>)
    ensures
        r == (if directly_mapped(physical as int, len as int) {
            Some((physical + PHYSICAL_MEMORY_OFFSET) as u64)
        } else {
            None
        }),
{
    let end: u64 = match physical.checked_add(len as u64) {
        Some(end) => end,
        None => return None,
    };
    if len == 0 || end > DIRECT_MAP_BYTES {
        return None;
    }
    Some(physical + PHYSICAL_MEMORY_OFFSET)
}

/// Ranges that are mapped and do not overlap are seen at places that do not overlap.
pub proof fn law_direct_map_keeps_ranges_apart(a: u64, x: usize, b: u64, y: usize)
    requires
        directly_mapped(a as int, x as int),
        directly_mapped(b as int, y as int),
        a + x <= b,
    ensures
        (a + PHYSICAL_MEMORY_OFFSET) + x <= (b + PHYSICAL_MEMORY_OFFSET),
        (b + PHYSICAL_MEMORY_OFFSET) + y - 1 <= u64::MAX,
{
}

/// Regions that a frame allocator can walk: whole pages, none empty, in order.
pub open spec fn walkable(regions: Seq<MemoryRegion>) -> bool {
    &&& forall|i: int|
        0 <= i < regions.len() ==> {
            let region = #[trigger] regions[i];
            &&& region.start < region.end
            &&& region.start % PAGE_SIZE == 0
            &&& region.end % PAGE_SIZE == 0
            &&& region.reserved == 0
        }
    &&& forall|i: int, j: int|
        0 <= i < j < regions.len() ==> (#[trigger] regions[i]).end <= (#[trigger] regions[j]).start
}

/// Two ranges that share a byte.
pub open spec fn overlapping(a: (u64, u64), b: (u64, u64)) -> bool {
    a.0 < b.1 && b.0 < a.1
}

fn overlaps(left: (u64, u64), right: (u64, u64)) -> (r: bool)
    ensures
        r == overlapping(left, right),
{
    left.0 < right.1 && right.0 < left.1
}

/// A frame of a usable region. Page zero is never one: it marks a page table entry that leads
/// nowhere.
pub open spec fn frame_in(regions: Seq<MemoryRegion>, frame: int) -> bool {
    &&& frame % (PAGE_SIZE as int) == 0
    &&& frame != 0
    &&& exists|i: int|
        0 <= i < regions.len() && (#[trigger] regions[i]).kind == MEMORY_REGION_USABLE
            && regions[i].start <= frame < regions[i].end
}

/// A frame that shares no byte with a range.
pub open spec fn clear_of(frame: int, range: (u64, u64)) -> bool {
    range.1 <= frame || frame + PAGE_SIZE <= range.0
}

/// Hands out the frames of the usable regions, each once, except those that hold the boot data.
pub struct PhysicalFrameAllocator<'a> {
    regions: &'a [MemoryRegion],
    boot_info: (u64, u64),
    memory_map: (u64, u64),
    region_index: usize,
    next: u64,
}

/// What a frame allocator knows.
pub struct FrameState {
    pub regions: Seq<MemoryRegion>,
    pub boot_info: (u64, u64),
    pub memory_map: (u64, u64),
    /// Every frame before this address has been handed out or passed over.
    pub cursor: int,
}

impl FrameState {
    /// A frame that may be handed out.
    pub open spec fn usable(self, frame: int) -> bool {
        &&& frame_in(self.regions, frame)
        &&& clear_of(frame, self.boot_info)
        &&& clear_of(frame, self.memory_map)
    }

    /// The state when all frames before an address are gone.
    pub open spec fn moved(self, cursor: int) -> FrameState {
        FrameState { cursor, ..self }
    }
}

impl<'a> View for PhysicalFrameAllocator<'a> {
    type V = FrameState;

    closed spec fn view(&self) -> FrameState {
        FrameState {
            regions: self.regions@,
            boot_info: self.boot_info,
            memory_map: self.memory_map,
            cursor: self.cursor(),
        }
    }
}

impl<'a> PhysicalFrameAllocator<'a> {
    /// Where the search for the next frame starts.
    closed spec fn cursor(&self) -> int {
        if self.region_index < self.regions@.len() {
            self.next as int
        } else {
            u64::MAX + 1
        }
    }

    /// The regions can be walked, and the search stands in one of them or behind all.
    pub closed spec fn wf(&self) -> bool {
        &&& walkable(self.regions@)
        &&& self.region_index <= self.regions@.len()
        &&& self.region_index < self.regions@.len() ==> self.next % PAGE_SIZE == 0
            && self.regions@[self.region_index as int].start <= self.next
            <= self.regions@[self.region_index as int].end
    }

    /// The next frame, in the order of addresses.
    pub fn allocate_frame(&mut self) -> (r: Option<u64>)
        requires
            old(self).wf(),
        ensures
            final(self).wf(),
            match r {
                Some(frame) => {
                    &&& old(self)@.usable(frame as int)
                    &&& old(self)@.cursor <= frame
                    &&& forall|f: int|
                        old(self)@.cursor <= f < frame ==> !#[trigger] old(self)@.usable(f)
                    &&& final(self)@ == old(self)@.moved(final(self)@.cursor)
                    &&& final(self)@.cursor == frame + PAGE_SIZE
                },
                None => {
                    &&& forall|f: int|
                        old(self)@.cursor <= f ==> !#[trigger] old(self)@.usable(f)
                    &&& final(self)@ == old(self)@.moved(final(self)@.cursor)
                    &&& final(self)@.cursor >= old(self)@.cursor
                },
            },
    {
        let ghost start = self@;
        while self.region_index < self.regions.len()
            invariant
                self.wf(),
                start == old(self)@,
                self@ == start.moved(self@.cursor),
                start.cursor <= self@.cursor,
                forall|f: int| start.cursor <= f < self@.cursor ==> !#[trigger] start.usable(f),
            decreases self.regions@.len() - self.region_index, u64::MAX - self.next,
        {
            let region: MemoryRegion = self.regions[self.region_index];
            if region.kind != MEMORY_REGION_USABLE || self.next >= region.end {
                let ghost before = self@;
                let index: usize = self.region_index;
                self.region_index = index + 1;
                self.next = if index + 1 < self.regions.len() {
                    self.regions[index + 1].start
                } else {
                    0
                };
                proof {
                    let regions = self.regions@;
                    assert forall|f: int| start.cursor <= f < self@.cursor implies !(
                    #[trigger] start.usable(f)) by {
                        if start.usable(f) && before.cursor <= f {
                            let i = choose|i: int|
                                0 <= i < regions.len() && (#[trigger] regions[i]).kind
                                    == MEMORY_REGION_USABLE && regions[i].start <= f
                                    < regions[i].end;
                            if i < index {
                                assert(regions[i].end <= regions[index as int].start);
                            } else if i > index {
                                assert(regions[i].start >= regions[index + 1].start);
                            }
                        }
                    }
                }
                continue;
            }
            let frame: u64 = self.next;
            let ghost held = self.regions@[self.region_index as int];
            assert(held.end <= u64::MAX - (PAGE_SIZE - 1)) by {
                assert(held.end % PAGE_SIZE == 0);
            }
            self.next = frame + PAGE_SIZE;
            proof {
                assert forall|f: int| frame < f < frame + PAGE_SIZE implies !(
                #[trigger] start.usable(f)) by {
                    assert(frame % PAGE_SIZE == 0);
                }
                assert(self@.cursor == frame + PAGE_SIZE);
            }
            if frame == 0 {
                continue;
            }
            assert(frame_in(start.regions, frame as int)) by {
                assert(start.regions[self.region_index as int].start <= frame);
            }
            let range: (u64, u64) = (frame, frame + PAGE_SIZE);
            if overlaps(range, self.boot_info) || overlaps(range, self.memory_map) {
                assert(!start.usable(frame as int));
                continue;
            }
            return Some(frame);
        }
        proof {
            assert forall|f: int| start.cursor <= f implies !(#[trigger] start.usable(f)) by {
                if start.usable(f) {
                    let regions = start.regions;
                    let i = choose|i: int|
                        0 <= i < regions.len() && (#[trigger] regions[i]).kind
                            == MEMORY_REGION_USABLE && regions[i].start <= f < regions[i].end;
                    assert(f <= u64::MAX);
                }
            }
        }
        None
    }
}

/// No frame is handed out twice, and none overlaps the boot data: of two frames that are handed
/// out one after the other the second lies behind the whole first.
pub proof fn law_frames_do_not_overlap(state: FrameState, first: u64, second: u64)
    requires
        state.usable(first as int),
        state.moved(first + PAGE_SIZE).usable(second as int),
        state.moved(first + PAGE_SIZE).cursor <= second,
    ensures
        first + PAGE_SIZE <= second,
        first != 0 && second != 0,
        clear_of(first as int, state.boot_info) && clear_of(first as int, state.memory_map),
        clear_of(second as int, state.boot_info) && clear_of(second as int, state.memory_map),
{
}

/// Why regions cannot be handed out: they cannot be walked, or a record does not fit in memory.
pub open spec fn frames_available(
    regions: Seq<MemoryRegion>,
    info_start: u64,
    info_bytes: u64,
    map_start: u64,
) -> bool {
    &&& info_start + info_bytes <= u64::MAX
    &&& map_start + regions.len() * MEMORY_REGION_BYTES <= u64::MAX
    &&& walkable(regions)
}

/// A frame allocator over regions of memory, where the boot record and the map of the regions
/// stay where they are.
pub fn initialize_frame_allocator<'a>(
    regions: &'a [MemoryRegion],
    info_start: u64,
    info_bytes: u64,
    map_start: u64,
) -> (r: Result<PhysicalFrameAllocator<'a>, ()>)
    ensures
        r is Ok <==> frames_available(regions@, info_start, info_bytes, map_start),
        r matches Ok(allocator) ==> {
            &&& allocator.wf()
            &&& allocator@.regions == regions@
            &&& allocator@.boot_info == (info_start, (info_start + info_bytes) as u64)
            &&& allocator@.memory_map == (
                map_start,
                (map_start + regions@.len() * MEMORY_REGION_BYTES) as u64,
            )
            &&& forall|f: int| #[trigger] allocator@.usable(f) ==> allocator@.cursor <= f
        },
{
    let info_end: u64 = match info_start.checked_add(info_bytes) {
        Some(end) => end,
        None => return Err(()),
    };
    let map_bytes: u64 = match MEMORY_REGION_BYTES.checked_mul(regions.len() as u64) {
        Some(bytes) => bytes,
        None => return Err(()),
    };
    let map_end: u64 = match map_start.checked_add(map_bytes) {
        Some(end) => end,
        None => return Err(()),
    };
    if !validate(regions) {
        return Err(());
    }
    let next: u64 = if regions.len() > 0 {
        regions[0].start
    } else {
        0
    };
    let allocator = PhysicalFrameAllocator {
        regions,
        boot_info: (info_start, info_end),
        memory_map: (map_start, map_end),
        region_index: 0,
        next,
    };
    assert forall|f: int| #[trigger] allocator@.usable(f) implies allocator@.cursor <= f by {
        let i = choose|i: int|
            0 <= i < regions@.len() && (#[trigger] regions@[i]).kind == MEMORY_REGION_USABLE
                && regions@[i].start <= f < regions@[i].end;
        assert(regions@[0].start <= regions@[i].start);
    }
    Ok(allocator)
}

/// Whether regions can be walked.
fn validate(regions: &[MemoryRegion]) -> (r: bool)
    ensures
        r == walkable(regions@),
{
    let mut previous_end: u64 = 0;
    let mut i: usize = 0;
    while i < regions.len()
        invariant
            i <= regions@.len(),
            walkable(regions@.take(i as int)),
            previous_end == (if i == 0 {
                0
            } else {
                regions@[i - 1].end
            }),
        decreases regions@.len() - i,
    {
        let region: MemoryRegion = regions[i];
        if region.start >= region.end || region.start % PAGE_SIZE != 0 || region.end % PAGE_SIZE
            != 0 || region.start < previous_end || region.reserved != 0 {
            proof {
                if walkable(regions@) {
                    assert(regions@[i as int] == region);
                    if i > 0 {
                        assert(regions@[i - 1].end <= regions@[i as int].start);
                    }
                }
            }
            return false;
        }
        proof {
            let before = regions@.take(i as int);
            let after = regions@.take(i + 1);
            assert forall|k: int| 0 <= k < after.len() implies {
                let region = #[trigger] after[k];
                &&& region.start < region.end
                &&& region.start % PAGE_SIZE == 0
                &&& region.end % PAGE_SIZE == 0
                &&& region.reserved == 0
            } by {
                if k < i {
                    assert(after[k] == before[k]);
                }
            }
            assert forall|k: int, j: int| 0 <= k < j < after.len() implies (
            #[trigger] after[k]).end <= (#[trigger] after[j]).start by {
                if j < i {
                    assert(before[k].end <= before[j].start);
                } else if k < i - 1 {
                    assert(before[k].end <= before[i - 1].start);
                    assert(before[i - 1].start < before[i - 1].end);
                }
            }
        }
        previous_end = region.end;
        i = i + 1;
    }
    assert(regions@.take(i as int) =~= regions@);
    true
}

} // verus!
