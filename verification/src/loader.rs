//! From the firmware to the kernel: what the loader does, in which order, and why it gives up.
use vstd::prelude::*;

use crate::boot::{
    usable_framebuffer, usable_map_record, usable_record, BootAbi, BootInfo, FramebufferInfo,
    MemoryMapInfo,
};
use crate::memory::{PAGE_SIZE, PHYSICAL_MEMORY_OFFSET};

verus! {

/// Why the kernel was not started.
#[derive(Clone, Copy, Debug, PartialEq, Eq, Structural)]
pub enum HandoffError {
    Files,
    Config,
    Elf,
    Memory,
    Paging,
    Graphics,
    Acpi,
}

/// The firmware's numbers for what it uses memory for.
pub const LOADER_DATA: u32 = 2;

pub const BOOT_SERVICES_CODE: u32 = 3;

pub const BOOT_SERVICES_DATA: u32 = 4;

pub const RUNTIME_SERVICES_CODE: u32 = 5;

pub const RUNTIME_SERVICES_DATA: u32 = 6;

pub const CONVENTIONAL: u32 = 7;

pub const ACPI_RECLAIM: u32 = 9;

/// Memory that the kernel reaches: what it may use, what the loader keeps, what the firmware gives
/// up, and the firmware's tables. Devices and reserved ranges are not: a stray access there is to
/// fail.
pub open spec fn direct_mapped(kind: u32) -> bool {
    ||| kind == CONVENTIONAL
    ||| kind == LOADER_DATA
    ||| kind == BOOT_SERVICES_CODE
    ||| kind == BOOT_SERVICES_DATA
    ||| kind == RUNTIME_SERVICES_CODE
    ||| kind == RUNTIME_SERVICES_DATA
    ||| kind == ACPI_RECLAIM
}

/// Whether the kernel reaches memory of a kind.
pub fn is_direct_mapped(kind: u32) -> (r: bool)
    ensures
        r == direct_mapped(kind),
{
    kind == CONVENTIONAL || kind == LOADER_DATA || kind == BOOT_SERVICES_CODE || kind
        == BOOT_SERVICES_DATA || kind == RUNTIME_SERVICES_CODE || kind == RUNTIME_SERVICES_DATA
        || kind == ACPI_RECLAIM
}

/// A range of memory as the firmware describes it.
#[derive(Clone, Copy, Debug, PartialEq, Eq, Structural)]
pub struct MemoryDescriptor {
    pub kind: u32,
    pub phys_start: u64,
    pub page_count: u64,
}

/// How a pixel is laid out.
#[derive(Clone, Copy, Debug, PartialEq, Eq, Structural)]
pub enum PixelLayout {
    Rgb,
    Bgr,
    /// The bits of the colours, if the firmware tells them.
    Bitmask(Option<PixelMasks>),
    /// The pixels are not in memory.
    BltOnly,
}

#[derive(Clone, Copy, Debug, PartialEq, Eq, Structural)]
pub struct PixelMasks {
    pub red: u32,
    pub green: u32,
    pub blue: u32,
    pub reserved: u32,
}

/// The screen as the firmware describes it.
#[derive(Clone, Copy, Debug, PartialEq, Eq, Structural)]
pub struct GraphicsMode {
    pub layout: PixelLayout,
    pub width: usize,
    pub height: usize,
    pub stride: usize,
    pub base: u64,
    pub byte_len: usize,
}

/// The number of a layout and its masks; only a bitmask has any.
pub open spec fn pixel_format(layout: PixelLayout) -> Option<(u32, PixelMasks)> {
    let none = PixelMasks { red: 0, green: 0, blue: 0, reserved: 0 };
    match layout {
        PixelLayout::Rgb => Some((0u32, none)),
        PixelLayout::Bgr => Some((1u32, none)),
        PixelLayout::Bitmask(Some(masks)) => Some((2u32, masks)),
        PixelLayout::Bitmask(None) => None,
        PixelLayout::BltOnly => None,
    }
}

/// The screen that the kernel is told of, if its pixels are in memory and its sizes fit.
pub open spec fn screen_of(mode: GraphicsMode) -> Option<FramebufferInfo> {
    match pixel_format(mode.layout) {
        None => None,
        Some((pixel_format, masks)) => if mode.width > u32::MAX || mode.height > u32::MAX
            || mode.stride > u32::MAX {
            None
        } else {
            Some(
                FramebufferInfo {
                    physical_base: mode.base,
                    byte_len: mode.byte_len as u64,
                    width: mode.width as u32,
                    height: mode.height as u32,
                    stride_pixels: mode.stride as u32,
                    bytes_per_pixel: 4,
                    pixel_format,
                    red_mask: masks.red,
                    green_mask: masks.green,
                    blue_mask: masks.blue,
                    reserved_mask: masks.reserved,
                },
            )
        },
    }
}

/// The screen that the kernel is told of.
pub fn capture_framebuffer(mode: GraphicsMode) -> (r: Result<FramebufferInfo, HandoffError>)
    ensures
        r == (match screen_of(mode) {
            Some(screen) => Ok(screen),
            None => Err(HandoffError::Graphics),
        }),
{
    let none = PixelMasks { red: 0, green: 0, blue: 0, reserved: 0 };
    let (pixel_format, masks): (u32, PixelMasks) = match mode.layout {
        PixelLayout::Rgb => (0, none),
        PixelLayout::Bgr => (1, none),
        PixelLayout::Bitmask(Some(masks)) => (2, masks),
        PixelLayout::Bitmask(None) => return Err(HandoffError::Graphics),
        PixelLayout::BltOnly => return Err(HandoffError::Graphics),
    };
    if mode.width as u64 > u32::MAX as u64 || mode.height as u64 > u32::MAX as u64
        || mode.stride as u64 > u32::MAX as u64 {
        return Err(HandoffError::Graphics);
    }
    Ok(
        FramebufferInfo {
            physical_base: mode.base,
            byte_len: mode.byte_len as u64,
            width: mode.width as u32,
            height: mode.height as u32,
            stride_pixels: mode.stride as u32,
            bytes_per_pixel: 4,
            pixel_format,
            red_mask: masks.red,
            green_mask: masks.green,
            blue_mask: masks.blue,
            reserved_mask: masks.reserved,
        },
    )
}

/// What a table of the firmware is.
#[derive(Clone, Copy, Debug, PartialEq, Eq, Structural)]
pub enum TableKind {
    Acpi2,
    Acpi1,
    Other,
}

/// A table of the firmware.
#[derive(Clone, Copy, Debug, PartialEq, Eq, Structural)]
pub struct FirmwareTable {
    pub kind: TableKind,
    pub address: u64,
}

/// The address of the first table of a kind.
pub open spec fn first_table(tables: Seq<FirmwareTable>, kind: TableKind, from: int) -> Option<u64>
    decreases tables.len() - from,
{
    if from < 0 || from >= tables.len() {
        None
    } else if tables[from].kind == kind {
        Some(tables[from].address)
    } else {
        first_table(tables, kind, from + 1)
    }
}

/// Where the tables about the machine start: the newer kind is preferred.
pub open spec fn rsdp_of(tables: Seq<FirmwareTable>) -> Option<u64> {
    let found = match first_table(tables, TableKind::Acpi2, 0) {
        Some(address) => Some(address),
        None => first_table(tables, TableKind::Acpi1, 0),
    };
    match found {
        Some(address) => if address != 0 {
            Some(address)
        } else {
            None
        },
        None => None,
    }
}

fn find_table(tables: &[FirmwareTable], kind: TableKind) -> (r: Option<u64>)
    ensures
        r == first_table(tables@, kind, 0),
{
    let mut i: usize = 0;
    while i < tables.len()
        invariant
            i <= tables@.len(),
            first_table(tables@, kind, 0) == first_table(tables@, kind, i as int),
        decreases tables@.len() - i,
    {
        if tables[i].kind == kind {
            return Some(tables[i].address);
        }
        i = i + 1;
    }
    None
}

/// Where the tables about the machine start.
pub fn capture_rsdp(tables: &[FirmwareTable]) -> (r: Result<u64, HandoffError>)
    ensures
        r == (match rsdp_of(tables@) {
            Some(address) => Ok(address),
            None => Err(HandoffError::Acpi),
        }),
{
    let found = match find_table(tables, TableKind::Acpi2) {
        Some(address) => Some(address),
        None => find_table(tables, TableKind::Acpi1),
    };
    match found {
        Some(address) => {
            if address != 0 {
                Ok(address)
            } else {
                Err(HandoffError::Acpi)
            }
        },
        None => Err(HandoffError::Acpi),
    }
}

/// Something for the loader to do.
#[derive(Clone, Copy, Debug, PartialEq, Eq, Structural)]
pub enum Task {
    ReadConfig,
    ParseConfig,
    ReadKernel,
    ParseKernel,
    LoadKernel,
    AskScreen,
    AskTables,
    AllocateStack,
    AllocateBootData,
    AllocateTransitionPage,
    NewTables,
    MapTransitionPage,
    MapFirstFourGigabytes,
    MapStack,
    MapBootData,
    AskMemory,
    MapMemory { start: u64, end: u64 },
    MapSegment { index: usize },
    MapScreen { base: u64, len: u64 },
    StackTop,
    FillRecord { framebuffer: FramebufferInfo, rsdp: u64 },
    LeaveFirmware,
    NormalizeMemory,
    EnterKernel,
    Halt,
}

/// What became of a task.
pub enum Outcome {
    Done,
    Failed,
    /// The kernel is loaded, in so many segments.
    Loaded { segments: usize },
    Screen { mode: GraphicsMode },
    Tables { tables: Vec<FirmwareTable> },
    Memory { descriptors: Vec<MemoryDescriptor> },
}

/// How far the loader is.
pub struct Handoff {
    pub task: Task,
    pub segments: usize,
    pub framebuffer: FramebufferInfo,
    pub rsdp: u64,
    pub descriptors: Vec<MemoryDescriptor>,
    /// The descriptors before this one have been mapped or passed over.
    pub mapped: usize,
}

/// The model of how far the loader is.
pub struct HandoffView {
    pub task: Task,
    pub segments: usize,
    pub framebuffer: FramebufferInfo,
    pub rsdp: u64,
    pub descriptors: Seq<MemoryDescriptor>,
    pub mapped: int,
}

impl View for Handoff {
    type V = HandoffView;

    open spec fn view(&self) -> HandoffView {
        HandoffView {
            task: self.task,
            segments: self.segments,
            framebuffer: self.framebuffer,
            rsdp: self.rsdp,
            descriptors: self.descriptors@,
            mapped: self.mapped as int,
        }
    }
}

/// Why the loader gives up when a task fails. After the firmware is left there is no one to tell.
pub open spec fn failure_of(task: Task) -> HandoffError {
    match task {
        Task::ReadConfig => HandoffError::Files,
        Task::ParseConfig => HandoffError::Config,
        Task::ReadKernel => HandoffError::Files,
        Task::ParseKernel => HandoffError::Elf,
        Task::AskScreen => HandoffError::Graphics,
        Task::AskTables => HandoffError::Acpi,
        Task::NewTables => HandoffError::Paging,
        Task::MapTransitionPage => HandoffError::Paging,
        Task::MapFirstFourGigabytes => HandoffError::Paging,
        Task::MapStack => HandoffError::Paging,
        Task::MapBootData => HandoffError::Paging,
        Task::MapMemory { .. } => HandoffError::Paging,
        Task::MapSegment { .. } => HandoffError::Paging,
        Task::MapScreen { .. } => HandoffError::Paging,
        _ => HandoffError::Memory,
    }
}

/// Goes on to a task.
pub open spec fn go(s: HandoffView, task: Task) -> Result<HandoffView, HandoffError> {
    Ok(HandoffView { task, ..s })
}

/// Maps a segment of the kernel, or the screen if all are mapped.
pub open spec fn next_segment(s: HandoffView, index: int) -> Result<HandoffView, HandoffError> {
    if index < s.segments {
        go(s, Task::MapSegment { index: index as usize })
    } else {
        go(
            s,
            Task::MapScreen { base: s.framebuffer.physical_base, len: s.framebuffer.byte_len },
        )
    }
}

/// Maps the next range of memory that the kernel reaches, or the kernel if all are mapped.
pub open spec fn next_memory(s: HandoffView, from: int) -> Result<HandoffView, HandoffError>
    decreases s.descriptors.len() - from,
{
    if from < 0 || from >= s.descriptors.len() {
        next_segment(HandoffView { mapped: from, ..s }, 0)
    } else {
        let d = s.descriptors[from];
        if !direct_mapped(d.kind) {
            next_memory(s, from + 1)
        } else if d.phys_start + d.page_count * PAGE_SIZE > u64::MAX {
            Err(HandoffError::Memory)
        } else {
            go(
                HandoffView { mapped: from + 1, ..s },
                Task::MapMemory {
                    start: d.phys_start,
                    end: (d.phys_start + d.page_count * PAGE_SIZE) as u64,
                },
            )
        }
    }
}

/// What follows a task that was done and had no result.
pub open spec fn after_done(s: HandoffView) -> Result<HandoffView, HandoffError> {
    match s.task {
        Task::ReadConfig => go(s, Task::ParseConfig),
        Task::ParseConfig => go(s, Task::ReadKernel),
        Task::ReadKernel => go(s, Task::ParseKernel),
        Task::ParseKernel => go(s, Task::LoadKernel),
        Task::AllocateStack => go(s, Task::AllocateBootData),
        Task::AllocateBootData => go(s, Task::AllocateTransitionPage),
        Task::AllocateTransitionPage => go(s, Task::NewTables),
        Task::NewTables => go(s, Task::MapTransitionPage),
        Task::MapTransitionPage => go(s, Task::MapFirstFourGigabytes),
        Task::MapFirstFourGigabytes => go(s, Task::MapStack),
        Task::MapStack => go(s, Task::MapBootData),
        Task::MapBootData => go(s, Task::AskMemory),
        Task::MapMemory { .. } => next_memory(s, s.mapped),
        Task::MapSegment { index } => next_segment(s, index + 1),
        Task::MapScreen { .. } => go(s, Task::StackTop),
        Task::StackTop => go(s, Task::FillRecord { framebuffer: s.framebuffer, rsdp: s.rsdp }),
        Task::FillRecord { .. } => go(s, Task::LeaveFirmware),
        Task::LeaveFirmware => go(s, Task::NormalizeMemory),
        Task::NormalizeMemory => go(s, Task::EnterKernel),
        _ => Err(failure_of(s.task)),
    }
}

/// What follows an outcome. An outcome that does not belong to the task is a failure of it.
pub open spec fn handoff_step(s: HandoffView, outcome: Outcome) -> Result<
    HandoffView,
    HandoffError,
> {
    match outcome {
        Outcome::Done => after_done(s),
        Outcome::Failed => if s.task is NormalizeMemory {
            go(s, Task::Halt)
        } else {
            Err(failure_of(s.task))
        },
        Outcome::Loaded { segments } => if s.task is LoadKernel {
            go(HandoffView { segments, ..s }, Task::AskScreen)
        } else {
            Err(failure_of(s.task))
        },
        Outcome::Screen { mode } => if s.task is AskScreen && screen_of(mode) is Some {
            go(HandoffView { framebuffer: screen_of(mode)->0, ..s }, Task::AskTables)
        } else {
            Err(failure_of(s.task))
        },
        Outcome::Tables { tables } => if s.task is AskTables && rsdp_of(tables@) is Some {
            go(HandoffView { rsdp: rsdp_of(tables@)->0, ..s }, Task::AllocateStack)
        } else {
            Err(failure_of(s.task))
        },
        Outcome::Memory { descriptors } => if s.task is AskMemory {
            next_memory(HandoffView { descriptors: descriptors@, mapped: 0, ..s }, 0)
        } else {
            Err(failure_of(s.task))
        },
    }
}

/// Why the loader gives up when a task fails.
fn failure(task: Task) -> (e: HandoffError)
    ensures
        e == failure_of(task),
{
    match task {
        Task::ReadConfig => HandoffError::Files,
        Task::ParseConfig => HandoffError::Config,
        Task::ReadKernel => HandoffError::Files,
        Task::ParseKernel => HandoffError::Elf,
        Task::AskScreen => HandoffError::Graphics,
        Task::AskTables => HandoffError::Acpi,
        Task::NewTables => HandoffError::Paging,
        Task::MapTransitionPage => HandoffError::Paging,
        Task::MapFirstFourGigabytes => HandoffError::Paging,
        Task::MapStack => HandoffError::Paging,
        Task::MapBootData => HandoffError::Paging,
        Task::MapMemory { .. } => HandoffError::Paging,
        Task::MapSegment { .. } => HandoffError::Paging,
        Task::MapScreen { .. } => HandoffError::Paging,
        _ => HandoffError::Memory,
    }
}

/// What a step of the loader leaves.
pub open spec fn follows(
    r: Result<(), HandoffError>,
    after: HandoffView,
    step: Result<HandoffView, HandoffError>,
) -> bool {
    match step {
        Ok(next) => r is Ok && after == next,
        Err(e) => r == Err::<(), _>(e),
    }
}

/// Nothing is known yet, and the first task is to read the configuration.
pub open spec fn at_the_start() -> HandoffView {
    HandoffView {
        task: Task::ReadConfig,
        segments: 0,
        framebuffer: FramebufferInfo {
            physical_base: 0,
            byte_len: 0,
            width: 0,
            height: 0,
            stride_pixels: 0,
            bytes_per_pixel: 0,
            pixel_format: 0,
            red_mask: 0,
            green_mask: 0,
            blue_mask: 0,
            reserved_mask: 0,
        },
        rsdp: 0,
        descriptors: Seq::empty(),
        mapped: 0,
    }
}

impl Handoff {
    /// The loader has done nothing yet: its first task is to read its configuration.
    pub fn boot() -> (handoff: Handoff)
        ensures
            handoff@ == at_the_start(),
            handoff.wf(),
    {
        let handoff = Handoff {
            task: Task::ReadConfig,
            segments: 0,
            framebuffer: FramebufferInfo {
                physical_base: 0,
                byte_len: 0,
                width: 0,
                height: 0,
                stride_pixels: 0,
                bytes_per_pixel: 0,
                pixel_format: 0,
                red_mask: 0,
                green_mask: 0,
                blue_mask: 0,
                reserved_mask: 0,
            },
            rsdp: 0,
            descriptors: Vec::new(),
            mapped: 0,
        };
        assert(handoff@.descriptors =~= seq![]);
        handoff
    }

    /// The counts are within what they count.
    pub open spec fn wf(self) -> bool {
        &&& self.mapped <= self.descriptors@.len()
        &&& self.task matches Task::MapSegment { index } ==> index < self.segments
    }

    fn next_segment(&mut self, index: usize)
        requires
            old(self).mapped <= old(self).descriptors@.len(),
        ensures
            final(self).wf(),
            next_segment(old(self)@, index as int) == Ok::<_, HandoffError>(final(self)@),
    {
        self.task = if index < self.segments {
            Task::MapSegment { index }
        } else {
            Task::MapScreen {
                base: self.framebuffer.physical_base,
                len: self.framebuffer.byte_len,
            }
        };
    }

    fn next_memory(&mut self) -> (r: Result<(), HandoffError>)
        requires
            old(self).mapped <= old(self).descriptors@.len(),
        ensures
            r is Ok ==> final(self).wf(),
            follows(r, final(self)@, next_memory(old(self)@, old(self)@.mapped)),
    {
        let ghost whole = next_memory(self@, self@.mapped);
        let ghost first = self@;
        while self.mapped < self.descriptors.len()
            invariant
                self.mapped <= self.descriptors@.len(),
                self@ == (HandoffView { mapped: self.mapped as int, ..first }),
                first == old(self)@,
                whole == next_memory(first, old(self)@.mapped),
                whole == next_memory(first, self.mapped as int),
            decreases self.descriptors@.len() - self.mapped,
        {
            let descriptor: MemoryDescriptor = self.descriptors[self.mapped];
            if is_direct_mapped(descriptor.kind) {
                let bytes: u64 = match descriptor.page_count.checked_mul(PAGE_SIZE) {
                    Some(bytes) => bytes,
                    None => return Err(HandoffError::Memory),
                };
                let end: u64 = match descriptor.phys_start.checked_add(bytes) {
                    Some(end) => end,
                    None => return Err(HandoffError::Memory),
                };
                self.mapped = self.mapped + 1;
                self.task = Task::MapMemory { start: descriptor.phys_start, end };
                return Ok(());
            }
            self.mapped = self.mapped + 1;
        }
        self.next_segment(0);
        Ok(())
    }

    fn on_done(&mut self) -> (r: Result<(), HandoffError>)
        requires
            old(self).wf(),
        ensures
            r is Ok ==> final(self).wf(),
            follows(r, final(self)@, after_done(old(self)@)),
    {
        self.task = match self.task {
            Task::ReadConfig => Task::ParseConfig,
            Task::ParseConfig => Task::ReadKernel,
            Task::ReadKernel => Task::ParseKernel,
            Task::ParseKernel => Task::LoadKernel,
            Task::AllocateStack => Task::AllocateBootData,
            Task::AllocateBootData => Task::AllocateTransitionPage,
            Task::AllocateTransitionPage => Task::NewTables,
            Task::NewTables => Task::MapTransitionPage,
            Task::MapTransitionPage => Task::MapFirstFourGigabytes,
            Task::MapFirstFourGigabytes => Task::MapStack,
            Task::MapStack => Task::MapBootData,
            Task::MapBootData => Task::AskMemory,
            Task::MapMemory { .. } => {
                return self.next_memory();
            },
            Task::MapSegment { index } => {
                self.next_segment(index + 1);
                return Ok(());
            },
            Task::MapScreen { .. } => Task::StackTop,
            Task::StackTop => Task::FillRecord { framebuffer: self.framebuffer, rsdp: self.rsdp },
            Task::FillRecord { .. } => Task::LeaveFirmware,
            Task::LeaveFirmware => Task::NormalizeMemory,
            Task::NormalizeMemory => Task::EnterKernel,
            other => return Err(failure(other)),
        };
        Ok(())
    }

    /// Goes on with what became of the task: picks the next one, or says why the loader gives up.
    pub fn resume(&mut self, outcome: Outcome) -> (r: Result<(), HandoffError>)
        requires
            old(self).wf(),
        ensures
            r is Ok ==> final(self).wf(),
            follows(r, final(self)@, handoff_step(old(self)@, outcome)),
    {
        match (outcome, self.task) {
            (Outcome::Done, _) => self.on_done(),
            (Outcome::Failed, Task::NormalizeMemory) => {
                self.task = Task::Halt;
                Ok(())
            },
            (Outcome::Loaded { segments }, Task::LoadKernel) => {
                self.segments = segments;
                self.task = Task::AskScreen;
                Ok(())
            },
            (Outcome::Screen { mode }, Task::AskScreen) => {
                self.framebuffer = capture_framebuffer(mode)?;
                self.task = Task::AskTables;
                Ok(())
            },
            (Outcome::Tables { tables }, Task::AskTables) => {
                self.rsdp = capture_rsdp(tables.as_slice())?;
                self.task = Task::AllocateStack;
                Ok(())
            },
            (Outcome::Memory { descriptors }, Task::AskMemory) => {
                self.descriptors = descriptors;
                self.mapped = 0;
                self.next_memory()
            },
            (_, task) => Err(failure(task)),
        }
    }
}

/// The record that the kernel is given.
pub open spec fn filled(
    abi: BootAbi,
    framebuffer: FramebufferInfo,
    guid: [u8; 16],
    rsdp: u64,
    memory_map: MemoryMapInfo,
) -> BootInfo {
    BootInfo {
        magic: abi.magic,
        abi_version: abi.version,
        struct_size: abi.struct_size,
        framebuffer,
        memory_map,
        root_partition_guid: guid,
        physical_memory_offset: PHYSICAL_MEMORY_OFFSET,
        acpi_rsdp_phys: rsdp,
    }
}

/// The record that the kernel is given.
pub fn fill_boot_info(
    abi: &BootAbi,
    framebuffer: FramebufferInfo,
    guid: [u8; 16],
    rsdp: u64,
    memory_map: MemoryMapInfo,
) -> (info: BootInfo)
    ensures
        info == filled(*abi, framebuffer, guid, rsdp, memory_map),
{
    BootInfo {
        magic: abi.magic,
        abi_version: abi.version,
        struct_size: abi.struct_size,
        framebuffer,
        memory_map,
        root_partition_guid: guid,
        physical_memory_offset: PHYSICAL_MEMORY_OFFSET,
        acpi_rsdp_phys: rsdp,
    }
}

/// The kernel accepts the record that the loader fills, where the root partition has an identity,
/// the tables are aligned, and the screen and the memory map can be used.
pub proof fn law_the_kernel_accepts_the_record(
    abi: BootAbi,
    framebuffer: FramebufferInfo,
    guid: [u8; 16],
    rsdp: u64,
    memory_map: MemoryMapInfo,
)
    requires
        rsdp != 0 && rsdp % 4 == 0,
        exists|i: int| 0 <= i < 16 && #[trigger] guid@[i] != 0,
        usable_framebuffer(framebuffer),
        usable_map_record(memory_map),
    ensures
        usable_record(filled(abi, framebuffer, guid, rsdp, memory_map), abi),
{
    let i = choose|i: int| 0 <= i < 16 && #[trigger] guid@[i] != 0;
    assert(filled(abi, framebuffer, guid, rsdp, memory_map).root_partition_guid@[i] != 0);
}

/// The firmware is left only after the record is filled, and the kernel is entered only after the
/// firmware is left and its memory map is in order. Where that fails, nothing is left to do.
pub proof fn law_the_kernel_is_entered_last(s: HandoffView, outcome: Outcome)
    ensures
        handoff_step(s, outcome) matches Ok(t) ==> {
            &&& t.task is LeaveFirmware ==> s.task is FillRecord
            &&& t.task is FillRecord ==> s.task is StackTop && t.task == (Task::FillRecord {
                framebuffer: s.framebuffer,
                rsdp: s.rsdp,
            })
            &&& t.task is NormalizeMemory ==> s.task is LeaveFirmware
            &&& t.task is EnterKernel ==> s.task is NormalizeMemory && outcome is Done
            &&& t.task is Halt ==> s.task is NormalizeMemory && outcome is Failed
        },
{
    if outcome is Memory {
        lemma_next_memory(
            HandoffView { descriptors: outcome->descriptors@, mapped: 0, ..s },
            0,
        );
    }
    if s.task is MapMemory {
        lemma_next_memory(s, s.mapped);
    }
}

/// Mapping memory leads to more mapping only.
proof fn lemma_next_memory(s: HandoffView, from: int)
    ensures
        next_memory(s, from) matches Ok(t) ==> t.task is MapMemory || t.task is MapSegment
            || t.task is MapScreen,
    decreases s.descriptors.len() - from,
{
    if 0 <= from < s.descriptors.len() && !direct_mapped(s.descriptors[from].kind) {
        lemma_next_memory(s, from + 1);
    }
}

/// The next range that is mapped is the first, from a place in the list on, of a kind that the
/// kernel reaches: the kinds 2 to 7, and 9. It is mapped as a whole. The kernel itself comes when
/// no such range is left.
pub proof fn law_all_memory_of_these_kinds_is_mapped(s: HandoffView, from: int)
    requires
        0 <= from <= s.descriptors.len(),
    ensures
        next_memory(s, from) matches Ok(t) ==> {
            &&& from <= t.mapped <= s.descriptors.len()
            &&& t.task matches Task::MapMemory { start, end } ==> {
                let d = s.descriptors[t.mapped - 1];
                &&& from < t.mapped
                &&& 2 <= d.kind <= 7 || d.kind == 9
                &&& start == d.phys_start && end == d.phys_start + 4096 * d.page_count
                &&& forall|i: int|
                    from <= i < t.mapped - 1 ==> !(2 <= (#[trigger] s.descriptors[i]).kind <= 7
                        || s.descriptors[i].kind == 9)
            }
            &&& !(t.task is MapMemory) ==> t.mapped == s.descriptors.len() && forall|i: int|
                from <= i < s.descriptors.len() ==> !(2 <= (#[trigger] s.descriptors[i]).kind <= 7
                    || s.descriptors[i].kind == 9)
        },
    decreases s.descriptors.len() - from,
{
    if from < s.descriptors.len() && !direct_mapped(s.descriptors[from].kind) {
        law_all_memory_of_these_kinds_is_mapped(s, from + 1);
    }
}

proof fn lemma_first_table(tables: Seq<FirmwareTable>, kind: TableKind, from: int)
    requires
        0 <= from,
    ensures
        match first_table(tables, kind, from) {
            Some(address) => exists|i: int|
                {
                    &&& from <= i < tables.len()
                    &&& (#[trigger] tables[i]).kind == kind && tables[i].address == address
                    &&& forall|j: int| from <= j < i ==> (#[trigger] tables[j]).kind != kind
                },
            None => forall|j: int| from <= j < tables.len() ==> (#[trigger] tables[j]).kind != kind,
        },
    decreases tables.len() - from,
{
    if from < tables.len() && tables[from].kind != kind {
        lemma_first_table(tables, kind, from + 1);
    }
}

/// The kernel is told of a table of the newer kind where there is one, else of one of the older
/// kind, and of none where there is neither or its address is zero.
pub proof fn law_the_newer_table_is_preferred(tables: Seq<FirmwareTable>)
    ensures
        rsdp_of(tables) matches Some(address) ==> {
            &&& address != 0
            &&& exists|i: int|
                {
                    &&& 0 <= i < tables.len() && (#[trigger] tables[i]).address == address
                    &&& tables[i].kind is Acpi2 || tables[i].kind is Acpi1 && forall|j: int|
                        0 <= j < tables.len() ==> !((#[trigger] tables[j]).kind is Acpi2)
                    &&& forall|j: int| 0 <= j < i ==> (#[trigger] tables[j]).kind != tables[i].kind
                }
        },
        rsdp_of(tables) is None ==> forall|j: int|
            0 <= j < tables.len() && (#[trigger] tables[j]).address != 0 && tables[j].kind is Acpi2
                ==> exists|i: int|
                0 <= i < j && (#[trigger] tables[i]).kind is Acpi2 && tables[i].address == 0,
{
    lemma_first_table(tables, TableKind::Acpi2, 0);
    lemma_first_table(tables, TableKind::Acpi1, 0);
}

} // verus!
