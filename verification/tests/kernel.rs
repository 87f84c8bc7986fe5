use relay_core::boot::{
    region_holding, valid_boot_info, valid_framebuffer, valid_memory_map, valid_pointer, BootAbi,
    BootInfo, FramebufferInfo, MemoryMapInfo,
};
use relay_core::console::TextOutput;
use relay_core::entry::{accept_pointer, accept_record, accept_regions, take_memory};
use relay_core::memory::{
    direct_address, initialize_frame_allocator, MemoryRegion, PHYSICAL_MEMORY_OFFSET,
};
use relay_core::mmio::{MapError, PCI_WINDOW_BASE, UC_MMIO_FLAGS};
use relay_core::paging::{map_uncached, TableAction, TableAnswer, Window};
use std::collections::BTreeMap;

fn region(start: u64, end: u64, kind: u32) -> MemoryRegion {
    MemoryRegion {
        start,
        end,
        kind,
        reserved: 0,
    }
}

#[test]
fn frames_come_in_order_and_skip_what_is_kept() {
    let regions = [
        region(0x0, 0x4000, 1),
        region(0x4000, 0x8000, 2),
        region(0x8000, 0xC000, 1),
    ];
    let mut frames = initialize_frame_allocator(&regions, 0x2100, 0x80, 0x8FF8).unwrap();
    let mut given = Vec::new();
    while let Some(frame) = frames.allocate_frame() {
        given.push(frame);
    }
    assert_eq!(given, [0x1000, 0x3000, 0xA000, 0xB000]);
    assert_eq!(frames.allocate_frame(), None);
}

#[test]
fn regions_that_cannot_be_walked_are_refused() {
    for regions in [
        vec![region(0x1000, 0x1000, 1)],
        vec![region(0x1800, 0x3000, 1)],
        vec![region(0x1000, 0x2800, 1)],
        vec![region(0x2000, 0x4000, 1), region(0x3000, 0x5000, 1)],
        vec![MemoryRegion {
            reserved: 1,
            ..region(0x1000, 0x2000, 1)
        }],
    ] {
        assert!(initialize_frame_allocator(&regions, 0x100, 8, 0x200).is_err());
    }
    let regions = [region(0x1000, 0x2000, 1)];
    assert!(initialize_frame_allocator(&regions, u64::MAX - 3, 8, 0x200).is_err());
    assert!(initialize_frame_allocator(&regions, 0x100, 8, u64::MAX - 3).is_err());
    assert!(initialize_frame_allocator(&[], 0x100, 8, 0x200).is_ok());
}

#[test]
fn the_direct_map_has_an_end() {
    assert_eq!(
        direct_address(0x1000, 16),
        Some(PHYSICAL_MEMORY_OFFSET + 0x1000)
    );
    assert_eq!(direct_address(0x1000, 0), None);
    assert!(direct_address(0x7FFF_FFFF_FFF0, 16).is_some());
    assert_eq!(direct_address(0x7FFF_FFFF_FFF1, 16), None);
    assert_eq!(direct_address(u64::MAX, 16), None);
}

/// Page tables in memory.
struct Tables {
    entries: BTreeMap<u64, u64>,
    frames: Vec<u64>,
    flushed: Vec<u64>,
}

impl Tables {
    fn new() -> Self {
        Tables {
            entries: BTreeMap::new(),
            frames: (1..20).map(|i| 0x10_0000 + i * 0x1000).rev().collect(),
            flushed: Vec::new(),
        }
    }

    fn carry_out(&mut self, plan: &[TableAction]) -> TableAnswer {
        let mut answer = TableAnswer::Value(0);
        for action in plan {
            match *action {
                TableAction::Read { address } => {
                    answer = TableAnswer::Value(*self.entries.get(&address).unwrap_or(&0));
                }
                TableAction::Write { address, value } => {
                    self.entries.insert(address, value);
                }
                TableAction::Frame => answer = TableAnswer::Frame(self.frames.pop()),
                TableAction::Clear { frame } => {
                    assert_eq!(self.entries.range(frame..frame + 4096).count(), 0);
                }
                TableAction::Flush { virt } => self.flushed.push(virt),
            }
        }
        answer
    }

    fn map(&mut self, window: &mut Window, base: u64, len: usize, five: bool) -> Result<u64, MapError> {
        let mut plan = Vec::new();
        let mut mapper = map_uncached(window, base, len, five, 0x10_0005, &mut plan)?;
        loop {
            let answer = self.carry_out(&plan);
            plan.clear();
            if let Some(address) = mapper.resume(answer, &mut plan)? {
                self.carry_out(&plan);
                return Ok(address);
            }
        }
    }

    fn walk(&self, virt: u64, levels: u32) -> u64 {
        let mut table = 0x10_0000;
        for level in (0..levels).rev() {
            let index = virt >> (12 + 9 * level) & 511;
            table = self.entries[&(table + 8 * index)];
            if level > 0 {
                assert_eq!(table & 3, 3);
                table &= !0xFFF;
            }
        }
        table
    }
}

#[test]
fn registers_are_mapped_page_by_page() {
    for (five, levels) in [(false, 4), (true, 5)] {
        let mut tables = Tables::new();
        let mut window = Window::new();
        let address = tables.map(&mut window, 0xE000_0234, 0x1F00, five);
        assert_eq!(address, Ok(PCI_WINDOW_BASE + 0x234));
        for page in 0..3u64 {
            let entry = tables.walk(PCI_WINDOW_BASE + page * 4096, levels);
            assert_eq!(entry, (0xE000_0000 + page * 4096) | UC_MMIO_FLAGS);
        }
        assert_eq!(tables.flushed.len(), 3);
        assert_eq!(window.next, PCI_WINDOW_BASE + 3 * 4096);
        let next = tables.map(&mut window, 0xF000_0000, 16, five);
        assert_eq!(next, Ok(PCI_WINDOW_BASE + 3 * 4096));
    }
}

#[test]
fn mappings_are_not_replaced() {
    let mut tables = Tables::new();
    tables.map(&mut Window::new(), 0xE000_0000, 16, false).unwrap();
    let before = tables.entries.clone();
    assert_eq!(
        tables.map(&mut Window::new(), 0xD000_0000, 16, false),
        Err(MapError::AlreadyMapped)
    );
    assert_eq!(tables.entries, before);

    let mut tables = Tables::new();
    let index = PCI_WINDOW_BASE >> 39 & 511;
    tables.entries.insert(0x10_0000 + 8 * index, 0x81);
    assert_eq!(
        tables.map(&mut Window::new(), 0xD000_0000, 16, false),
        Err(MapError::AlreadyMapped)
    );
    tables.entries.insert(0x10_0000 + 8 * index, 0x1);
    assert_eq!(
        tables.map(&mut Window::new(), 0xD000_0000, 16, false),
        Err(MapError::AlreadyMapped)
    );
    let mut tables = Tables::new();
    tables.frames.truncate(2);
    assert_eq!(
        tables.map(&mut Window::new(), 0xD000_0000, 16, false),
        Err(MapError::NoMemory)
    );
    let mut end = Window { next: u64::MAX - 10 };
    assert_eq!(
        Tables::new().map(&mut end, 0xD000_0000, 16, false),
        Err(MapError::InvalidRange)
    );
    assert_eq!(
        Tables::new().map(&mut Window::new(), 0xD000_0000, 0, false),
        Err(MapError::InvalidRange)
    );
}

fn abi() -> BootAbi {
    BootAbi {
        magic: 0x1234,
        version: 3,
        struct_size: 160,
    }
}

fn screen() -> FramebufferInfo {
    FramebufferInfo {
        physical_base: 0x8000_0000,
        byte_len: 1024 * 768 * 4,
        width: 1000,
        height: 768,
        stride_pixels: 1024,
        bytes_per_pixel: 4,
        pixel_format: 1,
        red_mask: 0,
        green_mask: 0,
        blue_mask: 0,
        reserved_mask: 0,
    }
}

fn info() -> BootInfo {
    BootInfo {
        magic: 0x1234,
        abi_version: 3,
        struct_size: 160,
        framebuffer: screen(),
        memory_map: MemoryMapInfo {
            entries_address: 0x5000,
            entry_count: 10,
        },
        root_partition_guid: [7; 16],
        physical_memory_offset: PHYSICAL_MEMORY_OFFSET,
        acpi_rsdp_phys: 0xE0000,
    }
}

#[test]
fn boot_records_are_checked_field_by_field() {
    assert!(valid_boot_info(&info(), &abi()));
    let map = info().memory_map;
    for bad in [
        BootInfo { magic: 1, ..info() },
        BootInfo { abi_version: 2, ..info() },
        BootInfo { struct_size: 161, ..info() },
        BootInfo { physical_memory_offset: 0, ..info() },
        BootInfo { acpi_rsdp_phys: 0, ..info() },
        BootInfo { acpi_rsdp_phys: 0xE0002, ..info() },
        BootInfo { root_partition_guid: [0; 16], ..info() },
        BootInfo { memory_map: MemoryMapInfo { entry_count: 0, ..map }, ..info() },
        BootInfo { memory_map: MemoryMapInfo { entry_count: 513, ..map }, ..info() },
        BootInfo { memory_map: MemoryMapInfo { entries_address: 0, ..map }, ..info() },
        BootInfo { memory_map: MemoryMapInfo { entries_address: 0x5004, ..map }, ..info() },
        BootInfo { memory_map: MemoryMapInfo { entries_address: u64::MAX - 7, ..map }, ..info() },
    ] {
        assert!(!valid_boot_info(&bad, &abi()));
    }
    assert!(valid_pointer(0x1000, 8));
    assert!(!valid_pointer(0, 8));
    assert!(!valid_pointer(0x1004, 8));
}

#[test]
fn screens_must_fit_in_their_memory() {
    assert!(valid_framebuffer(&screen()));
    for bad in [
        FramebufferInfo { physical_base: 0, ..screen() },
        FramebufferInfo { byte_len: 1024 * 768 * 4 - 1, ..screen() },
        FramebufferInfo { width: 0, ..screen() },
        FramebufferInfo { height: 0, ..screen() },
        FramebufferInfo { width: 1025, ..screen() },
        FramebufferInfo { bytes_per_pixel: 3, ..screen() },
        FramebufferInfo { stride_pixels: u32::MAX, height: u32::MAX, ..screen() },
        FramebufferInfo { physical_base: 0x7FFF_FFFF_F000, ..screen() },
        FramebufferInfo { physical_base: u64::MAX, ..screen() },
    ] {
        assert!(!valid_framebuffer(&bad));
    }
}

#[test]
fn memory_maps_are_in_order() {
    let good = [region(0x10, 0x20, 1), region(0x20, 0x30, 5)];
    assert!(valid_memory_map(&good));
    assert!(!valid_memory_map(&[region(0x10, 0x10, 1)]));
    assert!(!valid_memory_map(&[region(0x10, 0x20, 1), region(0x1F, 0x30, 1)]));
    assert!(!valid_memory_map(&[MemoryRegion { reserved: 9, ..good[0] }]));
    assert_eq!(region_holding(&good, 0x20), Some(good[1]));
    assert_eq!(region_holding(&good, 0x30), None);
}

#[derive(Default)]
struct Words(Vec<u8>);

impl TextOutput for Words {
    fn write_bytes(&mut self, bytes: &[u8]) {
        self.0.extend_from_slice(bytes);
    }
}

#[test]
fn the_kernel_says_why_it_stops() {
    let mut output = Words::default();
    let regions = [region(0x1000, 0x10_0000, 1)];
    assert!(accept_pointer(&mut output, 0x1000, 8));
    assert!(accept_record(&mut output, &info(), &abi()));
    assert!(accept_regions(&mut output, &regions));
    assert!(output.0.is_empty());

    let invalid = b"[relay] phase=kernel-entry status=invalid\n";
    assert!(!accept_pointer(&mut output, 0x1001, 8));
    assert_eq!(output.0, invalid);
    let mut output = Words::default();
    assert!(!accept_record(&mut output, &BootInfo { magic: 1, ..info() }, &abi()));
    assert_eq!(output.0, invalid);
    let mut output = Words::default();
    assert!(!accept_regions(&mut output, &[region(0x2000, 0x1000, 1)]));
    assert_eq!(output.0, invalid);

    let mut output = Words::default();
    assert!(take_memory(&mut output, &info(), 0x3000, 160, &regions, false).is_none());
    assert_eq!(
        output.0,
        b"[relay] phase=kernel-runtime status=invalid-framebuffer\n"
    );
    let mut output = Words::default();
    let bad = [region(0x1800, 0x3000, 1)];
    assert!(take_memory(&mut output, &info(), 0x3000, 160, &bad, true).is_none());
    assert_eq!(
        output.0,
        b"[relay] phase=kernel-runtime status=invalid-memory-map\n"
    );
    let mut output = Words::default();
    let mut frames = take_memory(&mut output, &info(), 0x3000, 160, &regions, true).unwrap();
    assert_eq!(frames.allocate_frame(), Some(0x1000));
    assert_eq!(
        String::from_utf8(output.0).unwrap(),
        "[relay] phase=platform-probe-debug rsdp=0xe0000\n\
         [relay] phase=platform-probe-debug rsdp_region start=0x1000 end=0x100000 kind=1 reserved=0\n"
    );
}
