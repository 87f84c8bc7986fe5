use relay_core::boot::{valid_boot_info, BootAbi, MemoryMapInfo};
use relay_core::loader::{
    capture_framebuffer, capture_rsdp, fill_boot_info, is_direct_mapped, FirmwareTable,
    GraphicsMode, Handoff, HandoffError, MemoryDescriptor, Outcome, PixelLayout, PixelMasks,
    TableKind, Task,
};

fn mode() -> GraphicsMode {
    GraphicsMode {
        layout: PixelLayout::Bgr,
        width: 800,
        height: 600,
        stride: 832,
        base: 0x8000_0000,
        byte_len: 832 * 600 * 4,
    }
}

fn table(kind: TableKind, address: u64) -> FirmwareTable {
    FirmwareTable { kind, address }
}

fn descriptor(kind: u32, phys_start: u64, page_count: u64) -> MemoryDescriptor {
    MemoryDescriptor {
        kind,
        phys_start,
        page_count,
    }
}

/// What becomes of a task when all goes well.
fn outcome(task: Task) -> Outcome {
    match task {
        Task::LoadKernel => Outcome::Loaded { segments: 2 },
        Task::AskScreen => Outcome::Screen { mode: mode() },
        Task::AskTables => Outcome::Tables {
            tables: vec![
                table(TableKind::Other, 0x1),
                table(TableKind::Acpi1, 0x2000),
                table(TableKind::Acpi2, 0x3000),
            ],
        },
        Task::AskMemory => Outcome::Memory {
            descriptors: vec![
                descriptor(7, 0x1000, 2),
                descriptor(11, 0x9000, 1),
                descriptor(9, 0x5000, 1),
                descriptor(0, 0, u64::MAX),
            ],
        },
        _ => Outcome::Done,
    }
}

fn run(fails: Option<Task>) -> (Vec<Task>, Result<(), HandoffError>) {
    let mut handoff = Handoff::boot();
    let mut tasks = Vec::new();
    loop {
        tasks.push(handoff.task);
        if handoff.task == Task::EnterKernel || handoff.task == Task::Halt {
            return (tasks, Ok(()));
        }
        let next = if fails == Some(handoff.task) {
            Outcome::Failed
        } else {
            outcome(handoff.task)
        };
        if let Err(error) = handoff.resume(next) {
            return (tasks, Err(error));
        }
    }
}

#[test]
fn the_loader_keeps_its_order() {
    let (tasks, result) = run(None);
    assert_eq!(result, Ok(()));
    let framebuffer = capture_framebuffer(mode()).unwrap();
    assert_eq!(
        tasks,
        [
            Task::ReadConfig,
            Task::ParseConfig,
            Task::ReadKernel,
            Task::ParseKernel,
            Task::LoadKernel,
            Task::AskScreen,
            Task::AskTables,
            Task::AllocateStack,
            Task::AllocateBootData,
            Task::AllocateTransitionPage,
            Task::NewTables,
            Task::MapTransitionPage,
            Task::MapFirstFourGigabytes,
            Task::MapStack,
            Task::MapBootData,
            Task::AskMemory,
            Task::MapMemory { start: 0x1000, end: 0x3000 },
            Task::MapMemory { start: 0x5000, end: 0x6000 },
            Task::MapSegment { index: 0 },
            Task::MapSegment { index: 1 },
            Task::MapScreen { base: 0x8000_0000, len: 832 * 600 * 4 },
            Task::StackTop,
            Task::FillRecord { framebuffer, rsdp: 0x3000 },
            Task::LeaveFirmware,
            Task::NormalizeMemory,
            Task::EnterKernel,
        ]
    );
}

#[test]
fn a_task_that_fails_ends_the_loader() {
    for (task, error) in [
        (Task::ReadConfig, HandoffError::Files),
        (Task::ParseConfig, HandoffError::Config),
        (Task::ReadKernel, HandoffError::Files),
        (Task::ParseKernel, HandoffError::Elf),
        (Task::LoadKernel, HandoffError::Memory),
        (Task::AskScreen, HandoffError::Graphics),
        (Task::AskTables, HandoffError::Acpi),
        (Task::AllocateStack, HandoffError::Memory),
        (Task::NewTables, HandoffError::Paging),
        (Task::MapStack, HandoffError::Paging),
        (Task::AskMemory, HandoffError::Memory),
        (Task::MapSegment { index: 1 }, HandoffError::Paging),
        (Task::StackTop, HandoffError::Memory),
    ] {
        assert_eq!(run(Some(task)).1, Err(error), "{task:?}");
    }
    let (tasks, result) = run(Some(Task::NormalizeMemory));
    assert_eq!(result, Ok(()));
    assert_eq!(tasks.last(), Some(&Task::Halt));
}

#[test]
fn memory_that_does_not_fit_is_an_error() {
    let mut handoff = Handoff::boot();
    while handoff.task != Task::AskMemory {
        handoff.resume(outcome(handoff.task)).unwrap();
    }
    let descriptors = vec![descriptor(7, 0x1000, u64::MAX)];
    assert_eq!(
        handoff.resume(Outcome::Memory { descriptors }),
        Err(HandoffError::Memory)
    );
}

#[test]
fn memory_of_devices_is_not_mapped() {
    let mapped: Vec<u32> = (0..16).filter(|kind| is_direct_mapped(*kind)).collect();
    assert_eq!(mapped, [2, 3, 4, 5, 6, 7, 9]);
}

#[test]
fn screens_without_pixels_in_memory_are_refused() {
    let masks = PixelMasks {
        red: 1,
        green: 2,
        blue: 4,
        reserved: 8,
    };
    let masked = GraphicsMode {
        layout: PixelLayout::Bitmask(Some(masks)),
        ..mode()
    };
    let screen = capture_framebuffer(masked).unwrap();
    assert_eq!((screen.pixel_format, screen.blue_mask), (2, 4));
    assert_eq!(capture_framebuffer(mode()).unwrap().pixel_format, 1);
    for bad in [
        GraphicsMode { layout: PixelLayout::BltOnly, ..mode() },
        GraphicsMode { layout: PixelLayout::Bitmask(None), ..mode() },
        GraphicsMode { width: 1 << 32, ..mode() },
    ] {
        assert_eq!(capture_framebuffer(bad), Err(HandoffError::Graphics));
    }
}

#[test]
fn the_newer_firmware_table_is_preferred() {
    let old = table(TableKind::Acpi1, 0x2000);
    let new = table(TableKind::Acpi2, 0x3000);
    assert_eq!(capture_rsdp(&[old, new]), Ok(0x3000));
    assert_eq!(capture_rsdp(&[old]), Ok(0x2000));
    assert_eq!(capture_rsdp(&[]), Err(HandoffError::Acpi));
    assert_eq!(
        capture_rsdp(&[old, table(TableKind::Acpi2, 0)]),
        Err(HandoffError::Acpi)
    );
}

#[test]
fn the_kernel_accepts_what_the_loader_fills() {
    let abi = BootAbi {
        magic: 1,
        version: 2,
        struct_size: 3,
    };
    let map = MemoryMapInfo {
        entries_address: 0x8000,
        entry_count: 4,
    };
    let screen = capture_framebuffer(mode()).unwrap();
    let info = fill_boot_info(&abi, screen, [9; 16], 0x3000, map);
    assert!(valid_boot_info(&info, &abi));
}
