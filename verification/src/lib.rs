//! The parts of a small operating system that can be proved right away from the hardware: an
//! on-disk file system, paths, a command shell, line editing, and the rules by which devices are
//! found and driven.
pub mod acpi;
pub mod block;
pub mod boot;
pub mod bytes;
pub mod clock;
pub mod command_line;
pub mod console;
pub mod dma;
pub mod entry;
pub mod ext2;
pub mod fs;
pub mod heap;
pub mod loader;
pub mod memory;
pub mod mmio;
pub mod paging;
pub mod pci;
pub mod platform;
pub mod qemu;
pub mod report;
pub mod shell;
pub mod text;
pub mod vfs;
pub mod xhci;
