# relay_core

The core of a small operating system: an ext2 file system that takes changes, a shell over a
virtual file system, and the drivers and boot code around them, written in Rust and proved with
Verus. The library does no I/O of its own. Where hardware or firmware has to act, it plans actions
and goes on with their answers.

## Layout

- `src/ext2/` - the file system. `volume` is its mathematical model: blocks, the requests that
  changed the device, and what the device answers to each request. `on_disk`, `validate`,
  `allocator`, `inode`, `directory` and `mutation` hold the code; each operation equals a step of
  the model, failures of the device among them.
- `src/ext2/contents`, `entries`, `tree`, `creation`, `removal`, `refusal`, `laws` - what follows from
  the steps: a read gives back what was written, a created name is found, a removed one is not,
  other files are spared, a refused request changes nothing.
- `src/ext2/space`, `resizing`, `making`, `clearing` - when a change succeeds: enough is free, and
  the device carries out every request.
- `src/ext2/consistency` - a file system that is consistent stays so.
- `src/ext2/cut*` - what a loss of power at any request leaves.
- `src/vfs/`, `src/shell/`, `src/console/` - paths, mounts, commands and line editing.
  `vfs/canonical` holds what is true of the paths of working directories, `vfs/steady` that a file
  system to which nothing is written looks the same again.
- `src/acpi`, `src/pci`, `src/platform`, `src/mmio`, `src/paging`, `src/dma`, `src/memory`,
  `src/clock`, `src/boot`, `src/loader`, `src/entry`, `src/report` - finding and mapping devices,
  handing out memory, and the hand-over from firmware to kernel.
- `src/xhci/` - the USB host controller: rings, contexts, and resumable state machines that plan
  register and memory accesses.
- `src/heap` - asking for memory. Whether it is refused rests on the machine, so each operation that
  asks says exactly what it does where it was not, and what it returns and leaves where it was.
- `src/command_line`, `src/qemu` - the arguments of the tool that runs images, and reading the logs
  and screens of a virtual machine.
- `app/` - ordinary Rust around the library: carrying out plans, firmware calls, running QEMU.
- `tests/` - the library on concrete values, with devices in memory.

## What is trusted

Three functions of the standard library are wrapped and believed without proof:
`String::from_utf8` and `core::str::from_utf8` in `src/text.rs`, and the address of a slice in
`src/xhci/mod.rs`. Their doc comments say what is claimed of them.
