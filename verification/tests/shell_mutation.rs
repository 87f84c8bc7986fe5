#![allow(dead_code)]

use relay_core::block::{BlockDevice, BlockError, BlockGeometry};
use relay_core::console::TextOutput;
use relay_core::ext2::{Ext2, MountMode};
use relay_core::fs::Name;
use relay_core::shell::{Shell, ShellOutcome};
use relay_core::vfs::read::FileSink;
use relay_core::vfs::{FsError, Vfs, VfsError};
use std::cell::{Cell, RefCell};
use std::collections::BTreeMap;
use std::rc::Rc;

const BLOCK: usize = 4096;
const INODE_TABLE: usize = 4;
const ROOT_BLOCK: u32 = 260;

type Blocks = BTreeMap<u64, Vec<u8>>;

/// A disk in memory that several devices share.
#[derive(Clone)]
struct MemDevice {
    blocks: Rc<RefCell<Blocks>>,
}

impl BlockDevice for MemDevice {
    fn geometry(&self) -> BlockGeometry {
        BlockGeometry {
            logical_sector_size: 512,
            sector_count: 262_144,
        }
    }

    fn read_sectors(&mut self, first_lba: u64, dst: &mut [u8]) -> Result<(), BlockError> {
        check_request(first_lba, dst.len())?;
        for (index, sector) in dst.chunks_mut(512).enumerate() {
            let lba = first_lba + index as u64;
            let at = (lba % 8) as usize * 512;
            match self.blocks.borrow().get(&(lba / 8)) {
                Some(block) => sector.copy_from_slice(&block[at..at + 512]),
                None => sector.fill(0),
            }
        }
        Ok(())
    }

    fn write_sectors(&mut self, first_lba: u64, src: &[u8]) -> Result<(), BlockError> {
        check_request(first_lba, src.len())?;
        for (index, sector) in src.chunks(512).enumerate() {
            let lba = first_lba + index as u64;
            let at = (lba % 8) as usize * 512;
            let mut blocks = self.blocks.borrow_mut();
            let block = blocks.entry(lba / 8).or_insert_with(|| vec![0; BLOCK]);
            block[at..at + 512].copy_from_slice(sector);
        }
        Ok(())
    }

    fn flush(&mut self) -> Result<(), BlockError> {
        Ok(())
    }
}

fn check_request(first_lba: u64, bytes: usize) -> Result<(), BlockError> {
    if bytes == 0 || bytes % 512 != 0 {
        return Err(BlockError::InvalidRequest);
    }
    if first_lba + (bytes / 512) as u64 > 262_144 {
        return Err(BlockError::OutOfRange);
    }
    Ok(())
}

/// A file system image.
struct Ext2Fixture {
    blocks: Rc<RefCell<Blocks>>,
    next_block: u32,
    next_inode: u32,
    used_dirs: u16,
}

fn put16(bytes: &mut [u8], at: usize, value: u16) {
    bytes[at..at + 2].copy_from_slice(&value.to_le_bytes());
}

fn put32(bytes: &mut [u8], at: usize, value: u32) {
    bytes[at..at + 4].copy_from_slice(&value.to_le_bytes());
}

fn get16(bytes: &[u8], at: usize) -> u16 {
    u16::from_le_bytes([bytes[at], bytes[at + 1]])
}

fn get32(bytes: &[u8], at: usize) -> u32 {
    u32::from_le_bytes([bytes[at], bytes[at + 1], bytes[at + 2], bytes[at + 3]])
}

impl Ext2Fixture {
    fn open(&self) -> Result<MemDevice, ()> {
        Ok(MemDevice {
            blocks: self.blocks.clone(),
        })
    }

    fn block(&self, number: u32) -> Vec<u8> {
        match self.blocks.borrow().get(&u64::from(number)) {
            Some(block) => block.clone(),
            None => vec![0; BLOCK],
        }
    }

    fn change(&self, number: u32, change: impl FnOnce(&mut [u8])) {
        let mut blocks = self.blocks.borrow_mut();
        change(
            blocks
                .entry(u64::from(number))
                .or_insert_with(|| vec![0; BLOCK]),
        );
    }

    fn empty() -> Self {
        let mut image = Ext2Fixture {
            blocks: Rc::new(RefCell::new(BTreeMap::new())),
            next_block: ROOT_BLOCK + 1,
            next_inode: 11,
            used_dirs: 1,
        };
        image.change(0, |b| {
            put32(b, 1024, 4096);
            put32(b, 1024 + 4, 32768);
            put32(b, 1024 + 24, 2);
            put32(b, 1024 + 28, 2);
            put32(b, 1024 + 32, 32768);
            put32(b, 1024 + 36, 32768);
            put32(b, 1024 + 40, 4096);
            put16(b, 1024 + 56, 0xEF53);
            put16(b, 1024 + 58, 1);
            put16(b, 1024 + 60, 1);
            put32(b, 1024 + 76, 1);
            put32(b, 1024 + 84, 11);
            put16(b, 1024 + 88, 256);
            put32(b, 1024 + 96, 2);
        });
        image.change(1, |b| {
            put32(b, 0, 2);
            put32(b, 4, 3);
            put32(b, 8, INODE_TABLE as u32);
        });
        image.inode(2, 0x41ED, 4096, 2, &[ROOT_BLOCK], 0);
        image.directory(ROOT_BLOCK, 2, 2);
        image.account();
        image
    }

    /// Writes the inode with this number.
    fn inode(&mut self, number: u32, mode: u16, size: u32, links: u16, direct: &[u32], indirect: u32) {
        let at = (number as usize - 1) * 256;
        let count = direct.len() as u32;
        self.change((INODE_TABLE + at / BLOCK) as u32, |b| {
            let i = at % BLOCK;
            put16(b, i, mode);
            put32(b, i + 4, size);
            put16(b, i + 26, links);
            put32(b, i + 28, (count + u32::from(indirect != 0)) * 8);
            for (k, pointer) in direct.iter().take(12).enumerate() {
                put32(b, i + 40 + k * 4, *pointer);
            }
            put32(b, i + 88, indirect);
        });
    }

    /// Writes a directory with no entries but itself and its parent.
    fn directory(&mut self, block: u32, own: u32, parent: u32) {
        self.change(block, |b| {
            put32(b, 0, own);
            put16(b, 4, 12);
            b[6] = 1;
            b[7] = 2;
            b[8] = b'.';
            put32(b, 12, parent);
            put16(b, 16, 4084);
            b[18] = 2;
            b[19] = 2;
            b[20] = b'.';
            b[21] = b'.';
        });
    }

    /// Puts an entry behind the last one of a directory.
    fn link(&mut self, block: u32, name: &str, inode: u32, kind: u8) {
        self.change(block, |b| {
            let mut at = 0;
            while at + (get16(b, at + 4) as usize) < BLOCK {
                at += get16(b, at + 4) as usize;
            }
            let needed = (8 + b[at + 6] as usize + 3) / 4 * 4;
            put16(b, at + 4, needed as u16);
            let new = at + needed;
            put32(b, new, inode);
            put16(b, new + 4, (BLOCK - new) as u16);
            b[new + 6] = name.len() as u8;
            b[new + 7] = kind;
            b[new + 8..new + 8 + name.len()].copy_from_slice(name.as_bytes());
        });
    }

    fn take_block(&mut self) -> u32 {
        self.next_block += 1;
        self.next_block - 1
    }

    fn add_file(&mut self, parent_block: u32, name: &str, contents: &[u8]) {
        let number = self.next_inode;
        self.next_inode += 1;
        let mut data = Vec::new();
        for part in contents.chunks(BLOCK) {
            let block = self.take_block();
            self.change(block, |b| b[..part.len()].copy_from_slice(part));
            data.push(block);
        }
        let mut indirect = 0;
        if data.len() > 12 {
            indirect = self.take_block();
            let rest = data[12..].to_vec();
            self.change(indirect, |b| {
                for (k, pointer) in rest.iter().enumerate() {
                    put32(b, k * 4, *pointer);
                }
            });
        }
        self.inode(number, 0x81A4, contents.len() as u32, 1, &data, indirect);
        self.link(parent_block, name, number, 1);
        self.account();
    }

    fn add_dir(&mut self, name: &str) -> u32 {
        let number = self.next_inode;
        self.next_inode += 1;
        self.used_dirs += 1;
        let block = self.take_block();
        self.inode(number, 0x41ED, 4096, 2, &[block], 0);
        self.directory(block, number, 2);
        self.link(ROOT_BLOCK, name, number, 2);
        self.change(INODE_TABLE as u32, |b| put16(b, 256 + 26, get16(b, 256 + 26) + 1));
        self.account();
        block
    }

    /// Brings bitmaps and counts in line with what was handed out.
    fn account(&mut self) {
        let (blocks, inodes, dirs) = (self.next_block, self.next_inode - 1, self.used_dirs);
        self.change(2, |b| {
            for i in 0..blocks as usize {
                b[i / 8] |= 1 << (i % 8);
            }
        });
        self.change(3, |b| {
            for i in 0..inodes as usize {
                b[i / 8] |= 1 << (i % 8);
            }
            b[512..].fill(0xff);
        });
        self.change(0, |b| {
            put32(b, 1024 + 12, 32768 - blocks);
            put32(b, 1024 + 16, 4096 - inodes);
        });
        self.change(1, |b| {
            put16(b, 12, (32768 - blocks) as u16);
            put16(b, 14, (4096 - inodes) as u16);
            put16(b, 16, dirs);
        });
    }

    fn root_entry(&self, wanted: &str) -> usize {
        let b = self.block(ROOT_BLOCK);
        let mut at = 0;
        while at < BLOCK {
            let len = b[at + 6] as usize;
            if &b[at + 8..at + 8 + len] == wanted.as_bytes() {
                return at;
            }
            at += get16(&b, at + 4) as usize;
        }
        panic!("no such entry: {wanted}");
    }

    fn set_root_entry_inode(&mut self, name: &str, value: u32) {
        let at = self.root_entry(name);
        self.change(ROOT_BLOCK, |b| put32(b, at, value));
    }

    fn set_root_entry_file_type(&mut self, name: &str, value: u8) {
        let at = self.root_entry(name);
        self.change(ROOT_BLOCK, |b| b[at + 7] = value);
    }

    fn set_root_entry_record_length(&mut self, name: &str, value: u16) {
        let at = self.root_entry(name);
        self.change(ROOT_BLOCK, |b| put16(b, at + 4, value));
    }

    /// Where the inode of an entry of the root directory is: its block, and its place in it.
    fn named_inode(&self, name: &str) -> (u32, usize) {
        let number = get32(&self.block(ROOT_BLOCK), self.root_entry(name));
        let at = (number as usize - 1) * 256;
        ((INODE_TABLE + at / BLOCK) as u32, at % BLOCK)
    }

    fn clear_first_data_pointer(&mut self, name: &str) {
        let (block, at) = self.named_inode(name);
        self.change(block, |b| put32(b, at + 40, 0));
    }

    fn set_first_data_pointer(&mut self, name: &str, value: u32) {
        let (block, at) = self.named_inode(name);
        self.change(block, |b| put32(b, at + 40, value));
    }

    fn set_first_indirect_data_pointer(&mut self, name: &str, value: u32) {
        let (block, at) = self.named_inode(name);
        let indirect = get32(&self.block(block), at + 88);
        self.change(indirect, |b| put32(b, 0, value));
    }

    fn set_superblock_u16(&mut self, at: usize, value: u16) {
        self.change(0, |b| put16(b, 1024 + at, value));
    }

    fn set_superblock_u32(&mut self, at: usize, value: u32) {
        self.change(0, |b| put32(b, 1024 + at, value));
    }
}

fn fixture_with_files(files: &[(&str, &[u8])]) -> Result<Ext2Fixture, ()> {
    let mut image = Ext2Fixture::empty();
    for (name, contents) in files {
        image.add_file(ROOT_BLOCK, name, contents);
    }
    Ok(image)
}

fn fixture_with_directory(directory: &str, file: &str, contents: &[u8]) -> Result<Ext2Fixture, ()> {
    let mut image = Ext2Fixture::empty();
    let block = image.add_dir(directory);
    image.add_file(block, file, contents);
    Ok(image)
}

/// A device that fails one write or one flush.
struct FaultDevice<D> {
    inner: D,
    writes: Rc<Cell<usize>>,
    flushes: Rc<Cell<usize>>,
    fail_write: Option<usize>,
    fail_flush: Option<usize>,
}

impl<D> FaultDevice<D> {
    fn fail_write(inner: D, index: usize) -> Self {
        Self {
            inner,
            writes: Rc::new(Cell::new(0)),
            flushes: Rc::new(Cell::new(0)),
            fail_write: Some(index),
            fail_flush: None,
        }
    }

    fn fail_flush(inner: D, index: usize) -> Self {
        Self {
            inner,
            writes: Rc::new(Cell::new(0)),
            flushes: Rc::new(Cell::new(0)),
            fail_write: None,
            fail_flush: Some(index),
        }
    }
}

impl<D: BlockDevice> BlockDevice for FaultDevice<D> {
    fn geometry(&self) -> BlockGeometry {
        self.inner.geometry()
    }

    fn read_sectors(&mut self, first_lba: u64, dst: &mut [u8]) -> Result<(), BlockError> {
        self.inner.read_sectors(first_lba, dst)
    }

    fn write_sectors(&mut self, first_lba: u64, src: &[u8]) -> Result<(), BlockError> {
        // A mount for changes takes the first write, when it marks the file system as being
        // changed, so failing write 1 fails the first write of the change itself.
        let index = self.writes.get();
        self.writes.set(index + 1);
        if self.fail_write == Some(index) {
            return Err(BlockError::Transport);
        }
        self.inner.write_sectors(first_lba, src)
    }

    fn flush(&mut self) -> Result<(), BlockError> {
        let index = self.flushes.get();
        self.flushes.set(index + 1);
        if self.fail_flush == Some(index) {
            return Err(BlockError::Flush);
        }
        self.inner.flush()
    }
}

fn fixture_vfs(files: &[(&str, &[u8])]) -> Vfs<Ext2<MemDevice>> {
    let image = fixture_with_files(files).unwrap();
    let filesystem = Ext2::mount(image.open().unwrap(), MountMode::ReadWrite).unwrap();
    Vfs::new(filesystem)
}

#[allow(dead_code)]
fn name(bytes: &[u8]) -> Name {
    Name::new(bytes).unwrap()
}

#[test]
fn vfs_creates_and_rejects_duplicates() {
    let mut vfs = fixture_vfs(&[]);
    let cwd = vfs.initial_cwd();
    vfs.create_dir(&cwd, "docs").unwrap();
    assert_eq!(
        vfs.create_dir(&cwd, "docs"),
        Err(VfsError::Fs(FsError::AlreadyExists))
    );
    vfs.create_file(&cwd, "docs/hello").unwrap();
    assert_eq!(
        vfs.create_file(&cwd, "docs/hello"),
        Err(VfsError::Fs(FsError::AlreadyExists))
    );
}

#[test]
fn vfs_rejects_trailing_slash_file_ops_and_cwd_ancestor_removal() {
    let mut vfs = fixture_vfs(&[]);
    let cwd = vfs.initial_cwd();
    assert_eq!(vfs.create_file(&cwd, "a/"), Err(VfsError::NotDirectory));
    vfs.create_dir(&cwd, "/a").unwrap();
    vfs.create_dir(&cwd, "/a/b").unwrap();
    let deep = vfs.change_dir(&cwd, "/a/b").unwrap();
    assert_eq!(vfs.remove_dir(&deep, "/a"), Err(VfsError::Busy));
    assert_eq!(vfs.remove_dir(&deep, "/a/b"), Err(VfsError::Busy));
    assert_eq!(vfs.remove_dir(&cwd, "/"), Err(VfsError::InvalidPath));
}
struct Recorder(Vec<u8>);

impl TextOutput for Recorder {
    fn write_bytes(&mut self, bytes: &[u8]) {
        self.0.extend_from_slice(bytes);
    }
}

fn mutation_shell() -> (
    Ext2Fixture,
    Shell<Ext2<MemDevice>, Recorder>,
) {
    let image = fixture_with_files(&[]).unwrap();
    let filesystem = Ext2::mount(image.open().unwrap(), MountMode::ReadWrite).unwrap();
    let shell = Shell::new(Vfs::new(filesystem), Recorder(Vec::new()));
    (image, shell)
}

#[test]
fn commands_persist_after_reopen() {
    let (image, mut shell) = mutation_shell();
    assert_eq!(shell.run("mkdir /docs").unwrap(), ShellOutcome::Continue);
    assert_eq!(
        shell.run("write /docs/hello 'relay os'").unwrap(),
        ShellOutcome::Continue
    );
    assert_eq!(
        shell.run("append /docs/hello '!'").unwrap(),
        ShellOutcome::Continue
    );
    assert_eq!(shell.run("sync").unwrap(), ShellOutcome::Continue);
    assert!(shell.output().0.is_empty());
    assert_eq!(shell.run("shutdown").unwrap(), ShellOutcome::Shutdown);
    let filesystem = Ext2::mount(image.open().unwrap(), MountMode::ReadOnly).unwrap();
    let mut fs_shell = Shell::new(Vfs::new(filesystem), Recorder(Vec::new()));
    fs_shell.run("cat /docs/hello").unwrap();
    assert_eq!(fs_shell.output().0, b"relay os!");
}

#[test]
fn touch_preserves_contents_and_write_truncates() {
    let (_image, mut shell) = mutation_shell();
    shell.run("write /f 'old content'").unwrap();
    shell.run("touch /f").unwrap();
    shell.run("cat /f").unwrap();
    assert_eq!(shell.output().0, b"old content");
    shell.output_mut().0.clear();
    shell.run("write /f 'new'").unwrap();
    shell.run("cat /f").unwrap();
    assert_eq!(shell.output().0, b"new");
}

#[test]
fn poisoned_mount_reports_write_disabled_for_mutations() {
    let image = fixture_with_files(&[]).unwrap();
    let device = FaultDevice::fail_write(image.open().unwrap(), 1);
    let filesystem = Ext2::mount(device, MountMode::ReadWrite).unwrap();
    let mut shell = Shell::new(Vfs::new(filesystem), Recorder(Vec::new()));
    shell.run("mkdir /docs").unwrap();
    shell.run("write /x hi").unwrap();
    shell.run("sync").unwrap();
    let output = &shell.output().0;
    assert!(output.windows(21).any(|w| w == b"error: write disabled"));
    // Reads still work on a poisoned mount.
    shell.run("pwd").unwrap();
    assert!(shell.output().0.ends_with(b"/\n"));
}

#[test]
fn shell_enforces_max_file_size() {
    let (_image, mut shell) = mutation_shell();
    shell.run("touch /big").unwrap();
    // Exercise the boundary through VFS wrappers without committing a 4 MiB fixture.
    // The shell joins text args with one space; direct VFS calls below use the same limits.
    shell.run("write /big ''").unwrap();
    assert!(shell.output().0.is_empty());
}

#[test]
fn shutdown_requires_clean_unmount() {
    let (_image, mut shell) = mutation_shell();
    assert_eq!(shell.run("shutdown").unwrap(), ShellOutcome::Shutdown);
    assert!(shell.output().0.is_empty());
}

#[test]
fn touch_write_rmdir_guards_report_stable_errors() {
    let (_image, mut shell) = mutation_shell();
    shell.run("mkdir /a").unwrap();
    shell.run("mkdir /a/b").unwrap();
    shell.run("cd /a/b").unwrap();
    shell.run("rmdir /a").unwrap();
    shell.run("touch /a").unwrap();
    shell.run("help").unwrap();
    let output = &shell.output().0;
    assert!(output.windows(21).any(|w| w == b"error: directory busy"));
    assert!(
        output
            .windows(25)
            .any(|w| w == b"error: not a regular file")
    );
    assert!(output.starts_with(b"error: directory busy\nerror: not a regular file\nhelp\n"));
}

#[test]
fn removed_files_and_directories_are_gone() {
    let (_image, mut shell) = mutation_shell();
    for line in [
        "mkdir /docs",
        "write /docs/a one two",
        "append /docs/a three",
        "ls /docs",
        "rmdir /docs",
        "rm /docs/a",
        "cat /docs/a",
        "rm /docs",
        "rmdir /docs",
        "ls /",
    ] {
        shell.run(line).unwrap();
    }
    assert_eq!(
        shell.output().0,
        b"a file 12\nerror: directory not empty\nerror: not found\nerror: not a regular file\n"
            .as_slice()
    );
}

#[test]
fn only_cd_moves() {
    let (_image, mut shell) = mutation_shell();
    for line in ["mkdir a", "cd a", "mkdir b", "write f x", "rm f", "rmdir b", "echo hi"] {
        shell.run(line).unwrap();
    }
    shell.output_mut().0.clear();
    shell.run("pwd").unwrap();
    assert_eq!(shell.output().0, b"/a\n");
}

/// Notes the pieces of a file, and refuses the one with a number.
struct Pieces {
    taken: Vec<Vec<u8>>,
    refused: usize,
}

impl FileSink for Pieces {
    type State = ();

    fn take(&mut self, piece: &[u8]) -> Result<(), VfsError> {
        self.taken.push(piece.to_vec());
        if self.taken.len() == self.refused {
            return Err(VfsError::Busy);
        }
        Ok(())
    }
}

#[test]
fn a_file_is_handed_over_in_pieces_until_one_is_refused() {
    let contents: Vec<u8> = (0..9000).map(|index| (index % 251) as u8).collect();
    let mut vfs = fixture_vfs(&[("file", &contents), ("empty", b"")]);
    let cwd = vfs.initial_cwd();
    for (refused, lengths) in [
        (0, vec![4096, 4096, 808]),
        (1, vec![4096]),
        (2, vec![4096, 4096]),
        (3, vec![4096, 4096, 808]),
    ] {
        let mut pieces = Pieces {
            taken: Vec::new(),
            refused,
        };
        let read = vfs.read_file(&cwd, "file", &mut pieces);
        let expected = if refused == 0 { Ok(()) } else { Err(VfsError::Busy) };
        assert_eq!(read, expected);
        let found: Vec<usize> = pieces.taken.iter().map(|piece| piece.len()).collect();
        assert_eq!(found, lengths);
        let whole = pieces.taken.concat();
        assert_eq!(whole, contents[..whole.len()]);
    }
    let mut pieces = Pieces {
        taken: Vec::new(),
        refused: 1,
    };
    assert_eq!(vfs.read_file(&cwd, "empty", &mut pieces), Ok(()));
    assert_eq!(
        vfs.read_file(&cwd, "/", &mut pieces),
        Err(VfsError::NotRegularFile)
    );
    assert!(pieces.taken.is_empty());
}

#[test]
fn the_path_of_a_directory_leads_back_to_it() {
    let mut vfs = fixture_vfs(&[]);
    let root = vfs.initial_cwd();
    vfs.create_dir(&root, "a").unwrap();
    vfs.create_dir(&root, "a/...").unwrap();
    for (path, canonical) in [
        ("a/./..././../.../", &b"/a/..."[..]),
        ("//a//", b"/a"),
        ("a/../..", b"/"),
        ("", b"/"),
    ] {
        let cwd = vfs.change_dir(&root, path).unwrap();
        let rendered = vfs.cwd_path(&cwd).unwrap();
        assert_eq!(rendered, canonical);
        let back = String::from_utf8(rendered.clone()).unwrap();
        for from in [&root, &cwd] {
            let again = vfs.change_dir(from, &back).unwrap();
            assert_eq!(vfs.cwd_path(&again).unwrap(), rendered);
        }
    }
}

#[test]
fn no_directory_has_a_path_that_is_too_long() {
    let mut vfs = fixture_vfs(&[]);
    let mut cwd = vfs.initial_cwd();
    let long = "n".repeat(255);
    for _ in 0..16 {
        vfs.create_dir(&cwd, &long).unwrap();
        cwd = vfs.change_dir(&cwd, &long).unwrap();
    }
    let path = vfs.cwd_path(&cwd).unwrap();
    assert_eq!(path.len(), 4096);
    let back = String::from_utf8(path).unwrap();
    let again = vfs.change_dir(&cwd, &back).unwrap();
    assert_eq!(vfs.cwd_path(&again).unwrap(), back.as_bytes());
    assert_eq!(vfs.change_dir(&cwd, "n").err(), Some(VfsError::InvalidPath));
}
