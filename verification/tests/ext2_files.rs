#![allow(dead_code)]

use relay_core::block::{BlockDevice, BlockError, BlockGeometry};
use relay_core::ext2::{Ext2, Ext2Error, MountHealth, MountMode};
use relay_core::fs::{Name, NodeId};
use std::cell::{Cell, RefCell};
use std::collections::{BTreeMap, BTreeSet};
use std::rc::Rc;

const BLOCK: usize = 4096;
const INODE_TABLE: usize = 4;
const ROOT_BLOCK: u32 = 260;

type Blocks = BTreeMap<u64, Vec<u8>>;

/// A disk in memory that several devices share.
#[derive(Clone)]
struct MemDevice {
    blocks: Rc<RefCell<Blocks>>,
}

impl BlockDevice for MemDevice {
    fn geometry(&self) -> BlockGeometry {
        BlockGeometry {
            logical_sector_size: 512,
            sector_count: 262_144,
        }
    }

    fn read_sectors(&mut self, first_lba: u64, dst: &mut [u8]) -> Result<(), BlockError> {
        check_request(first_lba, dst.len())?;
        for (index, sector) in dst.chunks_mut(512).enumerate() {
            let lba = first_lba + index as u64;
            let at = (lba % 8) as usize * 512;
            match self.blocks.borrow().get(&(lba / 8)) {
                Some(block) => sector.copy_from_slice(&block[at..at + 512]),
                None => sector.fill(0),
            }
        }
        Ok(())
    }

    fn write_sectors(&mut self, first_lba: u64, src: &[u8]) -> Result<(), BlockError> {
        check_request(first_lba, src.len())?;
        for (index, sector) in src.chunks(512).enumerate() {
            let lba = first_lba + index as u64;
            let at = (lba % 8) as usize * 512;
            let mut blocks = self.blocks.borrow_mut();
            let block = blocks.entry(lba / 8).or_insert_with(|| vec![0; BLOCK]);
            block[at..at + 512].copy_from_slice(sector);
        }
        Ok(())
    }

    fn flush(&mut self) -> Result<(), BlockError> {
        Ok(())
    }
}

fn check_request(first_lba: u64, bytes: usize) -> Result<(), BlockError> {
    if bytes == 0 || bytes % 512 != 0 {
        return Err(BlockError::InvalidRequest);
    }
    if first_lba + (bytes / 512) as u64 > 262_144 {
        return Err(BlockError::OutOfRange);
    }
    Ok(())
}

/// A file system image.
struct Ext2Fixture {
    blocks: Rc<RefCell<Blocks>>,
    next_block: u32,
    next_inode: u32,
    used_dirs: u16,
}

fn put16(bytes: &mut [u8], at: usize, value: u16) {
    bytes[at..at + 2].copy_from_slice(&value.to_le_bytes());
}

fn put32(bytes: &mut [u8], at: usize, value: u32) {
    bytes[at..at + 4].copy_from_slice(&value.to_le_bytes());
}

fn get16(bytes: &[u8], at: usize) -> u16 {
    u16::from_le_bytes([bytes[at], bytes[at + 1]])
}

fn get32(bytes: &[u8], at: usize) -> u32 {
    u32::from_le_bytes([bytes[at], bytes[at + 1], bytes[at + 2], bytes[at + 3]])
}

impl Ext2Fixture {
    fn open(&self) -> Result<MemDevice, ()> {
        Ok(MemDevice {
            blocks: self.blocks.clone(),
        })
    }

    fn block(&self, number: u32) -> Vec<u8> {
        match self.blocks.borrow().get(&u64::from(number)) {
            Some(block) => block.clone(),
            None => vec![0; BLOCK],
        }
    }

    fn change(&self, number: u32, change: impl FnOnce(&mut [u8])) {
        let mut blocks = self.blocks.borrow_mut();
        change(
            blocks
                .entry(u64::from(number))
                .or_insert_with(|| vec![0; BLOCK]),
        );
    }

    fn empty() -> Self {
        let mut image = Ext2Fixture {
            blocks: Rc::new(RefCell::new(BTreeMap::new())),
            next_block: ROOT_BLOCK + 1,
            next_inode: 11,
            used_dirs: 1,
        };
        image.change(0, |b| {
            put32(b, 1024, 4096);
            put32(b, 1024 + 4, 32768);
            put32(b, 1024 + 24, 2);
            put32(b, 1024 + 28, 2);
            put32(b, 1024 + 32, 32768);
            put32(b, 1024 + 36, 32768);
            put32(b, 1024 + 40, 4096);
            put16(b, 1024 + 56, 0xEF53);
            put16(b, 1024 + 58, 1);
            put16(b, 1024 + 60, 1);
            put32(b, 1024 + 76, 1);
            put32(b, 1024 + 84, 11);
            put16(b, 1024 + 88, 256);
            put32(b, 1024 + 96, 2);
        });
        image.change(1, |b| {
            put32(b, 0, 2);
            put32(b, 4, 3);
            put32(b, 8, INODE_TABLE as u32);
        });
        image.inode(2, 0x41ED, 4096, 2, &[ROOT_BLOCK], 0);
        image.directory(ROOT_BLOCK, 2, 2);
        image.account();
        image
    }

    /// Writes the inode with this number.
    fn inode(&mut self, number: u32, mode: u16, size: u32, links: u16, direct: &[u32], indirect: u32) {
        let at = (number as usize - 1) * 256;
        let count = direct.len() as u32;
        self.change((INODE_TABLE + at / BLOCK) as u32, |b| {
            let i = at % BLOCK;
            put16(b, i, mode);
            put32(b, i + 4, size);
            put16(b, i + 26, links);
            put32(b, i + 28, (count + u32::from(indirect != 0)) * 8);
            for (k, pointer) in direct.iter().take(12).enumerate() {
                put32(b, i + 40 + k * 4, *pointer);
            }
            put32(b, i + 88, indirect);
        });
    }

    /// Writes a directory with no entries but itself and its parent.
    fn directory(&mut self, block: u32, own: u32, parent: u32) {
        self.change(block, |b| {
            put32(b, 0, own);
            put16(b, 4, 12);
            b[6] = 1;
            b[7] = 2;
            b[8] = b'.';
            put32(b, 12, parent);
            put16(b, 16, 4084);
            b[18] = 2;
            b[19] = 2;
            b[20] = b'.';
            b[21] = b'.';
        });
    }

    /// Puts an entry behind the last one of a directory.
    fn link(&mut self, block: u32, name: &str, inode: u32, kind: u8) {
        self.change(block, |b| {
            let mut at = 0;
            while at + (get16(b, at + 4) as usize) < BLOCK {
                at += get16(b, at + 4) as usize;
            }
            let needed = (8 + b[at + 6] as usize + 3) / 4 * 4;
            put16(b, at + 4, needed as u16);
            let new = at + needed;
            put32(b, new, inode);
            put16(b, new + 4, (BLOCK - new) as u16);
            b[new + 6] = name.len() as u8;
            b[new + 7] = kind;
            b[new + 8..new + 8 + name.len()].copy_from_slice(name.as_bytes());
        });
    }

    fn take_block(&mut self) -> u32 {
        self.next_block += 1;
        self.next_block - 1
    }

    fn add_file(&mut self, parent_block: u32, name: &str, contents: &[u8]) {
        let number = self.next_inode;
        self.next_inode += 1;
        let mut data = Vec::new();
        for part in contents.chunks(BLOCK) {
            let block = self.take_block();
            self.change(block, |b| b[..part.len()].copy_from_slice(part));
            data.push(block);
        }
        let mut indirect = 0;
        if data.len() > 12 {
            indirect = self.take_block();
            let rest = data[12..].to_vec();
            self.change(indirect, |b| {
                for (k, pointer) in rest.iter().enumerate() {
                    put32(b, k * 4, *pointer);
                }
            });
        }
        self.inode(number, 0x81A4, contents.len() as u32, 1, &data, indirect);
        self.link(parent_block, name, number, 1);
        self.account();
    }

    fn add_dir(&mut self, name: &str) -> u32 {
        let number = self.next_inode;
        self.next_inode += 1;
        self.used_dirs += 1;
        let block = self.take_block();
        self.inode(number, 0x41ED, 4096, 2, &[block], 0);
        self.directory(block, number, 2);
        self.link(ROOT_BLOCK, name, number, 2);
        self.change(INODE_TABLE as u32, |b| put16(b, 256 + 26, get16(b, 256 + 26) + 1));
        self.account();
        block
    }

    /// Brings bitmaps and counts in line with what was handed out.
    fn account(&mut self) {
        let (blocks, inodes, dirs) = (self.next_block, self.next_inode - 1, self.used_dirs);
        self.change(2, |b| {
            for i in 0..blocks as usize {
                b[i / 8] |= 1 << (i % 8);
            }
        });
        self.change(3, |b| {
            for i in 0..inodes as usize {
                b[i / 8] |= 1 << (i % 8);
            }
            b[512..].fill(0xff);
        });
        self.change(0, |b| {
            put32(b, 1024 + 12, 32768 - blocks);
            put32(b, 1024 + 16, 4096 - inodes);
        });
        self.change(1, |b| {
            put16(b, 12, (32768 - blocks) as u16);
            put16(b, 14, (4096 - inodes) as u16);
            put16(b, 16, dirs);
        });
    }

    fn root_entry(&self, wanted: &str) -> usize {
        let b = self.block(ROOT_BLOCK);
        let mut at = 0;
        while at < BLOCK {
            let len = b[at + 6] as usize;
            if &b[at + 8..at + 8 + len] == wanted.as_bytes() {
                return at;
            }
            at += get16(&b, at + 4) as usize;
        }
        panic!("no such entry: {wanted}");
    }

    fn set_root_entry_inode(&mut self, name: &str, value: u32) {
        let at = self.root_entry(name);
        self.change(ROOT_BLOCK, |b| put32(b, at, value));
    }

    fn set_root_entry_file_type(&mut self, name: &str, value: u8) {
        let at = self.root_entry(name);
        self.change(ROOT_BLOCK, |b| b[at + 7] = value);
    }

    fn set_root_entry_record_length(&mut self, name: &str, value: u16) {
        let at = self.root_entry(name);
        self.change(ROOT_BLOCK, |b| put16(b, at + 4, value));
    }

    /// Where the inode of an entry of the root directory is: its block, and its place in it.
    fn named_inode(&self, name: &str) -> (u32, usize) {
        let number = get32(&self.block(ROOT_BLOCK), self.root_entry(name));
        let at = (number as usize - 1) * 256;
        ((INODE_TABLE + at / BLOCK) as u32, at % BLOCK)
    }

    fn clear_first_data_pointer(&mut self, name: &str) {
        let (block, at) = self.named_inode(name);
        self.change(block, |b| put32(b, at + 40, 0));
    }

    fn set_first_data_pointer(&mut self, name: &str, value: u32) {
        let (block, at) = self.named_inode(name);
        self.change(block, |b| put32(b, at + 40, value));
    }

    fn set_first_indirect_data_pointer(&mut self, name: &str, value: u32) {
        let (block, at) = self.named_inode(name);
        let indirect = get32(&self.block(block), at + 88);
        self.change(indirect, |b| put32(b, 0, value));
    }

    fn set_superblock_u16(&mut self, at: usize, value: u16) {
        self.change(0, |b| put16(b, 1024 + at, value));
    }

    fn set_superblock_u32(&mut self, at: usize, value: u32) {
        self.change(0, |b| put32(b, 1024 + at, value));
    }
}

fn fixture_with_files(files: &[(&str, &[u8])]) -> Result<Ext2Fixture, ()> {
    let mut image = Ext2Fixture::empty();
    for (name, contents) in files {
        image.add_file(ROOT_BLOCK, name, contents);
    }
    Ok(image)
}

fn fixture_with_directory(directory: &str, file: &str, contents: &[u8]) -> Result<Ext2Fixture, ()> {
    let mut image = Ext2Fixture::empty();
    let block = image.add_dir(directory);
    image.add_file(block, file, contents);
    Ok(image)
}

/// A device that fails one write or one flush.
struct FaultDevice<D> {
    inner: D,
    writes: Rc<Cell<usize>>,
    flushes: Rc<Cell<usize>>,
    fail_write: Option<usize>,
    fail_flush: Option<usize>,
}

impl<D> FaultDevice<D> {
    fn fail_write(inner: D, index: usize) -> Self {
        Self {
            inner,
            writes: Rc::new(Cell::new(0)),
            flushes: Rc::new(Cell::new(0)),
            fail_write: Some(index),
            fail_flush: None,
        }
    }

    fn fail_flush(inner: D, index: usize) -> Self {
        Self {
            inner,
            writes: Rc::new(Cell::new(0)),
            flushes: Rc::new(Cell::new(0)),
            fail_write: None,
            fail_flush: Some(index),
        }
    }
}

impl<D: BlockDevice> BlockDevice for FaultDevice<D> {
    fn geometry(&self) -> BlockGeometry {
        self.inner.geometry()
    }

    fn read_sectors(&mut self, first_lba: u64, dst: &mut [u8]) -> Result<(), BlockError> {
        self.inner.read_sectors(first_lba, dst)
    }

    fn write_sectors(&mut self, first_lba: u64, src: &[u8]) -> Result<(), BlockError> {
        // A mount for changes takes the first write, when it marks the file system as being
        // changed, so failing write 1 fails the first write of the change itself.
        let index = self.writes.get();
        self.writes.set(index + 1);
        if self.fail_write == Some(index) {
            return Err(BlockError::Transport);
        }
        self.inner.write_sectors(first_lba, src)
    }

    fn flush(&mut self) -> Result<(), BlockError> {
        let index = self.flushes.get();
        self.flushes.set(index + 1);
        if self.fail_flush == Some(index) {
            return Err(BlockError::Flush);
        }
        self.inner.flush()
    }
}

/// The blocks that an inode owns, its indirect block among them.
fn owned_blocks(image: &Ext2Fixture, inode: &[u8]) -> Vec<u32> {
    let mut owned = Vec::new();
    for k in 0..12 {
        owned.push(get32(inode, 40 + k * 4));
    }
    let indirect = get32(inode, 88);
    owned.push(indirect);
    assert_eq!(get32(inode, 92), 0);
    assert_eq!(get32(inode, 96), 0);
    if indirect != 0 {
        let block = image.block(indirect);
        for k in 0..1024 {
            owned.push(get32(&block, k * 4));
        }
    }
    owned.retain(|pointer| *pointer != 0);
    owned
}

fn inode_bytes(image: &Ext2Fixture, number: u32) -> Vec<u8> {
    let at = (number as usize - 1) * 256;
    image.block((INODE_TABLE + at / BLOCK) as u32)[at % BLOCK..at % BLOCK + 256].to_vec()
}

/// Every inode that is linked, by number.
fn linked_inodes(image: &Ext2Fixture) -> Vec<(u32, Vec<u8>)> {
    (2..=4096)
        .map(|number| (number, inode_bytes(image, number)))
        .filter(|(_, inode)| {
            matches!(get16(inode, 0) & 0xf000, 0x8000 | 0x4000) && get16(inode, 26) != 0
        })
        .collect()
}

fn assert_no_duplicate_blocks(image: &Ext2Fixture) -> BTreeSet<u32> {
    let mut owned = BTreeSet::new();
    for (_, inode) in linked_inodes(image) {
        for block in owned_blocks(image, &inode) {
            assert!(owned.insert(block), "duplicate block {block}");
        }
    }
    owned
}

/// Checks that bitmaps, counts and links agree with the inodes and the directories.
fn assert_consistent(image: &Ext2Fixture) {
    let mut used = assert_no_duplicate_blocks(image);
    used.extend(0..INODE_TABLE as u32 + 256);
    let bitmap = image.block(2);
    for block in 0..32768_u32 {
        let marked = bitmap[block as usize / 8] >> (block % 8) & 1 == 1;
        assert_eq!(marked, used.contains(&block), "block {block}");
    }
    let linked = linked_inodes(image);
    let numbers: BTreeSet<u32> = linked.iter().map(|(number, _)| *number).collect();
    let bitmap = image.block(3);
    for number in 1..=4096_u32 {
        let i = number as usize - 1;
        let marked = bitmap[i / 8] >> (i % 8) & 1 == 1;
        assert_eq!(marked, number <= 10 || numbers.contains(&number), "inode {number}");
    }
    let mut links: BTreeMap<u32, u16> = BTreeMap::new();
    let mut dirs = 0;
    for (_, inode) in &linked {
        if get16(inode, 0) & 0xf000 != 0x4000 {
            continue;
        }
        dirs += 1;
        for block in owned_blocks(image, inode) {
            let b = image.block(block);
            let mut at = 0;
            while at < BLOCK {
                if get32(&b, at) != 0 {
                    *links.entry(get32(&b, at)).or_insert(0) += 1;
                }
                at += get16(&b, at + 4) as usize;
            }
            assert_eq!(at, BLOCK);
        }
    }
    for (number, inode) in &linked {
        assert_eq!(links.get(number), Some(&get16(inode, 26)), "links of {number}");
        assert_eq!(
            get32(inode, 28) as usize,
            owned_blocks(image, inode).len() * 8,
            "sectors of {number}"
        );
    }
    assert_eq!(links.len(), linked.len());
    let free_blocks = 32768 - used.len() as u32;
    let free_inodes = 4096 - (9 + linked.len() as u32);
    let b = image.block(0);
    assert_eq!(get32(&b, 1024 + 12), free_blocks);
    assert_eq!(get32(&b, 1024 + 16), free_inodes);
    let b = image.block(1);
    assert_eq!(u32::from(get16(&b, 12)), free_blocks);
    assert_eq!(u32::from(get16(&b, 14)), free_inodes);
    assert_eq!(get16(&b, 16), dirs);
}

fn name(bytes: &[u8]) -> Name {
    Name::new(bytes).unwrap()
}

fn superblock_state(image: &Ext2Fixture) -> u16 {
    let mut device = image.open().unwrap();
    let mut superblock = [0; 1024];
    device.read_sectors(2, &mut superblock).unwrap();
    u16::from_le_bytes([superblock[58], superblock[59]])
}

#[test]
fn read_only_mount_reports_read_only_health_and_rejects_mutation() {
    let image = fixture_with_files(&[("file", b"relay")]).unwrap();
    let mut fs = Ext2::mount(image.open().unwrap(), MountMode::ReadOnly).unwrap();

    assert_eq!(fs.health(), MountHealth::ReadOnly);
    assert_eq!(
        fs.create_file(fs.root(), &name(b"a")),
        Err(Ext2Error::ReadOnly)
    );
}

#[test]
fn failed_metadata_write_disables_later_mutation() {
    let image = fixture_with_files(&[]).unwrap();
    let device = FaultDevice::fail_write(image.open().unwrap(), 1);
    let mut fs = Ext2::mount(device, MountMode::ReadWrite).unwrap();

    assert!(fs.create_file(fs.root(), &name(b"a")).is_err());
    assert_eq!(fs.health(), MountHealth::WriteFailed);
    assert_eq!(
        fs.create_file(fs.root(), &name(b"b")),
        Err(Ext2Error::WriteDisabled)
    );
}

#[test]
fn read_write_mount_clears_dirty_state_and_unmount_restores_clean() {
    let image = fixture_with_files(&[]).unwrap();
    let mut fs = Ext2::mount(image.open().unwrap(), MountMode::ReadWrite).unwrap();

    assert_eq!(fs.health(), MountHealth::Writable);
    assert_eq!(superblock_state(&image), 0);
    assert!(matches!(
        Ext2::mount(image.open().unwrap(), MountMode::ReadWrite),
        Err(Ext2Error::MountRequiresCleanFilesystem),
    ));

    fs.unmount().unwrap();

    assert_eq!(fs.health(), MountHealth::Unmounted);
    assert_eq!(superblock_state(&image), 1);
    assert!(Ext2::mount(image.open().unwrap(), MountMode::ReadWrite).is_ok());
}

#[test]
fn create_write_and_reopen_survive_unmount() {
    let image = fixture_with_files(&[]).unwrap();
    let mut fs = Ext2::mount(image.open().unwrap(), MountMode::ReadWrite).unwrap();
    let node = fs.create_file(fs.root(), &name(b"hello")).unwrap();

    fs.write_at(node, 0, b"relay os").unwrap();
    fs.unmount().unwrap();

    let mut reopened = Ext2::mount(image.open().unwrap(), MountMode::ReadOnly).unwrap();
    let found = reopened.lookup(reopened.root(), &name(b"hello")).unwrap();
    let mut bytes = [0; 8];

    assert_eq!(reopened.read_at(found, 0, &mut bytes).unwrap(), 8);
    assert_eq!(&bytes, b"relay os");
}

#[test]
fn maximum_file_size_is_exact() {
    let big = vec![0x5a; 4_243_456];
    let image = fixture_with_files(&[]).unwrap();
    let mut fs = Ext2::mount(image.open().unwrap(), MountMode::ReadWrite).unwrap();
    let node = fs.create_file(fs.root(), &name(b"big")).unwrap();

    assert!(fs.write_at(node, 0, &big).is_ok());
    assert_eq!(
        fs.write_at(node, 4_243_456, &[0]),
        Err(Ext2Error::FileTooLarge)
    );
    assert_eq!(fs.truncate(node, 4_243_457), Err(Ext2Error::FileTooLarge));
}

#[test]
fn write_over_holey_pointers_zero_fills_without_garbage() {
    let contents = vec![0x41; 13 * 4096];
    let mut image = fixture_with_files(&[("hole", &contents)]).unwrap();
    image.clear_first_data_pointer("hole");
    image.set_first_indirect_data_pointer("hole", 0);
    let mut fs = Ext2::mount(image.open().unwrap(), MountMode::ReadWrite).unwrap();
    let node = fs.lookup(fs.root(), &name(b"hole")).unwrap();

    fs.write_at(node, 0, b"hi").unwrap();
    fs.write_at(node, 12 * 4096, b"hi").unwrap();

    let mut first = [0xff; 16];
    assert_eq!(fs.read_at(node, 0, &mut first).unwrap(), 16);
    assert_eq!(&first[..2], b"hi");
    assert!(first[2..].iter().all(|byte| *byte == 0));

    let mut indirect = [0xff; 16];
    assert_eq!(fs.read_at(node, 12 * 4096, &mut indirect).unwrap(), 16);
    assert_eq!(&indirect[..2], b"hi");
    assert!(indirect[2..].iter().all(|byte| *byte == 0));

    let mut middle = [0; 16];
    assert_eq!(fs.read_at(node, 4096, &mut middle).unwrap(), 16);
    assert!(middle.iter().all(|byte| *byte == 0x41));
}

#[test]
fn write_crosses_direct_to_single_indirect_and_counts_indirect() {
    let bytes: Vec<u8> = (0..13 * 4096).map(|index| index as u8).collect();
    let image = fixture_with_files(&[]).unwrap();
    let mut fs = Ext2::mount(image.open().unwrap(), MountMode::ReadWrite).unwrap();
    let node = fs.create_file(fs.root(), &name(b"boundary")).unwrap();

    fs.write_at(node, 0, &bytes).unwrap();

    let mut edge = [0; 2];
    assert_eq!(fs.read_at(node, 12 * 4096 - 1, &mut edge).unwrap(), 2);
    assert_eq!(edge, [0xff, 0x00]);
}

fn free_counts(image: &Ext2Fixture) -> (u32, u32) {
    let b = image.block(0);
    (get32(&b, 1024 + 12), get32(&b, 1024 + 16))
}

#[test]
fn superblocks_of_another_layout_are_refused() {
    for (at, value, field) in [
        (76, 0, "revision_level"),
        (24, 0, "log_block_size"),
        (28, 0, "log_fragment_size"),
        (4, 32767, "blocks_count"),
        (0, 4095, "inodes_count"),
        (20, 1, "first_data_block"),
        (32, 8192, "blocks_per_group"),
        (36, 8192, "fragments_per_group"),
        (40, 1024, "inodes_per_group"),
        (96, 0, "feature_incompat"),
    ] {
        let mut image = fixture_with_files(&[]).unwrap();
        image.set_superblock_u32(at, value);
        assert_eq!(
            Ext2::mount(image.open().unwrap(), MountMode::ReadOnly).err(),
            Some(Ext2Error::UnsupportedProfile { field })
        );
    }
    for (at, value, bits, field) in [
        (92, 4, 4, "feature_compat"),
        (96, 0x42, 0x40, "feature_incompat"),
        (100, 1, 1, "feature_ro_compat"),
    ] {
        let mut image = fixture_with_files(&[]).unwrap();
        image.set_superblock_u32(at, value);
        assert_eq!(
            Ext2::mount(image.open().unwrap(), MountMode::ReadOnly).err(),
            Some(Ext2Error::UnsupportedFeature { field, bits })
        );
    }
    let mut image = fixture_with_files(&[]).unwrap();
    image.set_superblock_u16(56, 0xEF54);
    assert_eq!(
        Ext2::mount(image.open().unwrap(), MountMode::ReadOnly).err(),
        Some(Ext2Error::UnsupportedProfile { field: "magic" })
    );
    let mut image = fixture_with_files(&[]).unwrap();
    image.set_superblock_u16(58, 0);
    assert!(Ext2::mount(image.open().unwrap(), MountMode::ReadOnly).is_ok());
    assert_eq!(
        Ext2::mount(image.open().unwrap(), MountMode::ReadWrite).err(),
        Some(Ext2Error::MountRequiresCleanFilesystem)
    );
    for (at, field) in [(0, "block_bitmap"), (4, "inode_bitmap"), (8, "inode_table")] {
        let image = fixture_with_files(&[]).unwrap();
        image.change(1, |b| put32(b, at, 40_000));
        assert_eq!(
            Ext2::mount(image.open().unwrap(), MountMode::ReadOnly).err(),
            Some(Ext2Error::CorruptMetadata { field })
        );
    }
}

struct WideSectors(MemDevice);

impl BlockDevice for WideSectors {
    fn geometry(&self) -> BlockGeometry {
        BlockGeometry {
            logical_sector_size: 4096,
            sector_count: 32768,
        }
    }

    fn read_sectors(&mut self, first_lba: u64, dst: &mut [u8]) -> Result<(), BlockError> {
        self.0.read_sectors(first_lba, dst)
    }

    fn write_sectors(&mut self, first_lba: u64, src: &[u8]) -> Result<(), BlockError> {
        self.0.write_sectors(first_lba, src)
    }

    fn flush(&mut self) -> Result<(), BlockError> {
        self.0.flush()
    }
}

#[test]
fn other_sectors_are_refused() {
    let image = fixture_with_files(&[]).unwrap();
    assert_eq!(
        Ext2::mount(WideSectors(image.open().unwrap()), MountMode::ReadOnly).err(),
        Some(Ext2Error::UnsupportedSector { sector_size: 4096 })
    );
}

#[test]
fn a_read_gives_what_was_written_and_nothing_else_changes() {
    let other = vec![7; 9000];
    let image = fixture_with_files(&[("other", &other)]).unwrap();
    let mut fs = Ext2::mount(image.open().unwrap(), MountMode::ReadWrite).unwrap();
    let node = fs.create_file(fs.root(), &name(b"f")).unwrap();
    let mut expected = Vec::new();
    for (offset, len, byte) in [
        (0_usize, 10_usize, 1_u8),
        (4090, 20, 2),
        (12 * 4096 - 5, 4106, 3),
        (100, 4096, 4),
        (14 * 4096, 3 * 4096, 5),
    ] {
        fs.write_at(node, offset as u64, &vec![byte; len]).unwrap();
        if expected.len() < offset + len {
            expected.resize(offset + len, 0);
        }
        expected[offset..offset + len].fill(byte);
    }
    assert_eq!(fs.metadata(node).unwrap().len, expected.len() as u64);
    let mut actual = vec![0xEE; expected.len() + 50];
    assert_eq!(fs.read_at(node, 0, &mut actual), Ok(expected.len()));
    assert_eq!(&actual[..expected.len()], &expected[..]);
    assert!(actual[expected.len()..].iter().all(|byte| *byte == 0xEE));
    let untouched = fs.lookup(fs.root(), &name(b"other")).unwrap();
    let mut kept = vec![0; 9000];
    assert_eq!(fs.read_at(untouched, 0, &mut kept), Ok(9000));
    assert_eq!(kept, other);
    assert_eq!(fs.read_at(node, 1 << 30, &mut kept), Ok(0));
    fs.unmount().unwrap();
    assert_consistent(&image);
}

#[test]
fn what_is_created_and_removed_leaves_the_counts_as_they_were() {
    let image = fixture_with_files(&[("keep", b"k")]).unwrap();
    let before = free_counts(&image);
    let mut fs = Ext2::mount(image.open().unwrap(), MountMode::ReadWrite).unwrap();
    let node = fs.create_file(fs.root(), &name(b"f")).unwrap();
    fs.write_at(node, 0, &vec![9; 20 * 4096]).unwrap();
    assert_eq!(free_counts(&image), (before.0 - 21, before.1 - 1));
    fs.truncate(node, 12 * 4096).unwrap();
    assert_eq!(free_counts(&image), (before.0 - 12, before.1 - 1));
    fs.truncate(node, 4097).unwrap();
    assert_eq!(free_counts(&image), (before.0 - 2, before.1 - 1));
    fs.unlink_file(fs.root(), &name(b"f")).unwrap();
    assert_eq!(free_counts(&image), before);
    fs.create_dir(fs.root(), &name(b"d")).unwrap();
    assert_eq!(free_counts(&image), (before.0 - 1, before.1 - 1));
    fs.remove_dir(fs.root(), &name(b"d")).unwrap();
    assert_eq!(free_counts(&image), before);
    fs.unmount().unwrap();
    assert_consistent(&image);
}

#[test]
fn truncating_sets_the_length_and_new_blocks_are_zero() {
    let image = fixture_with_files(&[("f", b"relay os")]).unwrap();
    let mut fs = Ext2::mount(image.open().unwrap(), MountMode::ReadWrite).unwrap();
    let node = fs.lookup(fs.root(), &name(b"f")).unwrap();
    fs.truncate(node, 5).unwrap();
    assert_eq!(fs.metadata(node).unwrap().len, 5);
    fs.truncate(node, 3 * 4096).unwrap();
    let mut bytes = vec![1; 3 * 4096];
    assert_eq!(fs.read_at(node, 0, &mut bytes), Ok(3 * 4096));
    assert_eq!(&bytes[..5], b"relay");
    assert!(bytes[4096..].iter().all(|byte| *byte == 0));
    assert_eq!(fs.truncate(fs.root(), 0), Err(Ext2Error::WrongNodeKind));
    assert_eq!(fs.write_at(fs.root(), 0, b"x"), Err(Ext2Error::WrongNodeKind));
    assert_eq!(fs.metadata(NodeId(0)), Err(Ext2Error::InvalidNode));
    assert_eq!(fs.metadata(NodeId(4097)), Err(Ext2Error::InvalidNode));
    fs.unmount().unwrap();
    assert_consistent(&image);
}

#[test]
fn holes_are_not_read() {
    let contents = vec![0x41; 2 * 4096];
    let mut image = fixture_with_files(&[("hole", &contents)]).unwrap();
    image.clear_first_data_pointer("hole");
    let mut fs = Ext2::mount(image.open().unwrap(), MountMode::ReadOnly).unwrap();
    let node = fs.lookup(fs.root(), &name(b"hole")).unwrap();
    assert_eq!(fs.read_at(node, 0, &mut [0; 4]), Err(Ext2Error::SparseFile));
    let mut image = fixture_with_files(&[("bad", &contents)]).unwrap();
    for block in [1, 2, 3, 4, 259] {
        image.set_first_data_pointer("bad", block);
        let mut fs = Ext2::mount(image.open().unwrap(), MountMode::ReadOnly).unwrap();
        let node = fs.lookup(fs.root(), &name(b"bad")).unwrap();
        assert_eq!(
            fs.read_at(node, 0, &mut [0; 4]),
            Err(Ext2Error::CorruptMetadata {
                field: "block_pointer"
            })
        );
    }
}

#[test]
fn a_full_disk_has_no_space() {
    let image = fixture_with_files(&[]).unwrap();
    image.change(2, |b| b.fill(0xff));
    let mut fs = Ext2::mount(image.open().unwrap(), MountMode::ReadWrite).unwrap();
    let node = fs.create_file(fs.root(), &name(b"f")).unwrap();
    assert_eq!(fs.write_at(node, 0, b"x"), Err(Ext2Error::NoSpace));
    assert_eq!(
        fs.create_dir(fs.root(), &name(b"d")),
        Err(Ext2Error::NoSpace)
    );
    let image = fixture_with_files(&[]).unwrap();
    image.change(3, |b| b.fill(0xff));
    let mut fs = Ext2::mount(image.open().unwrap(), MountMode::ReadWrite).unwrap();
    assert_eq!(
        fs.create_file(fs.root(), &name(b"f")),
        Err(Ext2Error::NoSpace)
    );
}

#[test]
fn a_write_succeeds_where_just_enough_blocks_are_free() {
    let bytes: Vec<u8> = (0..13 * 4096).map(|index| (index % 251) as u8).collect();
    for (free, expected) in [(14, Ok(())), (13, Err(Ext2Error::NoSpace))] {
        let image = fixture_with_files(&[("other", b"kept"), ("grown", b"ab")]).unwrap();
        image.change(2, |b| {
            b.fill(0xff);
            for block in 32768 - free..32768usize {
                b[block / 8] &= !(1 << (block % 8));
            }
        });
        image.change(0, |b| put32(b, 1024 + 12, free as u32));
        image.change(1, |b| put16(b, 12, free as u16));
        let mut fs = Ext2::mount(image.open().unwrap(), MountMode::ReadWrite).unwrap();
        let node = fs.create_file(fs.root(), &name(b"new")).unwrap();
        assert_eq!(fs.write_at(node, 0, &bytes), expected);
        if expected.is_ok() {
            assert_eq!(fs.metadata(node).unwrap().len, bytes.len() as u64);
            let mut whole = vec![0; bytes.len()];
            assert_eq!(fs.read_at(node, 0, &mut whole), Ok(bytes.len()));
            assert_eq!(whole, bytes);
            // The file that has its block takes a write still.
            let grown = fs.lookup(fs.root(), &name(b"grown")).unwrap();
            assert_eq!(fs.write_at(grown, 1, b"xyz"), Ok(()));
            let mut four = [0; 4];
            assert_eq!(fs.read_at(grown, 0, &mut four), Ok(4));
            assert_eq!(&four, b"axyz");
            assert_eq!(fs.write_at(grown, 4096, b"x"), Err(Ext2Error::NoSpace));
        }
        let other = fs.lookup(fs.root(), &name(b"other")).unwrap();
        let mut kept = [0; 4];
        assert_eq!(fs.read_at(other, 0, &mut kept), Ok(4));
        assert_eq!(&kept, b"kept");
    }
}

/// A device that fails the reads of one place, once it is told to.
struct ReadFault {
    inner: MemDevice,
    fail: Rc<Cell<Option<u64>>>,
}

impl BlockDevice for ReadFault {
    fn geometry(&self) -> BlockGeometry {
        self.inner.geometry()
    }

    fn read_sectors(&mut self, first_lba: u64, dst: &mut [u8]) -> Result<(), BlockError> {
        if self.fail.get() == Some(first_lba) {
            return Err(BlockError::Transport);
        }
        self.inner.read_sectors(first_lba, dst)
    }

    fn write_sectors(&mut self, first_lba: u64, src: &[u8]) -> Result<(), BlockError> {
        self.inner.write_sectors(first_lba, src)
    }

    fn flush(&mut self) -> Result<(), BlockError> {
        self.inner.flush()
    }
}

#[test]
fn a_failed_read_of_a_block_that_is_written_disables_changes() {
    let image = fixture_with_files(&[("f", b"abc")]).unwrap();
    let (block, at) = image.named_inode("f");
    let data = get32(&image.block(block), at + 40);
    let fail = Rc::new(Cell::new(None));
    let device = ReadFault {
        inner: image.open().unwrap(),
        fail: fail.clone(),
    };
    let mut fs = Ext2::mount(device, MountMode::ReadWrite).unwrap();
    let node = fs.lookup(fs.root(), &name(b"f")).unwrap();
    fail.set(Some(u64::from(data) * 8));
    assert_eq!(
        fs.read_at(node, 0, &mut [0; 3]),
        Err(Ext2Error::Block(BlockError::Transport))
    );
    assert_eq!(fs.health(), MountHealth::Writable);
    assert_eq!(
        fs.write_at(node, 1, b"x"),
        Err(Ext2Error::Block(BlockError::Transport))
    );
    assert_eq!(fs.health(), MountHealth::WriteFailed);
    fail.set(None);
    assert_eq!(fs.write_at(node, 1, b"x"), Err(Ext2Error::WriteDisabled));
}
