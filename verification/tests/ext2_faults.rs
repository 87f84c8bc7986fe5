#![allow(dead_code)]

use relay_core::block::{BlockDevice, BlockError, BlockGeometry};
use relay_core::ext2::{Ext2, Ext2Error, MountHealth, MountMode};
use relay_core::fs::Name;
use std::cell::{Cell, RefCell};
use std::collections::{BTreeMap, BTreeSet};
use std::rc::Rc;

const BLOCK: usize = 4096;
const INODE_TABLE: usize = 4;
const ROOT_BLOCK: u32 = 260;

type Blocks = BTreeMap<u64, Vec<u8>>;

/// A disk in memory that several devices share.
#[derive(Clone)]
struct MemDevice {
    blocks: Rc<RefCell<Blocks>>,
}

impl BlockDevice for MemDevice {
    fn geometry(&self) -> BlockGeometry {
        BlockGeometry {
            logical_sector_size: 512,
            sector_count: 262_144,
        }
    }

    fn read_sectors(&mut self, first_lba: u64, dst: &mut [u8]) -> Result<(), BlockError> {
        check_request(first_lba, dst.len())?;
        for (index, sector) in dst.chunks_mut(512).enumerate() {
            let lba = first_lba + index as u64;
            let at = (lba % 8) as usize * 512;
            match self.blocks.borrow().get(&(lba / 8)) {
                Some(block) => sector.copy_from_slice(&block[at..at + 512]),
                None => sector.fill(0),
            }
        }
        Ok(())
    }

    fn write_sectors(&mut self, first_lba: u64, src: &[u8]) -> Result<(), BlockError> {
        check_request(first_lba, src.len())?;
        for (index, sector) in src.chunks(512).enumerate() {
            let lba = first_lba + index as u64;
            let at = (lba % 8) as usize * 512;
            let mut blocks = self.blocks.borrow_mut();
            let block = blocks.entry(lba / 8).or_insert_with(|| vec![0; BLOCK]);
            block[at..at + 512].copy_from_slice(sector);
        }
        Ok(())
    }

    fn flush(&mut self) -> Result<(), BlockError> {
        Ok(())
    }
}

fn check_request(first_lba: u64, bytes: usize) -> Result<(), BlockError> {
    if bytes == 0 || bytes % 512 != 0 {
        return Err(BlockError::InvalidRequest);
    }
    if first_lba + (bytes / 512) as u64 > 262_144 {
        return Err(BlockError::OutOfRange);
    }
    Ok(())
}

/// A file system image.
struct Ext2Fixture {
    blocks: Rc<RefCell<Blocks>>,
    next_block: u32,
    next_inode: u32,
    used_dirs: u16,
}

fn put16(bytes: &mut [u8], at: usize, value: u16) {
    bytes[at..at + 2].copy_from_slice(&value.to_le_bytes());
}

fn put32(bytes: &mut [u8], at: usize, value: u32) {
    bytes[at..at + 4].copy_from_slice(&value.to_le_bytes());
}

fn get16(bytes: &[u8], at: usize) -> u16 {
    u16::from_le_bytes([bytes[at], bytes[at + 1]])
}

fn get32(bytes: &[u8], at: usize) -> u32 {
    u32::from_le_bytes([bytes[at], bytes[at + 1], bytes[at + 2], bytes[at + 3]])
}

impl Ext2Fixture {
    fn open(&self) -> Result<MemDevice, ()> {
        Ok(MemDevice {
            blocks: self.blocks.clone(),
        })
    }

    fn block(&self, number: u32) -> Vec<u8> {
        match self.blocks.borrow().get(&u64::from(number)) {
            Some(block) => block.clone(),
            None => vec![0; BLOCK],
        }
    }

    fn change(&self, number: u32, change: impl FnOnce(&mut [u8])) {
        let mut blocks = self.blocks.borrow_mut();
        change(
            blocks
                .entry(u64::from(number))
                .or_insert_with(|| vec![0; BLOCK]),
        );
    }

    fn empty() -> Self {
        let mut image = Ext2Fixture {
            blocks: Rc::new(RefCell::new(BTreeMap::new())),
            next_block: ROOT_BLOCK + 1,
            next_inode: 11,
            used_dirs: 1,
        };
        image.change(0, |b| {
            put32(b, 1024, 4096);
            put32(b, 1024 + 4, 32768);
            put32(b, 1024 + 24, 2);
            put32(b, 1024 + 28, 2);
            put32(b, 1024 + 32, 32768);
            put32(b, 1024 + 36, 32768);
            put32(b, 1024 + 40, 4096);
            put16(b, 1024 + 56, 0xEF53);
            put16(b, 1024 + 58, 1);
            put16(b, 1024 + 60, 1);
            put32(b, 1024 + 76, 1);
            put32(b, 1024 + 84, 11);
            put16(b, 1024 + 88, 256);
            put32(b, 1024 + 96, 2);
        });
        image.change(1, |b| {
            put32(b, 0, 2);
            put32(b, 4, 3);
            put32(b, 8, INODE_TABLE as u32);
        });
        image.inode(2, 0x41ED, 4096, 2, &[ROOT_BLOCK], 0);
        image.directory(ROOT_BLOCK, 2, 2);
        image.account();
        image
    }

    /// Writes the inode with this number.
    fn inode(&mut self, number: u32, mode: u16, size: u32, links: u16, direct: &[u32], indirect: u32) {
        let at = (number as usize - 1) * 256;
        let count = direct.len() as u32;
        self.change((INODE_TABLE + at / BLOCK) as u32, |b| {
            let i = at % BLOCK;
            put16(b, i, mode);
            put32(b, i + 4, size);
            put16(b, i + 26, links);
            put32(b, i + 28, (count + u32::from(indirect != 0)) * 8);
            for (k, pointer) in direct.iter().take(12).enumerate() {
                put32(b, i + 40 + k * 4, *pointer);
            }
            put32(b, i + 88, indirect);
        });
    }

    /// Writes a directory with no entries but itself and its parent.
    fn directory(&mut self, block: u32, own: u32, parent: u32) {
        self.change(block, |b| {
            put32(b, 0, own);
            put16(b, 4, 12);
            b[6] = 1;
            b[7] = 2;
            b[8] = b'.';
            put32(b, 12, parent);
            put16(b, 16, 4084);
            b[18] = 2;
            b[19] = 2;
            b[20] = b'.';
            b[21] = b'.';
        });
    }

    /// Puts an entry behind the last one of a directory.
    fn link(&mut self, block: u32, name: &str, inode: u32, kind: u8) {
        self.change(block, |b| {
            let mut at = 0;
            while at + (get16(b, at + 4) as usize) < BLOCK {
                at += get16(b, at + 4) as usize;
            }
            let needed = (8 + b[at + 6] as usize + 3) / 4 * 4;
            put16(b, at + 4, needed as u16);
            let new = at + needed;
            put32(b, new, inode);
            put16(b, new + 4, (BLOCK - new) as u16);
            b[new + 6] = name.len() as u8;
            b[new + 7] = kind;
            b[new + 8..new + 8 + name.len()].copy_from_slice(name.as_bytes());
        });
    }

    fn take_block(&mut self) -> u32 {
        self.next_block += 1;
        self.next_block - 1
    }

    fn add_file(&mut self, parent_block: u32, name: &str, contents: &[u8]) {
        let number = self.next_inode;
        self.next_inode += 1;
        let mut data = Vec::new();
        for part in contents.chunks(BLOCK) {
            let block = self.take_block();
            self.change(block, |b| b[..part.len()].copy_from_slice(part));
            data.push(block);
        }
        let mut indirect = 0;
        if data.len() > 12 {
            indirect = self.take_block();
            let rest = data[12..].to_vec();
            self.change(indirect, |b| {
                for (k, pointer) in rest.iter().enumerate() {
                    put32(b, k * 4, *pointer);
                }
            });
        }
        self.inode(number, 0x81A4, contents.len() as u32, 1, &data, indirect);
        self.link(parent_block, name, number, 1);
        self.account();
    }

    fn add_dir(&mut self, name: &str) -> u32 {
        let number = self.next_inode;
        self.next_inode += 1;
        self.used_dirs += 1;
        let block = self.take_block();
        self.inode(number, 0x41ED, 4096, 2, &[block], 0);
        self.directory(block, number, 2);
        self.link(ROOT_BLOCK, name, number, 2);
        self.change(INODE_TABLE as u32, |b| put16(b, 256 + 26, get16(b, 256 + 26) + 1));
        self.account();
        block
    }

    /// Brings bitmaps and counts in line with what was handed out.
    fn account(&mut self) {
        let (blocks, inodes, dirs) = (self.next_block, self.next_inode - 1, self.used_dirs);
        self.change(2, |b| {
            for i in 0..blocks as usize {
                b[i / 8] |= 1 << (i % 8);
            }
        });
        self.change(3, |b| {
            for i in 0..inodes as usize {
                b[i / 8] |= 1 << (i % 8);
            }
            b[512..].fill(0xff);
        });
        self.change(0, |b| {
            put32(b, 1024 + 12, 32768 - blocks);
            put32(b, 1024 + 16, 4096 - inodes);
        });
        self.change(1, |b| {
            put16(b, 12, (32768 - blocks) as u16);
            put16(b, 14, (4096 - inodes) as u16);
            put16(b, 16, dirs);
        });
    }

    fn root_entry(&self, wanted: &str) -> usize {
        let b = self.block(ROOT_BLOCK);
        let mut at = 0;
        while at < BLOCK {
            let len = b[at + 6] as usize;
            if &b[at + 8..at + 8 + len] == wanted.as_bytes() {
                return at;
            }
            at += get16(&b, at + 4) as usize;
        }
        panic!("no such entry: {wanted}");
    }

    fn set_root_entry_inode(&mut self, name: &str, value: u32) {
        let at = self.root_entry(name);
        self.change(ROOT_BLOCK, |b| put32(b, at, value));
    }

    fn set_root_entry_file_type(&mut self, name: &str, value: u8) {
        let at = self.root_entry(name);
        self.change(ROOT_BLOCK, |b| b[at + 7] = value);
    }

    fn set_root_entry_record_length(&mut self, name: &str, value: u16) {
        let at = self.root_entry(name);
        self.change(ROOT_BLOCK, |b| put16(b, at + 4, value));
    }

    /// Where the inode of an entry of the root directory is: its block, and its place in it.
    fn named_inode(&self, name: &str) -> (u32, usize) {
        let number = get32(&self.block(ROOT_BLOCK), self.root_entry(name));
        let at = (number as usize - 1) * 256;
        ((INODE_TABLE + at / BLOCK) as u32, at % BLOCK)
    }

    fn clear_first_data_pointer(&mut self, name: &str) {
        let (block, at) = self.named_inode(name);
        self.change(block, |b| put32(b, at + 40, 0));
    }

    fn set_first_data_pointer(&mut self, name: &str, value: u32) {
        let (block, at) = self.named_inode(name);
        self.change(block, |b| put32(b, at + 40, value));
    }

    fn set_first_indirect_data_pointer(&mut self, name: &str, value: u32) {
        let (block, at) = self.named_inode(name);
        let indirect = get32(&self.block(block), at + 88);
        self.change(indirect, |b| put32(b, 0, value));
    }

    fn set_superblock_u16(&mut self, at: usize, value: u16) {
        self.change(0, |b| put16(b, 1024 + at, value));
    }

    fn set_superblock_u32(&mut self, at: usize, value: u32) {
        self.change(0, |b| put32(b, 1024 + at, value));
    }
}

fn fixture_with_files(files: &[(&str, &[u8])]) -> Result<Ext2Fixture, ()> {
    let mut image = Ext2Fixture::empty();
    for (name, contents) in files {
        image.add_file(ROOT_BLOCK, name, contents);
    }
    Ok(image)
}

fn fixture_with_directory(directory: &str, file: &str, contents: &[u8]) -> Result<Ext2Fixture, ()> {
    let mut image = Ext2Fixture::empty();
    let block = image.add_dir(directory);
    image.add_file(block, file, contents);
    Ok(image)
}

/// A device that fails one write or one flush.
struct FaultDevice<D> {
    inner: D,
    writes: Rc<Cell<usize>>,
    flushes: Rc<Cell<usize>>,
    fail_write: Option<usize>,
    fail_flush: Option<usize>,
}

impl<D> FaultDevice<D> {
    fn fail_write(inner: D, index: usize) -> Self {
        Self {
            inner,
            writes: Rc::new(Cell::new(0)),
            flushes: Rc::new(Cell::new(0)),
            fail_write: Some(index),
            fail_flush: None,
        }
    }

    fn fail_flush(inner: D, index: usize) -> Self {
        Self {
            inner,
            writes: Rc::new(Cell::new(0)),
            flushes: Rc::new(Cell::new(0)),
            fail_write: None,
            fail_flush: Some(index),
        }
    }
}

impl<D: BlockDevice> BlockDevice for FaultDevice<D> {
    fn geometry(&self) -> BlockGeometry {
        self.inner.geometry()
    }

    fn read_sectors(&mut self, first_lba: u64, dst: &mut [u8]) -> Result<(), BlockError> {
        self.inner.read_sectors(first_lba, dst)
    }

    fn write_sectors(&mut self, first_lba: u64, src: &[u8]) -> Result<(), BlockError> {
        // A mount for changes takes the first write, when it marks the file system as being
        // changed, so failing write 1 fails the first write of the change itself.
        let index = self.writes.get();
        self.writes.set(index + 1);
        if self.fail_write == Some(index) {
            return Err(BlockError::Transport);
        }
        self.inner.write_sectors(first_lba, src)
    }

    fn flush(&mut self) -> Result<(), BlockError> {
        let index = self.flushes.get();
        self.flushes.set(index + 1);
        if self.fail_flush == Some(index) {
            return Err(BlockError::Flush);
        }
        self.inner.flush()
    }
}

/// A device that keeps writes apart until they are flushed.
struct PowerCutDevice<D> {
    inner: D,
    overlay: BTreeMap<u64, Vec<u8>>,
}

impl<D> PowerCutDevice<D> {
    fn new(inner: D) -> Self {
        Self {
            inner,
            overlay: BTreeMap::new(),
        }
    }

    fn power_cut(&mut self) {
        self.overlay.clear();
    }
}

impl<D: BlockDevice> BlockDevice for PowerCutDevice<D> {
    fn geometry(&self) -> BlockGeometry {
        self.inner.geometry()
    }

    fn read_sectors(&mut self, first_lba: u64, dst: &mut [u8]) -> Result<(), BlockError> {
        let geometry = self.inner.geometry();
        validate_request(geometry, first_lba, dst.len())?;
        let sector_size = usize::try_from(geometry.logical_sector_size)
            .map_err(|_| BlockError::InvalidRequest)?;
        let sectors = dst.len() / sector_size;
        let mut assembled = Vec::new();
        assembled
            .try_reserve_exact(dst.len())
            .map_err(|_| BlockError::Transport)?;
        assembled.resize(dst.len(), 0);
        for index in 0..sectors {
            let lba = first_lba
                .checked_add(index as u64)
                .ok_or(BlockError::OutOfRange)?;
            let Some(sector) = sector_from_overlay(&self.overlay, sector_size, lba) else {
                return self.inner.read_sectors(first_lba, dst);
            };
            let start = index * sector_size;
            assembled[start..start + sector_size].copy_from_slice(sector);
        }
        dst.copy_from_slice(&assembled);
        Ok(())
    }

    fn write_sectors(&mut self, first_lba: u64, src: &[u8]) -> Result<(), BlockError> {
        validate_request(self.inner.geometry(), first_lba, src.len())?;
        self.overlay.insert(first_lba, src.to_vec());
        Ok(())
    }

    fn flush(&mut self) -> Result<(), BlockError> {
        for (first_lba, bytes) in &self.overlay {
            self.inner.write_sectors(*first_lba, bytes)?;
        }
        self.inner.flush()?;
        self.overlay.clear();
        Ok(())
    }
}

fn validate_request(
    geometry: BlockGeometry,
    first_lba: u64,
    bytes: usize,
) -> Result<(), BlockError> {
    let sector_size =
        usize::try_from(geometry.logical_sector_size).map_err(|_| BlockError::InvalidRequest)?;
    if sector_size == 0 || bytes == 0 || bytes % sector_size != 0 {
        return Err(BlockError::InvalidRequest);
    }
    let count = u64::try_from(bytes / sector_size).map_err(|_| BlockError::InvalidRequest)?;
    let end_lba = first_lba.checked_add(count).ok_or(BlockError::OutOfRange)?;
    if end_lba > geometry.sector_count {
        return Err(BlockError::OutOfRange);
    }
    Ok(())
}

fn sector_from_overlay(
    overlay: &BTreeMap<u64, Vec<u8>>,
    sector_size: usize,
    lba: u64,
) -> Option<&[u8]> {
    // The entry with the greatest starting LBA at or below the wanted sector
    // wins when entries overlap.
    let (start, bytes) = overlay.range(..=lba).next_back()?;
    let offset = usize::try_from(lba - start)
        .ok()?
        .checked_mul(sector_size)?;
    let end = offset.checked_add(sector_size)?;
    bytes.get(offset..end)
}

/// The blocks that an inode owns, its indirect block among them.
fn owned_blocks(image: &Ext2Fixture, inode: &[u8]) -> Vec<u32> {
    let mut owned = Vec::new();
    for k in 0..12 {
        owned.push(get32(inode, 40 + k * 4));
    }
    let indirect = get32(inode, 88);
    owned.push(indirect);
    assert_eq!(get32(inode, 92), 0);
    assert_eq!(get32(inode, 96), 0);
    if indirect != 0 {
        let block = image.block(indirect);
        for k in 0..1024 {
            owned.push(get32(&block, k * 4));
        }
    }
    owned.retain(|pointer| *pointer != 0);
    owned
}

fn inode_bytes(image: &Ext2Fixture, number: u32) -> Vec<u8> {
    let at = (number as usize - 1) * 256;
    image.block((INODE_TABLE + at / BLOCK) as u32)[at % BLOCK..at % BLOCK + 256].to_vec()
}

/// Every inode that is linked, by number.
fn linked_inodes(image: &Ext2Fixture) -> Vec<(u32, Vec<u8>)> {
    (2..=4096)
        .map(|number| (number, inode_bytes(image, number)))
        .filter(|(_, inode)| {
            matches!(get16(inode, 0) & 0xf000, 0x8000 | 0x4000) && get16(inode, 26) != 0
        })
        .collect()
}

fn assert_no_duplicate_blocks(image: &Ext2Fixture) -> BTreeSet<u32> {
    let mut owned = BTreeSet::new();
    for (_, inode) in linked_inodes(image) {
        for block in owned_blocks(image, &inode) {
            assert!(owned.insert(block), "duplicate block {block}");
        }
    }
    owned
}

/// Checks that bitmaps, counts and links agree with the inodes and the directories.
fn assert_consistent(image: &Ext2Fixture) {
    let mut used = assert_no_duplicate_blocks(image);
    used.extend(0..INODE_TABLE as u32 + 256);
    let bitmap = image.block(2);
    for block in 0..32768_u32 {
        let marked = bitmap[block as usize / 8] >> (block % 8) & 1 == 1;
        assert_eq!(marked, used.contains(&block), "block {block}");
    }
    let linked = linked_inodes(image);
    let numbers: BTreeSet<u32> = linked.iter().map(|(number, _)| *number).collect();
    let bitmap = image.block(3);
    for number in 1..=4096_u32 {
        let i = number as usize - 1;
        let marked = bitmap[i / 8] >> (i % 8) & 1 == 1;
        assert_eq!(marked, number <= 10 || numbers.contains(&number), "inode {number}");
    }
    let mut links: BTreeMap<u32, u16> = BTreeMap::new();
    let mut dirs = 0;
    for (_, inode) in &linked {
        if get16(inode, 0) & 0xf000 != 0x4000 {
            continue;
        }
        dirs += 1;
        for block in owned_blocks(image, inode) {
            let b = image.block(block);
            let mut at = 0;
            while at < BLOCK {
                if get32(&b, at) != 0 {
                    *links.entry(get32(&b, at)).or_insert(0) += 1;
                }
                at += get16(&b, at + 4) as usize;
            }
            assert_eq!(at, BLOCK);
        }
    }
    for (number, inode) in &linked {
        assert_eq!(links.get(number), Some(&get16(inode, 26)), "links of {number}");
        assert_eq!(
            get32(inode, 28) as usize,
            owned_blocks(image, inode).len() * 8,
            "sectors of {number}"
        );
    }
    assert_eq!(links.len(), linked.len());
    let free_blocks = 32768 - used.len() as u32;
    let free_inodes = 4096 - (9 + linked.len() as u32);
    let b = image.block(0);
    assert_eq!(get32(&b, 1024 + 12), free_blocks);
    assert_eq!(get32(&b, 1024 + 16), free_inodes);
    let b = image.block(1);
    assert_eq!(u32::from(get16(&b, 12)), free_blocks);
    assert_eq!(u32::from(get16(&b, 14)), free_inodes);
    assert_eq!(get16(&b, 16), dirs);
}

fn name(bytes: &[u8]) -> Name {
    Name::new(bytes).unwrap()
}

fn assert_clean_state(image: &Ext2Fixture) {
    let mut device = image.open().unwrap();
    let mut superblock = [0; 1024];
    device.read_sectors(2, &mut superblock).unwrap();
    assert_eq!(u16::from_le_bytes([superblock[58], superblock[59]]), 1);
    let raw = image.block(0);
    assert_eq!(u16::from_le_bytes([raw[1082], raw[1083]]), 1);
}

#[test]
fn unmount_marks_clean_and_blocks_later_mutation() {
    let image = fixture_with_files(&[]).unwrap();
    let mut fs = Ext2::mount(image.open().unwrap(), MountMode::ReadWrite).unwrap();
    fs.create_file(fs.root(), &name(b"a")).unwrap();

    fs.unmount().unwrap();

    assert_eq!(fs.health(), MountHealth::Unmounted);
    assert_eq!(
        fs.create_file(fs.root(), &name(b"b")),
        Err(Ext2Error::WriteDisabled)
    );
}

#[test]
fn every_write_fault_poisons_without_panic() {
    let setup = || fixture_with_files(&[]).unwrap();
    let (measured, _) = footprint(&setup, run_create_file);
    let mut saw_fault = false;
    let mut saw_success = false;
    for index in 0..measured + WRITE_MARGIN {
        let image = setup();
        let device = FaultDevice::fail_write(image.open().unwrap(), index);
        let Ok(mut fs) = Ext2::mount(device, MountMode::ReadWrite) else {
            continue;
        };
        let result = run_create_file(&mut fs);
        if result.is_err() {
            assert_eq!(fs.health(), MountHealth::WriteFailed);
            assert_eq!(
                fs.create_file(fs.root(), &name(b"b")),
                Err(Ext2Error::WriteDisabled)
            );
            saw_fault = true;
        } else {
            assert_eq!(fs.health(), MountHealth::Writable);
            saw_success = true;
        }
    }
    assert!(saw_fault);
    assert!(saw_success);
}

// Sweep bounds derive from measured unfaulted footprints (mount + op)
// plus a small margin; saw_fault/saw_success guards fail loudly if a
// bound no longer spans the full footprint.
const WRITE_MARGIN: usize = 4;
const FLUSH_MARGIN: usize = 4;

struct Probe<D> {
    inner: D,
    writes: Rc<Cell<usize>>,
    flushes: Rc<Cell<usize>>,
}

impl<D: BlockDevice> BlockDevice for Probe<D> {
    fn geometry(&self) -> BlockGeometry {
        self.inner.geometry()
    }

    fn read_sectors(&mut self, first_lba: u64, dst: &mut [u8]) -> Result<(), BlockError> {
        self.inner.read_sectors(first_lba, dst)
    }

    fn write_sectors(&mut self, first_lba: u64, src: &[u8]) -> Result<(), BlockError> {
        self.writes.set(self.writes.get() + 1);
        self.inner.write_sectors(first_lba, src)
    }

    fn flush(&mut self) -> Result<(), BlockError> {
        self.flushes.set(self.flushes.get() + 1);
        self.inner.flush()
    }
}

fn footprint(
    setup: &impl Fn() -> Ext2Fixture,
    run: fn(&mut Ext2<Probe<MemDevice>>) -> Result<(), Ext2Error>,
) -> (usize, usize) {
    let image = setup();
    let probe = Probe {
        inner: image.open().unwrap(),
        writes: Rc::new(Cell::new(0)),
        flushes: Rc::new(Cell::new(0)),
    };
    let writes = probe.writes.clone();
    let flushes = probe.flushes.clone();
    let mut fs = Ext2::mount(probe, MountMode::ReadWrite).unwrap();
    run(&mut fs).unwrap();
    (writes.get(), flushes.get())
}

fn check_write_sweep(
    setup: impl Fn() -> Ext2Fixture,
    run: fn(&mut Ext2<FaultDevice<MemDevice>>) -> Result<(), Ext2Error>,
    bound: usize,
) {
    let mut saw_fault = false;
    let mut saw_success = false;
    for index in 0..bound {
        let image = setup();
        let device = FaultDevice::fail_write(image.open().unwrap(), index);
        let Ok(mut fs) = Ext2::mount(device, MountMode::ReadWrite) else {
            continue;
        };
        if run(&mut fs).is_err() {
            assert_eq!(fs.health(), MountHealth::WriteFailed);
            assert_eq!(
                fs.create_file(fs.root(), &name(b"z")),
                Err(Ext2Error::WriteDisabled)
            );
            saw_fault = true;
        } else {
            assert_eq!(fs.health(), MountHealth::Writable);
            saw_success = true;
        }
    }
    assert!(saw_fault);
    assert!(saw_success);
}

fn check_flush_sweep(
    setup: impl Fn() -> Ext2Fixture,
    run: fn(&mut Ext2<FaultDevice<MemDevice>>) -> Result<(), Ext2Error>,
    bound: usize,
) {
    let mut saw_fault = false;
    let mut saw_success = false;
    for index in 0..bound {
        let image = setup();
        let device = FaultDevice::fail_flush(image.open().unwrap(), index);
        let Ok(mut fs) = Ext2::mount(device, MountMode::ReadWrite) else {
            continue;
        };
        if run(&mut fs).is_err() {
            assert_eq!(fs.health(), MountHealth::WriteFailed);
            assert_eq!(
                fs.create_file(fs.root(), &name(b"z")),
                Err(Ext2Error::WriteDisabled)
            );
            saw_fault = true;
        } else {
            assert_eq!(fs.health(), MountHealth::Writable);
            saw_success = true;
        }
    }
    assert!(saw_fault);
    assert!(saw_success);
}

fn two_block_contents() -> Vec<u8> {
    (0..5000).map(|index| index as u8).collect()
}

fn two_block_grow() -> Vec<u8> {
    (0..8192).map(|index| index as u8).collect()
}

fn run_create_file<D: BlockDevice>(fs: &mut Ext2<D>) -> Result<(), Ext2Error> {
    fs.create_file(fs.root(), &name(b"a")).map(|_| ())
}

fn run_write_at_grow<D: BlockDevice>(fs: &mut Ext2<D>) -> Result<(), Ext2Error> {
    let node = fs.lookup(fs.root(), &name(b"f")).unwrap();
    fs.write_at(node, 0, &two_block_grow())
}

fn run_truncate_grow<D: BlockDevice>(fs: &mut Ext2<D>) -> Result<(), Ext2Error> {
    let node = fs.lookup(fs.root(), &name(b"f")).unwrap();
    fs.truncate(node, 8192)
}

fn run_truncate_shrink<D: BlockDevice>(fs: &mut Ext2<D>) -> Result<(), Ext2Error> {
    let node = fs.lookup(fs.root(), &name(b"f")).unwrap();
    fs.truncate(node, 0)
}

fn run_unlink_file<D: BlockDevice>(fs: &mut Ext2<D>) -> Result<(), Ext2Error> {
    fs.unlink_file(fs.root(), &name(b"f"))
}

fn run_create_dir<D: BlockDevice>(fs: &mut Ext2<D>) -> Result<(), Ext2Error> {
    fs.create_dir(fs.root(), &name(b"d")).map(|_| ())
}

fn run_remove_dir<D: BlockDevice>(fs: &mut Ext2<D>) -> Result<(), Ext2Error> {
    fs.remove_dir(fs.root(), &name(b"d"))
}

fn setup_empty_file() -> Ext2Fixture {
    let image = fixture_with_files(&[]).unwrap();
    let mut fs = Ext2::mount(image.open().unwrap(), MountMode::ReadWrite).unwrap();
    fs.create_file(fs.root(), &name(b"f")).unwrap();
    fs.unmount().unwrap();
    image
}

fn setup_empty_dir() -> Ext2Fixture {
    let image = fixture_with_files(&[]).unwrap();
    let mut fs = Ext2::mount(image.open().unwrap(), MountMode::ReadWrite).unwrap();
    fs.create_dir(fs.root(), &name(b"d")).unwrap();
    fs.unmount().unwrap();
    image
}

#[test]
fn sweep_create_file_poisons() {
    let setup = || fixture_with_files(&[]).unwrap();
    let (writes, flushes) = footprint(&setup, run_create_file);
    check_write_sweep(setup, run_create_file, writes + WRITE_MARGIN);
    let setup = || fixture_with_files(&[]).unwrap();
    check_flush_sweep(setup, run_create_file, flushes + FLUSH_MARGIN);
}

#[test]
fn sweep_write_at_poisons() {
    let (writes, flushes) = footprint(&setup_empty_file, run_write_at_grow);
    check_write_sweep(setup_empty_file, run_write_at_grow, writes + WRITE_MARGIN);
    check_flush_sweep(setup_empty_file, run_write_at_grow, flushes + FLUSH_MARGIN);
}

#[test]
fn sweep_truncate_poisons() {
    let (grow_writes, grow_flushes) = footprint(&setup_empty_file, run_truncate_grow);
    check_write_sweep(
        setup_empty_file,
        run_truncate_grow,
        grow_writes + WRITE_MARGIN,
    );
    check_flush_sweep(
        setup_empty_file,
        run_truncate_grow,
        grow_flushes + FLUSH_MARGIN,
    );
    let contents = two_block_contents();
    let setup = move || fixture_with_files(&[("f", &contents)]).unwrap();
    let (shrink_writes, shrink_flushes) = footprint(&setup, run_truncate_shrink);
    check_write_sweep(setup, run_truncate_shrink, shrink_writes + WRITE_MARGIN);
    let contents = two_block_contents();
    let setup = move || fixture_with_files(&[("f", &contents)]).unwrap();
    check_flush_sweep(setup, run_truncate_shrink, shrink_flushes + FLUSH_MARGIN);
}

#[test]
fn sweep_unlink_file_poisons() {
    let contents = two_block_contents();
    let setup = move || fixture_with_files(&[("f", &contents)]).unwrap();
    let (writes, flushes) = footprint(&setup, run_unlink_file);
    check_write_sweep(setup, run_unlink_file, writes + WRITE_MARGIN);
    let contents = two_block_contents();
    let setup = move || fixture_with_files(&[("f", &contents)]).unwrap();
    check_flush_sweep(setup, run_unlink_file, flushes + FLUSH_MARGIN);
}

#[test]
fn sweep_create_dir_poisons() {
    let setup = || fixture_with_files(&[]).unwrap();
    let (writes, flushes) = footprint(&setup, run_create_dir);
    check_write_sweep(setup, run_create_dir, writes + WRITE_MARGIN);
    let setup = || fixture_with_files(&[]).unwrap();
    check_flush_sweep(setup, run_create_dir, flushes + FLUSH_MARGIN);
}

#[test]
fn sweep_remove_dir_poisons() {
    let (writes, flushes) = footprint(&setup_empty_dir, run_remove_dir);
    check_write_sweep(setup_empty_dir, run_remove_dir, writes + WRITE_MARGIN);
    check_flush_sweep(setup_empty_dir, run_remove_dir, flushes + FLUSH_MARGIN);
}

#[test]
fn sync_requires_writable_and_preserves_health() {
    let image = fixture_with_files(&[]).unwrap();
    let mut fs = Ext2::mount(image.open().unwrap(), MountMode::ReadOnly).unwrap();
    assert_eq!(fs.sync(), Err(Ext2Error::ReadOnly));

    let image = fixture_with_files(&[]).unwrap();
    let mut fs = Ext2::mount(image.open().unwrap(), MountMode::ReadWrite).unwrap();
    fs.sync().unwrap();
    assert_eq!(fs.health(), MountHealth::Writable);
    fs.unmount().unwrap();
    assert_eq!(fs.sync(), Err(Ext2Error::WriteDisabled));
}

#[test]
fn unmount_marks_clean_state_and_disables_reads() {
    let image = fixture_with_files(&[]).unwrap();
    let mut fs = Ext2::mount(image.open().unwrap(), MountMode::ReadWrite).unwrap();
    fs.create_file(fs.root(), &name(b"a")).unwrap();
    fs.sync().unwrap();
    fs.unmount().unwrap();

    assert_clean_state(&image);
    assert_eq!(fs.health(), MountHealth::Unmounted);
    assert_eq!(fs.read_dir(fs.root()), Err(Ext2Error::WriteDisabled));
    let mut byte = [0; 1];
    assert_eq!(
        fs.read_at(fs.root(), 0, &mut byte),
        Err(Ext2Error::WriteDisabled)
    );
    assert_eq!(fs.sync(), Err(Ext2Error::WriteDisabled));
    assert_eq!(
        fs.create_file(fs.root(), &name(b"b")),
        Err(Ext2Error::WriteDisabled)
    );
}

#[test]
fn power_cut_overlay_discards_unflushed_sectors() {
    let image = fixture_with_files(&[]).unwrap();
    let mut overlay = PowerCutDevice::new(image.open().unwrap());
    let mut original = [0; 512];
    overlay.read_sectors(100, &mut original).unwrap();

    let pattern = [0xA5; 512];
    overlay.write_sectors(100, &pattern).unwrap();

    // The inner media still holds the original bytes: unflushed overlay
    // writes are invisible to a direct reader.
    let mut inner = [0; 512];
    image.open().unwrap().read_sectors(100, &mut inner).unwrap();
    assert_eq!(inner, original);
    // ...but visible through the overlay itself.
    let mut shadowed = [0; 512];
    overlay.read_sectors(100, &mut shadowed).unwrap();
    assert_eq!(shadowed, pattern);

    overlay.power_cut();

    let mut after_cut = [0; 512];
    overlay.read_sectors(100, &mut after_cut).unwrap();
    assert_eq!(after_cut, original);
    let mut inner_after_cut = [0; 512];
    image
        .open()
        .unwrap()
        .read_sectors(100, &mut inner_after_cut)
        .unwrap();
    assert_eq!(inner_after_cut, original);

    // Write + flush persists to the inner media.
    overlay.write_sectors(100, &pattern).unwrap();
    overlay.flush().unwrap();
    let mut persisted = [0; 512];
    image
        .open()
        .unwrap()
        .read_sectors(100, &mut persisted)
        .unwrap();
    assert_eq!(persisted, pattern);
}

#[test]
fn failed_read_does_not_poison_mutation() {
    struct FailSecondRead<D> {
        inner: D,
        reads_after_arm: Rc<Cell<usize>>,
    }
    impl<D: BlockDevice> BlockDevice for FailSecondRead<D> {
        fn geometry(&self) -> BlockGeometry {
            self.inner.geometry()
        }
        fn read_sectors(&mut self, first_lba: u64, dst: &mut [u8]) -> Result<(), BlockError> {
            let n = self.reads_after_arm.get();
            // Before arming the counter is usize::MAX (pass-through).
            if n != usize::MAX {
                self.reads_after_arm.set(n + 1);
                // write_at does inode::load (1 read) then read_indirect
                // via read_data_block; fail exactly the indirect read.
                if n == 1 {
                    return Err(BlockError::Transport);
                }
            }
            self.inner.read_sectors(first_lba, dst)
        }
        fn write_sectors(&mut self, first_lba: u64, src: &[u8]) -> Result<(), BlockError> {
            self.inner.write_sectors(first_lba, src)
        }
        fn flush(&mut self) -> Result<(), BlockError> {
            self.inner.flush()
        }
    }
    // Overwrite inside the indirect region of a 13-block file: the second
    // mutation read is the indirect block via read_data_block, before any
    // writes. Failing exactly that read must not poison the mount (M3).
    let contents = vec![0xAB; 13 * 4096];
    let image = fixture_with_files(&[("big", &contents)]).unwrap();
    let reads_after_arm = Rc::new(Cell::new(usize::MAX));
    let device = FailSecondRead {
        inner: image.open().unwrap(),
        reads_after_arm: reads_after_arm.clone(),
    };
    let mut fs = Ext2::mount(device, MountMode::ReadWrite).unwrap();
    let node = fs.lookup(fs.root(), &name(b"big")).unwrap();
    reads_after_arm.set(0);
    let result = fs.write_at(node, 12 * 4096, b"x");
    assert!(result.is_err());
    assert_eq!(fs.health(), MountHealth::Writable);
    // Later mutation must still be allowed.
    fs.create_file(fs.root(), &name(b"still-ok")).unwrap();
}

#[test]
fn no_fault_leaves_a_block_with_two_owners() {
    let (writes, _) = footprint(&setup_empty_file, run_write_at_grow);
    for index in 1..writes + WRITE_MARGIN {
        let image = setup_empty_file();
        let device = FaultDevice::fail_write(image.open().unwrap(), index);
        let mut fs = Ext2::mount(device, MountMode::ReadWrite).unwrap();
        let _ = run_write_at_grow(&mut fs);
        drop(fs);
        assert_no_duplicate_blocks(&image);
    }
}

#[test]
fn changes_are_durable_when_they_return() {
    let image = fixture_with_files(&[("gone", b"g")]).unwrap();
    let shared = Rc::new(RefCell::new(PowerCutDevice::new(image.open().unwrap())));
    let mut fs = Ext2::mount(SharedCut(shared.clone()), MountMode::ReadWrite).unwrap();
    let node = fs.create_file(fs.root(), &name(b"kept")).unwrap();
    fs.write_at(node, 0, &two_block_contents()).unwrap();
    fs.create_dir(fs.root(), &name(b"docs")).unwrap();
    fs.unlink_file(fs.root(), &name(b"gone")).unwrap();
    shared.borrow_mut().power_cut();
    drop(fs);

    assert_consistent(&image);
    let mut fs = Ext2::mount(image.open().unwrap(), MountMode::ReadOnly).unwrap();
    assert_eq!(fs.lookup(fs.root(), &name(b"kept")), Ok(node));
    let mut bytes = vec![0; 5000];
    assert_eq!(fs.read_at(node, 0, &mut bytes), Ok(5000));
    assert_eq!(bytes, two_block_contents());
    assert!(fs.lookup(fs.root(), &name(b"docs")).is_ok());
    assert_eq!(
        fs.lookup(fs.root(), &name(b"gone")),
        Err(Ext2Error::NotFound)
    );
}

struct SharedCut(Rc<RefCell<PowerCutDevice<MemDevice>>>);

impl BlockDevice for SharedCut {
    fn geometry(&self) -> BlockGeometry {
        self.0.borrow().geometry()
    }

    fn read_sectors(&mut self, first_lba: u64, dst: &mut [u8]) -> Result<(), BlockError> {
        self.0.borrow_mut().read_sectors(first_lba, dst)
    }

    fn write_sectors(&mut self, first_lba: u64, src: &[u8]) -> Result<(), BlockError> {
        self.0.borrow_mut().write_sectors(first_lba, src)
    }

    fn flush(&mut self) -> Result<(), BlockError> {
        self.0.borrow_mut().flush()
    }
}

#[test]
fn mixed_changes_leave_a_consistent_image() {
    let image = fixture_with_files(&[("gone", &two_block_contents())]).unwrap();
    let mut fs = Ext2::mount(image.open().unwrap(), MountMode::ReadWrite).unwrap();
    let hello = fs.create_file(fs.root(), &name(b"hello")).unwrap();
    fs.write_at(hello, 0, b"relay os").unwrap();
    let temp = fs.create_dir(fs.root(), &name(b"temp")).unwrap();
    let inner = fs.create_file(temp, &name(b"inner")).unwrap();
    fs.write_at(inner, 0, b"scratch").unwrap();
    fs.truncate(hello, 5).unwrap();
    fs.unlink_file(temp, &name(b"inner")).unwrap();
    fs.remove_dir(fs.root(), &name(b"temp")).unwrap();
    fs.unlink_file(fs.root(), &name(b"gone")).unwrap();
    fs.unmount().unwrap();

    assert_clean_state(&image);
    assert_consistent(&image);
    let mut fs = Ext2::mount(image.open().unwrap(), MountMode::ReadOnly).unwrap();
    let entries = fs.read_dir(fs.root()).unwrap();
    assert_eq!(entries.len(), 1);
    let mut bytes = [0; 5];
    assert_eq!(fs.read_at(entries[0].node, 0, &mut bytes), Ok(5));
    assert_eq!(&bytes, b"relay");
}

#[test]
fn a_failed_read_of_the_device_is_reported() {
    struct Dead;
    impl BlockDevice for Dead {
        fn geometry(&self) -> BlockGeometry {
            BlockGeometry {
                logical_sector_size: 512,
                sector_count: 262_144,
            }
        }
        fn read_sectors(&mut self, _: u64, _: &mut [u8]) -> Result<(), BlockError> {
            Err(BlockError::Transport)
        }
        fn write_sectors(&mut self, _: u64, _: &[u8]) -> Result<(), BlockError> {
            Err(BlockError::Transport)
        }
        fn flush(&mut self) -> Result<(), BlockError> {
            Err(BlockError::Flush)
        }
    }
    assert_eq!(
        Ext2::mount(Dead, MountMode::ReadOnly).err(),
        Some(Ext2Error::Block(BlockError::Transport))
    );
}

/// The names in the root, as a fresh mount reads them.
fn root_names(image: &Ext2Fixture) -> Vec<Vec<u8>> {
    let mut fs = Ext2::mount(image.open().unwrap(), MountMode::ReadOnly).unwrap();
    fs.read_dir(fs.root())
        .unwrap()
        .iter()
        .map(|entry| entry.name.as_bytes().to_vec())
        .collect()
}

/// The content of a file in the root, as a fresh mount reads it.
fn root_file(image: &Ext2Fixture, wanted: &[u8]) -> Vec<u8> {
    let mut fs = Ext2::mount(image.open().unwrap(), MountMode::ReadOnly).unwrap();
    let node = fs.lookup(fs.root(), &name(wanted)).unwrap();
    let mut bytes = vec![0; 65536];
    let read = fs.read_at(node, 0, &mut bytes).unwrap();
    bytes.truncate(read);
    bytes
}

/// Cuts a change short at each of its writes, and looks at what it leaves.
fn at_every_cut(
    setup: impl Fn() -> Ext2Fixture,
    run: fn(&mut Ext2<FaultDevice<MemDevice>>) -> Result<(), Ext2Error>,
    look: impl Fn(&Ext2Fixture, bool),
) {
    let mut index = 1;
    loop {
        let image = setup();
        let device = FaultDevice::fail_write(image.open().unwrap(), index);
        let mut fs = Ext2::mount(device, MountMode::ReadWrite).unwrap();
        let done = run(&mut fs).is_ok();
        drop(fs);
        assert_no_duplicate_blocks(&image);
        look(&image, done);
        if done {
            break;
        }
        index += 1;
    }
    assert!(index > 3);
}

fn bystander() -> Vec<u8> {
    (0..3000).map(|index| (index % 7) as u8).collect()
}

#[test]
fn an_interrupted_creation_is_done_or_not() {
    let setup = || fixture_with_files(&[("other", &bystander())]).unwrap();
    for run in [run_create_file, run_create_dir] {
        at_every_cut(setup, run, |image, done| {
            let names = root_names(image);
            assert_eq!(names[0], b"other");
            assert_eq!(names.len(), if done { 2 } else { 1 });
            assert_eq!(root_file(image, b"other"), bystander());
        });
    }
}

#[test]
fn an_interrupted_creation_in_a_full_directory_is_done_or_not() {
    // Fifteen names of 255 bytes fill a block, so that the directory has to grow.
    let setup = || {
        let image = fixture_with_files(&[]).unwrap();
        let mut fs = Ext2::mount(image.open().unwrap(), MountMode::ReadWrite).unwrap();
        for index in 0..15u8 {
            let mut long = [b'x'; 255];
            long[0] = b'a' + index;
            fs.create_file(fs.root(), &name(&long)).unwrap();
        }
        fs.unmount().unwrap();
        image
    };
    fn run(fs: &mut Ext2<FaultDevice<MemDevice>>) -> Result<(), Ext2Error> {
        fs.create_file(fs.root(), &name(&[b'z'; 255])).map(|_| ())
    }
    at_every_cut(setup, run, |image, done| {
        assert_eq!(root_names(image).len(), if done { 16 } else { 15 });
    });
}

#[test]
fn an_interrupted_removal_is_done_or_not() {
    let setup = || fixture_with_files(&[("f", &two_block_contents()), ("other", &bystander())]).unwrap();
    at_every_cut(setup, run_unlink_file, |image, done| {
        let names = root_names(image);
        if names.len() == 2 {
            assert!(!done);
            assert_eq!(root_file(image, b"f"), two_block_contents());
        } else {
            assert_eq!(names, vec![b"other".to_vec()]);
        }
        assert_eq!(root_file(image, b"other"), bystander());
    });
    at_every_cut(setup_empty_dir, run_remove_dir, |image, done| {
        assert!(root_names(image).is_empty() || !done);
    });
}

#[test]
fn an_interrupted_write_leaves_each_byte_old_or_new() {
    let old: Vec<u8> = vec![0xAA; 5000];
    let setup = || fixture_with_files(&[("f", &old), ("other", &bystander())]).unwrap();
    at_every_cut(setup, run_write_at_grow, |image, done| {
        let now = root_file(image, b"f");
        let new = two_block_grow();
        if done {
            assert_eq!(now, new);
        } else {
            assert_eq!(now.len(), 5000);
            for (index, byte) in now.iter().enumerate() {
                assert!(*byte == 0xAA || *byte == new[index]);
            }
        }
        assert_eq!(root_file(image, b"other"), bystander());
    });
}

#[test]
fn an_interrupted_truncation_keeps_what_both_lengths_reach() {
    fn shorter(fs: &mut Ext2<FaultDevice<MemDevice>>) -> Result<(), Ext2Error> {
        let node = fs.lookup(fs.root(), &name(b"f")).unwrap();
        fs.truncate(node, 100)
    }
    fn longer(fs: &mut Ext2<FaultDevice<MemDevice>>) -> Result<(), Ext2Error> {
        let node = fs.lookup(fs.root(), &name(b"f")).unwrap();
        fs.truncate(node, 60000)
    }
    let setup = || fixture_with_files(&[("f", &two_block_contents())]).unwrap();
    at_every_cut(setup, shorter, |image, done| {
        let now = root_file(image, b"f");
        assert!(now.len() == 100 || now.len() == 5000 && !done);
        assert_eq!(now, two_block_contents()[..now.len()]);
    });
    at_every_cut(setup, longer, |image, done| {
        let now = root_file(image, b"f");
        assert!(now.len() == 60000 || now.len() == 5000 && !done);
        assert_eq!(&now[..5000], &two_block_contents()[..]);
        assert!(now.iter().skip(8192).all(|byte| *byte == 0));
    });
}
