#![allow(dead_code)]

use relay_core::block::{BlockDevice, BlockError, BlockGeometry};
use relay_core::ext2::{Ext2, Ext2Error, MountMode};
use relay_core::fs::{Name, NodeKind};
use std::cell::RefCell;
use std::collections::{BTreeMap, BTreeSet};
use std::rc::Rc;

const BLOCK: usize = 4096;
const INODE_TABLE: usize = 4;
const ROOT_BLOCK: u32 = 260;

type Blocks = BTreeMap<u64, Vec<u8>>;

/// A disk in memory that several devices share.
#[derive(Clone)]
struct MemDevice {
    blocks: Rc<RefCell<Blocks>>,
}

impl BlockDevice for MemDevice {
    fn geometry(&self) -> BlockGeometry {
        BlockGeometry {
            logical_sector_size: 512,
            sector_count: 262_144,
        }
    }

    fn read_sectors(&mut self, first_lba: u64, dst: &mut [u8]) -> Result<(), BlockError> {
        check_request(first_lba, dst.len())?;
        for (index, sector) in dst.chunks_mut(512).enumerate() {
            let lba = first_lba + index as u64;
            let at = (lba % 8) as usize * 512;
            match self.blocks.borrow().get(&(lba / 8)) {
                Some(block) => sector.copy_from_slice(&block[at..at + 512]),
                None => sector.fill(0),
            }
        }
        Ok(())
    }

    fn write_sectors(&mut self, first_lba: u64, src: &[u8]) -> Result<(), BlockError> {
        check_request(first_lba, src.len())?;
        for (index, sector) in src.chunks(512).enumerate() {
            let lba = first_lba + index as u64;
            let at = (lba % 8) as usize * 512;
            let mut blocks = self.blocks.borrow_mut();
            let block = blocks.entry(lba / 8).or_insert_with(|| vec![0; BLOCK]);
            block[at..at + 512].copy_from_slice(sector);
        }
        Ok(())
    }

    fn flush(&mut self) -> Result<(), BlockError> {
        Ok(())
    }
}

fn check_request(first_lba: u64, bytes: usize) -> Result<(), BlockError> {
    if bytes == 0 || bytes % 512 != 0 {
        return Err(BlockError::InvalidRequest);
    }
    if first_lba + (bytes / 512) as u64 > 262_144 {
        return Err(BlockError::OutOfRange);
    }
    Ok(())
}

/// A file system image.
struct Ext2Fixture {
    blocks: Rc<RefCell<Blocks>>,
    next_block: u32,
    next_inode: u32,
    used_dirs: u16,
}

fn put16(bytes: &mut [u8], at: usize, value: u16) {
    bytes[at..at + 2].copy_from_slice(&value.to_le_bytes());
}

fn put32(bytes: &mut [u8], at: usize, value: u32) {
    bytes[at..at + 4].copy_from_slice(&value.to_le_bytes());
}

fn get16(bytes: &[u8], at: usize) -> u16 {
    u16::from_le_bytes([bytes[at], bytes[at + 1]])
}

fn get32(bytes: &[u8], at: usize) -> u32 {
    u32::from_le_bytes([bytes[at], bytes[at + 1], bytes[at + 2], bytes[at + 3]])
}

impl Ext2Fixture {
    fn open(&self) -> Result<MemDevice, ()> {
        Ok(MemDevice {
            blocks: self.blocks.clone(),
        })
    }

    fn block(&self, number: u32) -> Vec<u8> {
        match self.blocks.borrow().get(&u64::from(number)) {
            Some(block) => block.clone(),
            None => vec![0; BLOCK],
        }
    }

    fn change(&self, number: u32, change: impl FnOnce(&mut [u8])) {
        let mut blocks = self.blocks.borrow_mut();
        change(
            blocks
                .entry(u64::from(number))
                .or_insert_with(|| vec![0; BLOCK]),
        );
    }

    fn empty() -> Self {
        let mut image = Ext2Fixture {
            blocks: Rc::new(RefCell::new(BTreeMap::new())),
            next_block: ROOT_BLOCK + 1,
            next_inode: 11,
            used_dirs: 1,
        };
        image.change(0, |b| {
            put32(b, 1024, 4096);
            put32(b, 1024 + 4, 32768);
            put32(b, 1024 + 24, 2);
            put32(b, 1024 + 28, 2);
            put32(b, 1024 + 32, 32768);
            put32(b, 1024 + 36, 32768);
            put32(b, 1024 + 40, 4096);
            put16(b, 1024 + 56, 0xEF53);
            put16(b, 1024 + 58, 1);
            put16(b, 1024 + 60, 1);
            put32(b, 1024 + 76, 1);
            put32(b, 1024 + 84, 11);
            put16(b, 1024 + 88, 256);
            put32(b, 1024 + 96, 2);
        });
        image.change(1, |b| {
            put32(b, 0, 2);
            put32(b, 4, 3);
            put32(b, 8, INODE_TABLE as u32);
        });
        image.inode(2, 0x41ED, 4096, 2, &[ROOT_BLOCK], 0);
        image.directory(ROOT_BLOCK, 2, 2);
        image.account();
        image
    }

    /// Writes the inode with this number.
    fn inode(&mut self, number: u32, mode: u16, size: u32, links: u16, direct: &[u32], indirect: u32) {
        let at = (number as usize - 1) * 256;
        let count = direct.len() as u32;
        self.change((INODE_TABLE + at / BLOCK) as u32, |b| {
            let i = at % BLOCK;
            put16(b, i, mode);
            put32(b, i + 4, size);
            put16(b, i + 26, links);
            put32(b, i + 28, (count + u32::from(indirect != 0)) * 8);
            for (k, pointer) in direct.iter().take(12).enumerate() {
                put32(b, i + 40 + k * 4, *pointer);
            }
            put32(b, i + 88, indirect);
        });
    }

    /// Writes a directory with no entries but itself and its parent.
    fn directory(&mut self, block: u32, own: u32, parent: u32) {
        self.change(block, |b| {
            put32(b, 0, own);
            put16(b, 4, 12);
            b[6] = 1;
            b[7] = 2;
            b[8] = b'.';
            put32(b, 12, parent);
            put16(b, 16, 4084);
            b[18] = 2;
            b[19] = 2;
            b[20] = b'.';
            b[21] = b'.';
        });
    }

    /// Puts an entry behind the last one of a directory.
    fn link(&mut self, block: u32, name: &str, inode: u32, kind: u8) {
        self.change(block, |b| {
            let mut at = 0;
            while at + (get16(b, at + 4) as usize) < BLOCK {
                at += get16(b, at + 4) as usize;
            }
            let needed = (8 + b[at + 6] as usize + 3) / 4 * 4;
            put16(b, at + 4, needed as u16);
            let new = at + needed;
            put32(b, new, inode);
            put16(b, new + 4, (BLOCK - new) as u16);
            b[new + 6] = name.len() as u8;
            b[new + 7] = kind;
            b[new + 8..new + 8 + name.len()].copy_from_slice(name.as_bytes());
        });
    }

    fn take_block(&mut self) -> u32 {
        self.next_block += 1;
        self.next_block - 1
    }

    fn add_file(&mut self, parent_block: u32, name: &str, contents: &[u8]) {
        let number = self.next_inode;
        self.next_inode += 1;
        let mut data = Vec::new();
        for part in contents.chunks(BLOCK) {
            let block = self.take_block();
            self.change(block, |b| b[..part.len()].copy_from_slice(part));
            data.push(block);
        }
        let mut indirect = 0;
        if data.len() > 12 {
            indirect = self.take_block();
            let rest = data[12..].to_vec();
            self.change(indirect, |b| {
                for (k, pointer) in rest.iter().enumerate() {
                    put32(b, k * 4, *pointer);
                }
            });
        }
        self.inode(number, 0x81A4, contents.len() as u32, 1, &data, indirect);
        self.link(parent_block, name, number, 1);
        self.account();
    }

    fn add_dir(&mut self, name: &str) -> u32 {
        let number = self.next_inode;
        self.next_inode += 1;
        self.used_dirs += 1;
        let block = self.take_block();
        self.inode(number, 0x41ED, 4096, 2, &[block], 0);
        self.directory(block, number, 2);
        self.link(ROOT_BLOCK, name, number, 2);
        self.change(INODE_TABLE as u32, |b| put16(b, 256 + 26, get16(b, 256 + 26) + 1));
        self.account();
        block
    }

    /// Brings bitmaps and counts in line with what was handed out.
    fn account(&mut self) {
        let (blocks, inodes, dirs) = (self.next_block, self.next_inode - 1, self.used_dirs);
        self.change(2, |b| {
            for i in 0..blocks as usize {
                b[i / 8] |= 1 << (i % 8);
            }
        });
        self.change(3, |b| {
            for i in 0..inodes as usize {
                b[i / 8] |= 1 << (i % 8);
            }
            b[512..].fill(0xff);
        });
        self.change(0, |b| {
            put32(b, 1024 + 12, 32768 - blocks);
            put32(b, 1024 + 16, 4096 - inodes);
        });
        self.change(1, |b| {
            put16(b, 12, (32768 - blocks) as u16);
            put16(b, 14, (4096 - inodes) as u16);
            put16(b, 16, dirs);
        });
    }

    fn root_entry(&self, wanted: &str) -> usize {
        let b = self.block(ROOT_BLOCK);
        let mut at = 0;
        while at < BLOCK {
            let len = b[at + 6] as usize;
            if &b[at + 8..at + 8 + len] == wanted.as_bytes() {
                return at;
            }
            at += get16(&b, at + 4) as usize;
        }
        panic!("no such entry: {wanted}");
    }

    fn set_root_entry_inode(&mut self, name: &str, value: u32) {
        let at = self.root_entry(name);
        self.change(ROOT_BLOCK, |b| put32(b, at, value));
    }

    fn set_root_entry_file_type(&mut self, name: &str, value: u8) {
        let at = self.root_entry(name);
        self.change(ROOT_BLOCK, |b| b[at + 7] = value);
    }

    fn set_root_entry_record_length(&mut self, name: &str, value: u16) {
        let at = self.root_entry(name);
        self.change(ROOT_BLOCK, |b| put16(b, at + 4, value));
    }

    /// Where the inode of an entry of the root directory is: its block, and its place in it.
    fn named_inode(&self, name: &str) -> (u32, usize) {
        let number = get32(&self.block(ROOT_BLOCK), self.root_entry(name));
        let at = (number as usize - 1) * 256;
        ((INODE_TABLE + at / BLOCK) as u32, at % BLOCK)
    }

    fn clear_first_data_pointer(&mut self, name: &str) {
        let (block, at) = self.named_inode(name);
        self.change(block, |b| put32(b, at + 40, 0));
    }

    fn set_first_data_pointer(&mut self, name: &str, value: u32) {
        let (block, at) = self.named_inode(name);
        self.change(block, |b| put32(b, at + 40, value));
    }

    fn set_first_indirect_data_pointer(&mut self, name: &str, value: u32) {
        let (block, at) = self.named_inode(name);
        let indirect = get32(&self.block(block), at + 88);
        self.change(indirect, |b| put32(b, 0, value));
    }

    fn set_superblock_u16(&mut self, at: usize, value: u16) {
        self.change(0, |b| put16(b, 1024 + at, value));
    }

    fn set_superblock_u32(&mut self, at: usize, value: u32) {
        self.change(0, |b| put32(b, 1024 + at, value));
    }
}

fn fixture_with_files(files: &[(&str, &[u8])]) -> Result<Ext2Fixture, ()> {
    let mut image = Ext2Fixture::empty();
    for (name, contents) in files {
        image.add_file(ROOT_BLOCK, name, contents);
    }
    Ok(image)
}

fn fixture_with_directory(directory: &str, file: &str, contents: &[u8]) -> Result<Ext2Fixture, ()> {
    let mut image = Ext2Fixture::empty();
    let block = image.add_dir(directory);
    image.add_file(block, file, contents);
    Ok(image)
}

/// The blocks that an inode owns, its indirect block among them.
fn owned_blocks(image: &Ext2Fixture, inode: &[u8]) -> Vec<u32> {
    let mut owned = Vec::new();
    for k in 0..12 {
        owned.push(get32(inode, 40 + k * 4));
    }
    let indirect = get32(inode, 88);
    owned.push(indirect);
    assert_eq!(get32(inode, 92), 0);
    assert_eq!(get32(inode, 96), 0);
    if indirect != 0 {
        let block = image.block(indirect);
        for k in 0..1024 {
            owned.push(get32(&block, k * 4));
        }
    }
    owned.retain(|pointer| *pointer != 0);
    owned
}

fn inode_bytes(image: &Ext2Fixture, number: u32) -> Vec<u8> {
    let at = (number as usize - 1) * 256;
    image.block((INODE_TABLE + at / BLOCK) as u32)[at % BLOCK..at % BLOCK + 256].to_vec()
}

/// Every inode that is linked, by number.
fn linked_inodes(image: &Ext2Fixture) -> Vec<(u32, Vec<u8>)> {
    (2..=4096)
        .map(|number| (number, inode_bytes(image, number)))
        .filter(|(_, inode)| {
            matches!(get16(inode, 0) & 0xf000, 0x8000 | 0x4000) && get16(inode, 26) != 0
        })
        .collect()
}

fn assert_no_duplicate_blocks(image: &Ext2Fixture) -> BTreeSet<u32> {
    let mut owned = BTreeSet::new();
    for (_, inode) in linked_inodes(image) {
        for block in owned_blocks(image, &inode) {
            assert!(owned.insert(block), "duplicate block {block}");
        }
    }
    owned
}

/// Checks that bitmaps, counts and links agree with the inodes and the directories.
fn assert_consistent(image: &Ext2Fixture) {
    let mut used = assert_no_duplicate_blocks(image);
    used.extend(0..INODE_TABLE as u32 + 256);
    let bitmap = image.block(2);
    for block in 0..32768_u32 {
        let marked = bitmap[block as usize / 8] >> (block % 8) & 1 == 1;
        assert_eq!(marked, used.contains(&block), "block {block}");
    }
    let linked = linked_inodes(image);
    let numbers: BTreeSet<u32> = linked.iter().map(|(number, _)| *number).collect();
    let bitmap = image.block(3);
    for number in 1..=4096_u32 {
        let i = number as usize - 1;
        let marked = bitmap[i / 8] >> (i % 8) & 1 == 1;
        assert_eq!(marked, number <= 10 || numbers.contains(&number), "inode {number}");
    }
    let mut links: BTreeMap<u32, u16> = BTreeMap::new();
    let mut dirs = 0;
    for (_, inode) in &linked {
        if get16(inode, 0) & 0xf000 != 0x4000 {
            continue;
        }
        dirs += 1;
        for block in owned_blocks(image, inode) {
            let b = image.block(block);
            let mut at = 0;
            while at < BLOCK {
                if get32(&b, at) != 0 {
                    *links.entry(get32(&b, at)).or_insert(0) += 1;
                }
                at += get16(&b, at + 4) as usize;
            }
            assert_eq!(at, BLOCK);
        }
    }
    for (number, inode) in &linked {
        assert_eq!(links.get(number), Some(&get16(inode, 26)), "links of {number}");
        assert_eq!(
            get32(inode, 28) as usize,
            owned_blocks(image, inode).len() * 8,
            "sectors of {number}"
        );
    }
    assert_eq!(links.len(), linked.len());
    let free_blocks = 32768 - used.len() as u32;
    let free_inodes = 4096 - (9 + linked.len() as u32);
    let b = image.block(0);
    assert_eq!(get32(&b, 1024 + 12), free_blocks);
    assert_eq!(get32(&b, 1024 + 16), free_inodes);
    let b = image.block(1);
    assert_eq!(u32::from(get16(&b, 12)), free_blocks);
    assert_eq!(u32::from(get16(&b, 14)), free_inodes);
    assert_eq!(get16(&b, 16), dirs);
}

fn name(bytes: &[u8]) -> Name {
    Name::new(bytes).unwrap()
}

#[test]
fn mkdir_lists_and_persists_after_reopen() {
    let image = fixture_with_files(&[]).unwrap();
    let mut fs = Ext2::mount(image.open().unwrap(), MountMode::ReadWrite).unwrap();
    let docs = fs.create_dir(fs.root(), &name(b"docs")).unwrap();

    assert_eq!(fs.metadata(docs).unwrap().kind, NodeKind::Directory);
    fs.create_file(docs, &name(b"hello")).unwrap();
    fs.unmount().unwrap();

    let mut reopened = Ext2::mount(image.open().unwrap(), MountMode::ReadOnly).unwrap();
    let found = reopened.lookup(reopened.root(), &name(b"docs")).unwrap();
    let entries = reopened.read_dir(found).unwrap();

    assert_eq!(entries.len(), 1);
    assert_eq!(entries[0].name, name(b"hello"));
}

#[test]
fn rmdir_rejects_non_empty_and_root() {
    let mut image = fixture_with_files(&[("link", b"relay")]).unwrap();
    // Point a constructible root entry at the root inode itself (inode and
    // directory file type, so lookup resolves it as the root directory).
    image.set_root_entry_inode("link", 2);
    image.set_root_entry_file_type("link", 2);
    let mut fs = Ext2::mount(image.open().unwrap(), MountMode::ReadWrite).unwrap();
    let docs = fs.create_dir(fs.root(), &name(b"docs")).unwrap();
    fs.create_file(docs, &name(b"hello")).unwrap();

    assert_eq!(
        fs.remove_dir(fs.root(), &name(b"docs")),
        Err(Ext2Error::DirectoryNotEmpty)
    );
    // The entry now resolves to the root inode, so removal is rejected even
    // though the name itself is an ordinary constructible name.
    assert_eq!(
        fs.remove_dir(fs.root(), &name(b"link")),
        Err(Ext2Error::WrongNodeKind)
    );
}

#[test]
fn mkdir_rejects_duplicate_and_rmdir_empties() {
    let image = fixture_with_files(&[]).unwrap();
    let mut fs = Ext2::mount(image.open().unwrap(), MountMode::ReadWrite).unwrap();
    fs.create_dir(fs.root(), &name(b"docs")).unwrap();

    assert_eq!(
        fs.create_dir(fs.root(), &name(b"docs")),
        Err(Ext2Error::AlreadyExists)
    );
    assert_eq!(
        fs.create_file(fs.root(), &name(b"docs")),
        Err(Ext2Error::AlreadyExists)
    );

    fs.remove_dir(fs.root(), &name(b"docs")).unwrap();
    assert_eq!(
        fs.lookup(fs.root(), &name(b"docs")),
        Err(Ext2Error::NotFound)
    );

    // Slot coalescing reuse: recreate after removal.
    let docs = fs.create_dir(fs.root(), &name(b"docs")).unwrap();
    assert_eq!(fs.metadata(docs).unwrap().kind, NodeKind::Directory);
    assert!(fs.read_dir(docs).unwrap().is_empty());
    fs.unmount().unwrap();
}

#[test]
fn directory_growth_beyond_direct_blocks_reports_no_space() {
    let image = fixture_with_files(&[]).unwrap();
    let mut fs = Ext2::mount(image.open().unwrap(), MountMode::ReadWrite).unwrap();
    let docs = fs.create_dir(fs.root(), &name(b"docs")).unwrap();
    // Long names fill each 4 KiB block with ~19 entries, so ~228 entries
    // fill all 12 direct blocks; the next growth must report NoSpace.
    let mut outcome = None;
    for i in 0..600 {
        let entry = format!(
            "long-entry-name-padded-to-two-hundred-chars-{i:04}-{}",
            "x".repeat(140)
        );
        let result = fs.create_file(docs, &name(entry.as_bytes()));
        if let Err(error) = result {
            outcome = Some(error);
            break;
        }
    }
    assert_eq!(outcome, Some(Ext2Error::NoSpace));
}

#[test]
fn entries_are_found_by_name_and_gone_when_removed() {
    let image = fixture_with_files(&[("alpha", b"1"), ("beta", b"2")]).unwrap();
    let mut fs = Ext2::mount(image.open().unwrap(), MountMode::ReadWrite).unwrap();
    let root = fs.root();
    let gamma = fs.create_file(root, &name(b"gamma")).unwrap();
    let alpha = fs.lookup(root, &name(b"alpha")).unwrap();
    assert_eq!(fs.lookup(root, &name(b"gamma")), Ok(gamma));
    assert_ne!(gamma, alpha);

    fs.unlink_file(root, &name(b"beta")).unwrap();
    assert_eq!(fs.lookup(root, &name(b"beta")), Err(Ext2Error::NotFound));
    assert_eq!(fs.lookup(root, &name(b"alpha")), Ok(alpha));
    assert_eq!(fs.lookup(root, &name(b"gamma")), Ok(gamma));
    assert_eq!(
        fs.unlink_file(root, &name(b"beta")),
        Err(Ext2Error::NotFound)
    );
    let beta = fs.create_file(root, &name(b"beta")).unwrap();
    assert_eq!(fs.lookup(root, &name(b"beta")), Ok(beta));
    let listed: Vec<Vec<u8>> = fs
        .read_dir(root)
        .unwrap()
        .iter()
        .map(|entry| entry.name.as_bytes().to_vec())
        .collect();
    assert_eq!(listed.len(), 3);
    fs.unmount().unwrap();
    assert_consistent(&image);
}

#[test]
fn kinds_are_kept_apart() {
    let image = fixture_with_files(&[("file", b"x")]).unwrap();
    let mut fs = Ext2::mount(image.open().unwrap(), MountMode::ReadWrite).unwrap();
    let root = fs.root();
    fs.create_dir(root, &name(b"dir")).unwrap();
    assert_eq!(
        fs.remove_dir(root, &name(b"file")),
        Err(Ext2Error::WrongNodeKind)
    );
    assert_eq!(
        fs.unlink_file(root, &name(b"dir")),
        Err(Ext2Error::WrongNodeKind)
    );
    let file = fs.lookup(root, &name(b"file")).unwrap();
    assert_eq!(fs.read_dir(file), Err(Ext2Error::WrongNodeKind));
    assert_eq!(fs.lookup(file, &name(b"x")), Err(Ext2Error::WrongNodeKind));
    assert_eq!(
        fs.create_file(file, &name(b"x")),
        Err(Ext2Error::WrongNodeKind)
    );
    fs.unmount().unwrap();
    assert_consistent(&image);
}

#[test]
fn a_directory_that_grows_and_shrinks_stays_consistent() {
    let image = fixture_with_files(&[]).unwrap();
    let mut fs = Ext2::mount(image.open().unwrap(), MountMode::ReadWrite).unwrap();
    let docs = fs.create_dir(fs.root(), &name(b"docs")).unwrap();
    let names: Vec<String> = (0..60).map(|i| format!("{i:03}{}", "n".repeat(197))).collect();
    for entry in &names {
        fs.create_file(docs, &name(entry.as_bytes())).unwrap();
    }
    assert_eq!(fs.metadata(docs).unwrap().len, 4 * 4096);
    for entry in names.iter().step_by(2) {
        fs.unlink_file(docs, &name(entry.as_bytes())).unwrap();
    }
    for (i, entry) in names.iter().enumerate() {
        assert_eq!(
            fs.lookup(docs, &name(entry.as_bytes())).is_ok(),
            i % 2 == 1
        );
    }
    fs.unmount().unwrap();
    assert_consistent(&image);

    let mut fs = Ext2::mount(image.open().unwrap(), MountMode::ReadWrite).unwrap();
    for entry in names.iter().skip(1).step_by(2) {
        fs.unlink_file(docs, &name(entry.as_bytes())).unwrap();
    }
    fs.remove_dir(fs.root(), &name(b"docs")).unwrap();
    fs.unmount().unwrap();
    assert_consistent(&image);
}

#[test]
fn damaged_records_are_reported() {
    let mut image = fixture_with_files(&[("file", b"x")]).unwrap();
    image.set_root_entry_record_length("file", 10);
    let mut fs = Ext2::mount(image.open().unwrap(), MountMode::ReadOnly).unwrap();
    assert_eq!(
        fs.read_dir(fs.root()),
        Err(Ext2Error::CorruptMetadata {
            field: "directory_record_length"
        })
    );
    let mut image = fixture_with_files(&[("file", b"x")]).unwrap();
    image.set_root_entry_file_type("file", 2);
    let mut fs = Ext2::mount(image.open().unwrap(), MountMode::ReadOnly).unwrap();
    assert_eq!(
        fs.lookup(fs.root(), &name(b"file")),
        Err(Ext2Error::CorruptMetadata {
            field: "directory_file_type"
        })
    );
}

#[test]
fn a_new_file_is_empty_and_others_are_spared() {
    let image = fixture_with_files(&[("kept", b"as it was")]).unwrap();
    let mut fs = Ext2::mount(image.open().unwrap(), MountMode::ReadWrite).unwrap();
    let kept = fs.lookup(fs.root(), &name(b"kept")).unwrap();
    let node = fs.create_file(fs.root(), &name(b"new")).unwrap();
    assert_ne!(node, kept);
    assert_eq!(fs.lookup(fs.root(), &name(b"new")), Ok(node));
    let mut bytes = [0; 16];
    assert_eq!(fs.read_at(node, 0, &mut bytes), Ok(0));
    let dir = fs.create_dir(fs.root(), &name(b"dir")).unwrap();
    assert!(fs.read_dir(dir).unwrap().is_empty());
    fs.unlink_file(fs.root(), &name(b"new")).unwrap();
    fs.remove_dir(fs.root(), &name(b"dir")).unwrap();
    assert_eq!(
        fs.lookup(fs.root(), &name(b"new")),
        Err(Ext2Error::NotFound)
    );
    assert_eq!(fs.lookup(fs.root(), &name(b"kept")), Ok(kept));
    assert_eq!(fs.read_at(kept, 0, &mut bytes), Ok(9));
    assert_eq!(&bytes[..9], b"as it was");
    assert_eq!(fs.create_file(fs.root(), &name(b"again")), Ok(node));
}

#[test]
fn refused_changes_leave_the_disk_alone() {
    let image = fixture_with_files(&[("file", b"content")]).unwrap();
    let mut fs = Ext2::mount(image.open().unwrap(), MountMode::ReadWrite).unwrap();
    let dir = fs.create_dir(fs.root(), &name(b"dir")).unwrap();
    fs.create_file(dir, &name(b"inner")).unwrap();
    let file = fs.lookup(fs.root(), &name(b"file")).unwrap();
    let before: Vec<Vec<u8>> = (0..600).map(|number| image.block(number)).collect();
    let root = fs.root();
    assert_eq!(
        fs.create_file(root, &name(b"file")),
        Err(Ext2Error::AlreadyExists)
    );
    assert_eq!(
        fs.create_dir(root, &name(b"dir")),
        Err(Ext2Error::AlreadyExists)
    );
    assert_eq!(
        fs.create_file(file, &name(b"x")),
        Err(Ext2Error::WrongNodeKind)
    );
    assert_eq!(
        fs.unlink_file(root, &name(b"none")),
        Err(Ext2Error::NotFound)
    );
    assert_eq!(
        fs.unlink_file(root, &name(b"dir")),
        Err(Ext2Error::WrongNodeKind)
    );
    assert_eq!(
        fs.remove_dir(root, &name(b"dir")),
        Err(Ext2Error::DirectoryNotEmpty)
    );
    assert_eq!(
        fs.remove_dir(root, &name(b"file")),
        Err(Ext2Error::WrongNodeKind)
    );
    assert_eq!(fs.write_at(dir, 0, b"x"), Err(Ext2Error::WrongNodeKind));
    assert_eq!(fs.truncate(dir, 0), Err(Ext2Error::WrongNodeKind));
    assert_eq!(
        fs.write_at(file, 1 << 32, b"x"),
        Err(Ext2Error::FileTooLarge)
    );
    assert_eq!(fs.truncate(file, 1 << 32), Err(Ext2Error::FileTooLarge));
    let after: Vec<Vec<u8>> = (0..600).map(|number| image.block(number)).collect();
    assert!(before == after);
    fs.create_file(root, &name(b"new")).unwrap();
}

#[test]
fn a_lookup_gives_the_first_of_the_listed_entries() {
    let image = fixture_with_files(&[("twin", b"1"), ("other", b"2"), ("twin", b"3")]).unwrap();
    let mut fs = Ext2::mount(image.open().unwrap(), MountMode::ReadOnly).unwrap();
    let root = fs.root();
    let listed = fs.read_dir(root).unwrap();
    assert_eq!(listed.len(), 3);
    assert_ne!(listed[0].node, listed[2].node);
    assert_eq!(fs.lookup(root, &name(b"twin")), Ok(listed[0].node));
    assert_eq!(fs.lookup(root, &name(b"other")), Ok(listed[1].node));
    assert_eq!(fs.lookup(root, &name(b"none")), Err(Ext2Error::NotFound));
}
