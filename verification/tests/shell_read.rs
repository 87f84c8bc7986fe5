#![allow(dead_code)]

use relay_core::block::{BlockDevice, BlockError, BlockGeometry};
use relay_core::console::TextOutput;
use relay_core::ext2::{Ext2, MountMode};
use relay_core::fs::{DirEntry, Metadata, Name, NodeId};
use relay_core::shell::commands::command_from;
use relay_core::shell::{Command, ParseError, Shell};
use relay_core::vfs::{FileSystem, FsError, Vfs};
use std::cell::RefCell;
use std::collections::BTreeMap;
use std::rc::Rc;

const BLOCK: usize = 4096;
const INODE_TABLE: usize = 4;
const ROOT_BLOCK: u32 = 260;

type Blocks = BTreeMap<u64, Vec<u8>>;

/// A disk in memory that several devices share.
#[derive(Clone)]
struct MemDevice {
    blocks: Rc<RefCell<Blocks>>,
}

impl BlockDevice for MemDevice {
    fn geometry(&self) -> BlockGeometry {
        BlockGeometry {
            logical_sector_size: 512,
            sector_count: 262_144,
        }
    }

    fn read_sectors(&mut self, first_lba: u64, dst: &mut [u8]) -> Result<(), BlockError> {
        check_request(first_lba, dst.len())?;
        for (index, sector) in dst.chunks_mut(512).enumerate() {
            let lba = first_lba + index as u64;
            let at = (lba % 8) as usize * 512;
            match self.blocks.borrow().get(&(lba / 8)) {
                Some(block) => sector.copy_from_slice(&block[at..at + 512]),
                None => sector.fill(0),
            }
        }
        Ok(())
    }

    fn write_sectors(&mut self, first_lba: u64, src: &[u8]) -> Result<(), BlockError> {
        check_request(first_lba, src.len())?;
        for (index, sector) in src.chunks(512).enumerate() {
            let lba = first_lba + index as u64;
            let at = (lba % 8) as usize * 512;
            let mut blocks = self.blocks.borrow_mut();
            let block = blocks.entry(lba / 8).or_insert_with(|| vec![0; BLOCK]);
            block[at..at + 512].copy_from_slice(sector);
        }
        Ok(())
    }

    fn flush(&mut self) -> Result<(), BlockError> {
        Ok(())
    }
}

fn check_request(first_lba: u64, bytes: usize) -> Result<(), BlockError> {
    if bytes == 0 || bytes % 512 != 0 {
        return Err(BlockError::InvalidRequest);
    }
    if first_lba + (bytes / 512) as u64 > 262_144 {
        return Err(BlockError::OutOfRange);
    }
    Ok(())
}

/// A file system image.
struct Ext2Fixture {
    blocks: Rc<RefCell<Blocks>>,
    next_block: u32,
    next_inode: u32,
    used_dirs: u16,
}

fn put16(bytes: &mut [u8], at: usize, value: u16) {
    bytes[at..at + 2].copy_from_slice(&value.to_le_bytes());
}

fn put32(bytes: &mut [u8], at: usize, value: u32) {
    bytes[at..at + 4].copy_from_slice(&value.to_le_bytes());
}

fn get16(bytes: &[u8], at: usize) -> u16 {
    u16::from_le_bytes([bytes[at], bytes[at + 1]])
}

fn get32(bytes: &[u8], at: usize) -> u32 {
    u32::from_le_bytes([bytes[at], bytes[at + 1], bytes[at + 2], bytes[at + 3]])
}

impl Ext2Fixture {
    fn open(&self) -> Result<MemDevice, ()> {
        Ok(MemDevice {
            blocks: self.blocks.clone(),
        })
    }

    fn block(&self, number: u32) -> Vec<u8> {
        match self.blocks.borrow().get(&u64::from(number)) {
            Some(block) => block.clone(),
            None => vec![0; BLOCK],
        }
    }

    fn change(&self, number: u32, change: impl FnOnce(&mut [u8])) {
        let mut blocks = self.blocks.borrow_mut();
        change(
            blocks
                .entry(u64::from(number))
                .or_insert_with(|| vec![0; BLOCK]),
        );
    }

    fn empty() -> Self {
        let mut image = Ext2Fixture {
            blocks: Rc::new(RefCell::new(BTreeMap::new())),
            next_block: ROOT_BLOCK + 1,
            next_inode: 11,
            used_dirs: 1,
        };
        image.change(0, |b| {
            put32(b, 1024, 4096);
            put32(b, 1024 + 4, 32768);
            put32(b, 1024 + 24, 2);
            put32(b, 1024 + 28, 2);
            put32(b, 1024 + 32, 32768);
            put32(b, 1024 + 36, 32768);
            put32(b, 1024 + 40, 4096);
            put16(b, 1024 + 56, 0xEF53);
            put16(b, 1024 + 58, 1);
            put16(b, 1024 + 60, 1);
            put32(b, 1024 + 76, 1);
            put32(b, 1024 + 84, 11);
            put16(b, 1024 + 88, 256);
            put32(b, 1024 + 96, 2);
        });
        image.change(1, |b| {
            put32(b, 0, 2);
            put32(b, 4, 3);
            put32(b, 8, INODE_TABLE as u32);
        });
        image.inode(2, 0x41ED, 4096, 2, &[ROOT_BLOCK], 0);
        image.directory(ROOT_BLOCK, 2, 2);
        image.account();
        image
    }

    /// Writes the inode with this number.
    fn inode(&mut self, number: u32, mode: u16, size: u32, links: u16, direct: &[u32], indirect: u32) {
        let at = (number as usize - 1) * 256;
        let count = direct.len() as u32;
        self.change((INODE_TABLE + at / BLOCK) as u32, |b| {
            let i = at % BLOCK;
            put16(b, i, mode);
            put32(b, i + 4, size);
            put16(b, i + 26, links);
            put32(b, i + 28, (count + u32::from(indirect != 0)) * 8);
            for (k, pointer) in direct.iter().take(12).enumerate() {
                put32(b, i + 40 + k * 4, *pointer);
            }
            put32(b, i + 88, indirect);
        });
    }

    /// Writes a directory with no entries but itself and its parent.
    fn directory(&mut self, block: u32, own: u32, parent: u32) {
        self.change(block, |b| {
            put32(b, 0, own);
            put16(b, 4, 12);
            b[6] = 1;
            b[7] = 2;
            b[8] = b'.';
            put32(b, 12, parent);
            put16(b, 16, 4084);
            b[18] = 2;
            b[19] = 2;
            b[20] = b'.';
            b[21] = b'.';
        });
    }

    /// Puts an entry behind the last one of a directory.
    fn link(&mut self, block: u32, name: &str, inode: u32, kind: u8) {
        self.change(block, |b| {
            let mut at = 0;
            while at + (get16(b, at + 4) as usize) < BLOCK {
                at += get16(b, at + 4) as usize;
            }
            let needed = (8 + b[at + 6] as usize + 3) / 4 * 4;
            put16(b, at + 4, needed as u16);
            let new = at + needed;
            put32(b, new, inode);
            put16(b, new + 4, (BLOCK - new) as u16);
            b[new + 6] = name.len() as u8;
            b[new + 7] = kind;
            b[new + 8..new + 8 + name.len()].copy_from_slice(name.as_bytes());
        });
    }

    fn take_block(&mut self) -> u32 {
        self.next_block += 1;
        self.next_block - 1
    }

    fn add_file(&mut self, parent_block: u32, name: &str, contents: &[u8]) {
        let number = self.next_inode;
        self.next_inode += 1;
        let mut data = Vec::new();
        for part in contents.chunks(BLOCK) {
            let block = self.take_block();
            self.change(block, |b| b[..part.len()].copy_from_slice(part));
            data.push(block);
        }
        let mut indirect = 0;
        if data.len() > 12 {
            indirect = self.take_block();
            let rest = data[12..].to_vec();
            self.change(indirect, |b| {
                for (k, pointer) in rest.iter().enumerate() {
                    put32(b, k * 4, *pointer);
                }
            });
        }
        self.inode(number, 0x81A4, contents.len() as u32, 1, &data, indirect);
        self.link(parent_block, name, number, 1);
        self.account();
    }

    fn add_dir(&mut self, name: &str) -> u32 {
        let number = self.next_inode;
        self.next_inode += 1;
        self.used_dirs += 1;
        let block = self.take_block();
        self.inode(number, 0x41ED, 4096, 2, &[block], 0);
        self.directory(block, number, 2);
        self.link(ROOT_BLOCK, name, number, 2);
        self.change(INODE_TABLE as u32, |b| put16(b, 256 + 26, get16(b, 256 + 26) + 1));
        self.account();
        block
    }

    /// Brings bitmaps and counts in line with what was handed out.
    fn account(&mut self) {
        let (blocks, inodes, dirs) = (self.next_block, self.next_inode - 1, self.used_dirs);
        self.change(2, |b| {
            for i in 0..blocks as usize {
                b[i / 8] |= 1 << (i % 8);
            }
        });
        self.change(3, |b| {
            for i in 0..inodes as usize {
                b[i / 8] |= 1 << (i % 8);
            }
            b[512..].fill(0xff);
        });
        self.change(0, |b| {
            put32(b, 1024 + 12, 32768 - blocks);
            put32(b, 1024 + 16, 4096 - inodes);
        });
        self.change(1, |b| {
            put16(b, 12, (32768 - blocks) as u16);
            put16(b, 14, (4096 - inodes) as u16);
            put16(b, 16, dirs);
        });
    }

    fn root_entry(&self, wanted: &str) -> usize {
        let b = self.block(ROOT_BLOCK);
        let mut at = 0;
        while at < BLOCK {
            let len = b[at + 6] as usize;
            if &b[at + 8..at + 8 + len] == wanted.as_bytes() {
                return at;
            }
            at += get16(&b, at + 4) as usize;
        }
        panic!("no such entry: {wanted}");
    }

    fn set_root_entry_inode(&mut self, name: &str, value: u32) {
        let at = self.root_entry(name);
        self.change(ROOT_BLOCK, |b| put32(b, at, value));
    }

    fn set_root_entry_file_type(&mut self, name: &str, value: u8) {
        let at = self.root_entry(name);
        self.change(ROOT_BLOCK, |b| b[at + 7] = value);
    }

    fn set_root_entry_record_length(&mut self, name: &str, value: u16) {
        let at = self.root_entry(name);
        self.change(ROOT_BLOCK, |b| put16(b, at + 4, value));
    }

    /// Where the inode of an entry of the root directory is: its block, and its place in it.
    fn named_inode(&self, name: &str) -> (u32, usize) {
        let number = get32(&self.block(ROOT_BLOCK), self.root_entry(name));
        let at = (number as usize - 1) * 256;
        ((INODE_TABLE + at / BLOCK) as u32, at % BLOCK)
    }

    fn clear_first_data_pointer(&mut self, name: &str) {
        let (block, at) = self.named_inode(name);
        self.change(block, |b| put32(b, at + 40, 0));
    }

    fn set_first_data_pointer(&mut self, name: &str, value: u32) {
        let (block, at) = self.named_inode(name);
        self.change(block, |b| put32(b, at + 40, value));
    }

    fn set_first_indirect_data_pointer(&mut self, name: &str, value: u32) {
        let (block, at) = self.named_inode(name);
        let indirect = get32(&self.block(block), at + 88);
        self.change(indirect, |b| put32(b, 0, value));
    }

    fn set_superblock_u16(&mut self, at: usize, value: u16) {
        self.change(0, |b| put16(b, 1024 + at, value));
    }

    fn set_superblock_u32(&mut self, at: usize, value: u32) {
        self.change(0, |b| put32(b, 1024 + at, value));
    }
}

fn fixture_with_files(files: &[(&str, &[u8])]) -> Result<Ext2Fixture, ()> {
    let mut image = Ext2Fixture::empty();
    for (name, contents) in files {
        image.add_file(ROOT_BLOCK, name, contents);
    }
    Ok(image)
}

fn fixture_with_directory(directory: &str, file: &str, contents: &[u8]) -> Result<Ext2Fixture, ()> {
    let mut image = Ext2Fixture::empty();
    let block = image.add_dir(directory);
    image.add_file(block, file, contents);
    Ok(image)
}

struct Recorder(Vec<u8>, usize);

impl TextOutput for Recorder {
    fn write_bytes(&mut self, bytes: &[u8]) {
        self.0.extend_from_slice(bytes);
        self.1 += 1;
    }
}

fn fixture_shell(files: &[(&str, &[u8])]) -> Shell<Ext2<MemDevice>, Recorder> {
    let image = fixture_with_files(files).unwrap();
    let filesystem = Ext2::mount(image.open().unwrap(), MountMode::ReadOnly).unwrap();
    Shell::new(Vfs::new(filesystem), Recorder(Vec::new(), 0))
}

fn directory_shell() -> Shell<Ext2<MemDevice>, Recorder> {
    let image = fixture_with_directory("docs", "guide", b"read me").unwrap();
    let filesystem = Ext2::mount(image.open().unwrap(), MountMode::ReadOnly).unwrap();
    Shell::new(Vfs::new(filesystem), Recorder(Vec::new(), 0))
}

#[test]
fn shell_runs_read_commands_against_an_ext2_fixture() {
    let mut shell = fixture_shell(&[("alpha", b"hello\n\x01")]);

    shell.run("pwd").unwrap();
    shell.run("ls").unwrap();
    shell.run("cat alpha").unwrap();
    shell.run("echo relay os").unwrap();

    assert_eq!(shell.output().0, b"/\nalpha file 7\nhello\n?relay os\n");
}

#[test]
fn failed_cd_preserves_the_working_directory_and_writes_one_error_line() {
    let mut shell = fixture_shell(&[("file", b"relay")]);

    shell.run("cd missing").unwrap();
    shell.run("pwd").unwrap();

    assert_eq!(shell.output().0, b"error: not found\n/\n");
}

#[test]
fn help_lists_all_available_commands() {
    let mut shell = fixture_shell(&[]);

    shell.run("help").unwrap();

    assert_eq!(
        shell.output().0,
        b"help\npwd\ncd PATH\nls [PATH]\ncat PATH\necho [TEXT ...]\ntouch PATH\nwrite PATH [TEXT ...]\nappend PATH [TEXT ...]\nmkdir PATH\nrm PATH\nrmdir PATH\nsync\nshutdown\n"
    );
}

#[test]
fn echo_preserves_parsed_empty_and_quoted_arguments() {
    let mut shell = fixture_shell(&[]);

    shell.run("echo").unwrap();
    shell.run("echo '' 'relay os' x\" y\"").unwrap();

    assert_eq!(shell.output().0, b"\n relay os x y\n");
}

#[test]
fn cd_and_ls_use_relative_absolute_and_current_directory_paths() {
    let mut shell = directory_shell();

    shell.run("cd docs").unwrap();
    shell.run("ls").unwrap();
    shell.run("ls /").unwrap();
    shell.run("cd /docs/../docs").unwrap();
    shell.run("pwd").unwrap();

    assert_eq!(shell.output().0, b"guide file 7\ndocs dir 4096\n/docs\n");
}

#[test]
fn cat_sanitizes_binary_bytes_without_adding_a_newline() {
    let mut shell = fixture_shell(&[("binary", b"a\t\r\n\x00\x7f\xffz")]);

    shell.run("cat binary").unwrap();

    assert_eq!(shell.output().0, b"a\t\r\n???z");
}

#[test]
fn command_errors_write_one_stable_line_and_preserve_cwd() {
    let mut shell = fixture_shell(&[("file", b"relay")]);

    shell.run("cat missing").unwrap();
    shell.run("ls file").unwrap();
    shell.run("cd file").unwrap();
    shell.run("unknown").unwrap();
    shell.run("cd").unwrap();
    shell.run("echo 'unterminated").unwrap();
    shell.run("pwd").unwrap();

    assert_eq!(
        shell.output().0,
        b"error: not found\nerror: not a directory\nerror: not a directory\nerror: invalid command\nerror: invalid arguments\nerror: invalid arguments\n/\n"
    );
}

#[test]
fn invalid_paths_and_parser_input_have_stable_error_lines() {
    let mut shell = fixture_shell(&[]);
    let overlong_component = "a".repeat(256);

    shell.run(&format!("ls {overlong_component}")).unwrap();
    shell.run("echo cafe\u{e9}").unwrap();
    shell.run("echo\0").unwrap();

    assert_eq!(
        shell.output().0,
        b"error: invalid path\nerror: invalid arguments\nerror: invalid arguments\n"
    );
}

#[test]
fn filesystem_error_categories_have_stable_error_lines() {
    let root = fixture_root();
    let mut output = Vec::new();
    for (error, expected) in [
        (FsError::WrongNodeKind, b"not a directory\n".as_slice()),
        (FsError::Corrupt, b"filesystem corrupt\n".as_slice()),
        (FsError::Unsupported, b"unsupported file\n".as_slice()),
        (FsError::Io, b"I/O failure\n".as_slice()),
    ] {
        let mut shell = Shell::new(
            Vfs::new(ErrorFileSystem { root, error }),
            Recorder(Vec::new(), 0),
        );

        shell.run("ls").unwrap();
        output.extend_from_slice(&shell.output().0);
        assert_eq!(shell.output().0, [b"error: ".as_slice(), expected].concat());
    }

    assert_eq!(
        output,
        b"error: not a directory\nerror: filesystem corrupt\nerror: unsupported file\nerror: I/O failure\n"
    );
}

#[test]
fn failed_cat_and_ls_preserve_an_existing_directory_cwd() {
    let mut shell = directory_shell();

    shell.run("cd docs").unwrap();
    shell.run("cat .").unwrap();
    shell.run("ls guide").unwrap();
    shell.run("pwd").unwrap();

    assert_eq!(
        shell.output().0,
        b"error: not a regular file\nerror: not a directory\n/docs\n"
    );
}

#[test]
fn cat_writes_a_file_larger_than_one_vfs_buffer() {
    let contents = vec![b'x'; 8193];
    let mut shell = fixture_shell(&[("large", &contents)]);

    shell.run("cat large").unwrap();

    assert_eq!(shell.output().0, contents);
    assert!(shell.output().1 > 1);
}

fn fixture_root() -> NodeId {
    let image = fixture_with_files(&[]).unwrap();
    Ext2::mount(image.open().unwrap(), MountMode::ReadOnly)
        .unwrap()
        .root()
}

struct ErrorFileSystem {
    root: NodeId,
    error: FsError,
}

impl FileSystem for ErrorFileSystem {
    type Model = ();

    fn root(&self) -> NodeId {
        self.root
    }

    fn metadata(&mut self, _: NodeId) -> Result<Metadata, FsError> {
        Err(self.error)
    }

    fn lookup(&mut self, _: NodeId, _: &Name) -> Result<NodeId, FsError> {
        Err(self.error)
    }

    fn read_dir(&mut self, _: NodeId) -> Result<Vec<DirEntry>, FsError> {
        Err(self.error)
    }

    fn read_at(&mut self, _: NodeId, _: u64, _: &mut [u8]) -> Result<usize, FsError> {
        Err(self.error)
    }
    fn write_at(&mut self, _: NodeId, _: u64, _: &[u8]) -> Result<(), FsError> {
        Err(FsError::Unsupported)
    }

    fn truncate(&mut self, _: NodeId, _: u64) -> Result<(), FsError> {
        Err(FsError::Unsupported)
    }

    fn create_file(&mut self, _: NodeId, _: &Name) -> Result<NodeId, FsError> {
        Err(FsError::Unsupported)
    }

    fn create_dir(&mut self, _: NodeId, _: &Name) -> Result<NodeId, FsError> {
        Err(FsError::Unsupported)
    }

    fn unlink_file(&mut self, _: NodeId, _: &Name) -> Result<(), FsError> {
        Err(FsError::Unsupported)
    }

    fn remove_dir(&mut self, _: NodeId, _: &Name) -> Result<(), FsError> {
        Err(FsError::Unsupported)
    }

    fn sync(&mut self) -> Result<(), FsError> {
        Err(FsError::Unsupported)
    }

    fn unmount(&mut self) -> Result<(), FsError> {
        Err(FsError::Unsupported)
    }
}

#[test]
fn dots_and_slashes_are_resolved() {
    let mut shell = directory_shell();
    for line in ["cd ./docs//", "pwd", "cd ..", "pwd", "cd ../..", "pwd", "cat docs/../docs/guide"] {
        shell.run(line).unwrap();
    }
    assert_eq!(shell.output().0, b"/docs\n/\n/\nread me");
}

#[test]
fn read_only_file_systems_refuse_changes_in_one_line() {
    let mut shell = fixture_shell(&[("file", b"x")]);
    for line in ["touch a", "mkdir d", "rm file", "write file y", "append file y", "sync"] {
        shell.run(line).unwrap();
    }
    assert_eq!(
        shell.output().0,
        b"error: read-only filesystem\n".repeat(6)
    );
    shell.output_mut().0.clear();
    shell.run("cat file").unwrap();
    assert_eq!(shell.output().0, b"x");
}

#[test]
fn words_give_commands() {
    let words = |line: &str| -> Vec<String> { line.split(' ').map(String::from).collect() };
    assert!(matches!(command_from(Vec::new()), Ok(None)));
    assert!(matches!(command_from(words("pwd")), Ok(Some(Command::Pwd))));
    assert!(matches!(
        command_from(words("pwd x")),
        Err(ParseError::Arity { command: "pwd" })
    ));
    assert!(matches!(
        command_from(words("frob")),
        Err(ParseError::UnknownCommand)
    ));
    let Ok(Some(Command::Write { path, text })) = command_from(words("write f a b")) else {
        panic!("write takes a path and words");
    };
    assert_eq!((path.as_str(), text.as_str()), ("f", "a b"));
}
