//! Directory records: listing, finding, inserting and removing entries.
use vstd::prelude::*;
use vstd::slice::slice_subrange;

use crate::block::BlockDevice;
use crate::bytes::{
    clear_bytes, get_u16, get_u32, le16, le32, put_bytes, put_u16, put_u32, same_bytes, splice,
    to_le16, to_le32, zeros,
};
use crate::fs::{check_name, listing, name_check, DirEntry, EntryView, Name, NodeId, NodeKind};
use crate::heap::Heap;

use super::allocator::{claim_block, claim_block_step, PROFILE_INODES};
use super::inode::{
    self, load_block_step, load_step, metadata_of, pointer_of, resolve_step, store_step, Inode,
    DIRECT_BLOCKS,
};
use super::on_disk::{
    BLOCK_BYTES, DIRECTORY_FILE_TYPE, DIRECTORY_INODE, DIRECTORY_NAME, DIRECTORY_NAME_LENGTH,
    DIRECTORY_RECORD_LENGTH, INODE_BLOCK, INODE_BLOCKS, INODE_SIZE_LO,
};
use super::volume::{corrupt, Step, Volume};
use super::{Ext2, Ext2Error};

verus! {

pub const DIRECTORY_FILETYPE_REGULAR: u8 = 1;

pub const DIRECTORY_FILETYPE_DIRECTORY: u8 = 2;

/// The byte of a dot.
pub const DOT: u8 = 0x2e;

/// A directory record. One whose inode is zero is deleted.
pub struct Record {
    pub inode: u32,
    pub length: int,
    pub file_type: u8,
    pub name: Seq<u8>,
}

/// A live entry. The entries for the directory itself and its parent have no name.
pub struct Entry {
    pub node: NodeId,
    pub name: Option<Seq<u8>>,
    pub kind: NodeKind,
}

/// The record at `offset` of a block whose records end at `limit`.
pub open spec fn record_at(block: Seq<u8>, offset: int, limit: int) -> Result<Record, Ext2Error> {
    let length = le16(block, offset + DIRECTORY_RECORD_LENGTH) as int;
    let name_length = block[offset + DIRECTORY_NAME_LENGTH] as int;
    if offset + DIRECTORY_NAME > limit {
        Err(corrupt("directory_record_length"))
    } else if length < DIRECTORY_NAME || length % 4 != 0 || length > limit - offset {
        Err(corrupt("directory_record_length"))
    } else if name_length > length - DIRECTORY_NAME {
        Err(corrupt("directory_name_length"))
    } else {
        Ok(
            Record {
                inode: le32(block, offset + DIRECTORY_INODE),
                length,
                file_type: block[offset + DIRECTORY_FILE_TYPE],
                name: block.subrange(
                    offset + DIRECTORY_NAME,
                    offset + DIRECTORY_NAME + name_length,
                ),
            },
        )
    }
}

/// The kind that a file type stands for.
pub open spec fn kind_of(file_type: u8) -> Option<NodeKind> {
    if file_type == DIRECTORY_FILETYPE_REGULAR {
        Some(NodeKind::Regular)
    } else if file_type == DIRECTORY_FILETYPE_DIRECTORY {
        Some(NodeKind::Directory)
    } else {
        None
    }
}

/// The file type that stands for a kind.
pub open spec fn type_of(kind: NodeKind) -> u8 {
    match kind {
        NodeKind::Regular => DIRECTORY_FILETYPE_REGULAR,
        NodeKind::Directory => DIRECTORY_FILETYPE_DIRECTORY,
    }
}

/// The name of the directory itself or of its parent.
pub open spec fn dot_name(name: Seq<u8>) -> bool {
    name == seq![DOT] || name == seq![DOT, DOT]
}

/// The entry that a record holds; none if it is deleted.
pub open spec fn live(record: Record) -> Result<Option<Entry>, Ext2Error> {
    if record.inode == 0 {
        Ok(None)
    } else {
        match kind_of(record.file_type) {
            None => Err(corrupt("directory_file_type")),
            Some(kind) => if !dot_name(record.name) && name_check(record.name) is Err {
                Err(corrupt("directory_name"))
            } else if record.inode < 2 || record.inode > PROFILE_INODES {
                Err(corrupt("directory_inode"))
            } else {
                Ok(
                    Some(
                        Entry {
                            node: NodeId(record.inode),
                            name: if dot_name(record.name) {
                                None
                            } else {
                                Some(record.name)
                            },
                            kind,
                        },
                    ),
                )
            },
        }
    }
}

/// The number of blocks that `len` bytes take.
pub open spec fn blocks_for(len: int) -> int {
    (len + (BLOCK_BYTES - 1)) / (BLOCK_BYTES as int)
}

/// Where the records of block `logical` end in a directory of `len` bytes.
pub open spec fn block_limit(len: int, logical: int) -> int {
    if logical + 1 == blocks_for(len) && len % (BLOCK_BYTES as int) != 0 {
        len % (BLOCK_BYTES as int)
    } else {
        BLOCK_BYTES as int
    }
}

/// Reads the entries of one block from `offset` on, behind those already `seen`. Every entry's
/// inode is loaded, and must be of the entry's kind.
pub open spec fn scan_block(
    v: Volume,
    block: Seq<u8>,
    offset: int,
    limit: int,
    seen: Seq<Entry>,
) -> Step<Seq<Entry>>
    decreases limit - offset,
{
    if offset >= limit {
        v.done(seen)
    } else {
        match record_at(block, offset, limit) {
            Err(e) => v.fail(e),
            Ok(record) => if record.length <= 0 {
                v.done(seen)
            } else {
                match live(record) {
                    Err(e) => v.fail(e),
                    Ok(None) => scan_block(v, block, offset + record.length, limit, seen),
                    Ok(Some(entry)) => {
                        let child = load_step(v, entry.node);
                        match child.result {
                            Err(e) => child.volume.fail(e),
                            Ok(inode) => if metadata_of(inode)->Ok_0.kind != entry.kind {
                                child.volume.fail(corrupt("directory_file_type"))
                            } else {
                                scan_block(
                                    child.volume,
                                    block,
                                    offset + record.length,
                                    limit,
                                    seen.push(entry),
                                )
                            },
                        }
                    },
                }
            },
        }
    }
}

/// Reads the entries of a directory's blocks from `logical` on, behind those already `seen`.
pub open spec fn scan_blocks(
    v: Volume,
    inode: Seq<u8>,
    logical: int,
    seen: Seq<Entry>,
) -> Step<Seq<Entry>>
    decreases blocks_for(metadata_of(inode)->Ok_0.len as int) - logical,
{
    let len = metadata_of(inode)->Ok_0.len as int;
    if logical >= blocks_for(len) {
        v.done(seen)
    } else {
        let loaded = load_block_step(v, inode, logical);
        match loaded.result {
            Err(e) => loaded.volume.fail(e),
            Ok(block) => {
                let scanned = scan_block(loaded.volume, block, 0, block_limit(len, logical), seen);
                match scanned.result {
                    Err(e) => scanned.volume.fail(e),
                    Ok(seen) => scan_blocks(scanned.volume, inode, logical + 1, seen),
                }
            },
        }
    }
}

/// Reads the entries of a directory, behind those already `seen`.
pub open spec fn scan_step(v: Volume, dir: NodeId, seen: Seq<Entry>) -> Step<Seq<Entry>> {
    load_step(v, dir).and_then(
        |inode: Seq<u8>, v: Volume|
            if metadata_of(inode)->Ok_0.kind != NodeKind::Directory {
                v.fail(Ext2Error::WrongNodeKind)
            } else {
                scan_blocks(v, inode, 0, seen)
            },
    )
}

/// The node of the first entry with a name.
pub open spec fn find(entries: Seq<Entry>, name: Seq<u8>) -> Option<NodeId>
    decreases entries.len(),
{
    if entries.len() == 0 {
        None
    } else {
        match find(entries.drop_last(), name) {
            Some(node) => Some(node),
            None => if entries.last().name == Some(name) {
                Some(entries.last().node)
            } else {
                None
            },
        }
    }
}

/// Finds the node that a name stands for.
pub open spec fn lookup_step(v: Volume, dir: NodeId, name: Seq<u8>) -> Step<NodeId> {
    scan_step(v, dir, Seq::empty()).and_then(
        |entries: Seq<Entry>, v: Volume|
            match find(entries, name) {
                Some(node) => v.done(node),
                None => v.fail(Ext2Error::NotFound),
            },
    )
}

/// The entries that have a name.
pub open spec fn named(entries: Seq<Entry>) -> Seq<EntryView>
    decreases entries.len(),
{
    if entries.len() == 0 {
        Seq::empty()
    } else {
        match entries.last().name {
            Some(name) => named(entries.drop_last()).push(
                EntryView { name, node: entries.last().node, kind: entries.last().kind },
            ),
            None => named(entries.drop_last()),
        }
    }
}

/// Lists a directory.
pub open spec fn read_dir_step(v: Volume, dir: NodeId) -> Step<Seq<EntryView>> {
    scan_step(v, dir, Seq::empty()).and_then(|entries: Seq<Entry>, v: Volume| v.done(named(entries)))
}

/// The file system differs only in the number of requests that its device has had.
pub open spec fn only_read(before: Volume, after: Volume) -> bool {
    after.clock >= before.clock && after == (Volume { clock: after.clock, ..before })
}

/// A directory record, as read from its block.
struct RawRecord {
    inode: u32,
    length: usize,
    name_length: usize,
    file_type: u8,
}

impl RawRecord {
    spec fn holds(self, block: Seq<u8>, offset: int, limit: int) -> bool {
        &&& record_at(block, offset, limit) is Ok
        &&& ({
            let record = record_at(block, offset, limit)->Ok_0;
            &&& record.inode == self.inode
            &&& record.length == self.length
            &&& record.file_type == self.file_type
            &&& record.name == block.subrange(
                offset + DIRECTORY_NAME,
                offset + DIRECTORY_NAME + self.name_length,
            )
        })
        &&& 0 <= offset
        &&& DIRECTORY_NAME <= self.length <= limit - offset
        &&& self.length % 4 == 0
        &&& self.name_length <= self.length - DIRECTORY_NAME
        &&& self.name_length <= 255
        &&& self.length <= BLOCK_BYTES
    }
}

/// A live entry whose name is still in its block.
struct Live<'a> {
    node: NodeId,
    name: Option<&'a [u8]>,
    kind: NodeKind,
}

impl<'a> Live<'a> {
    spec fn entry(self) -> Entry {
        Entry {
            node: self.node,
            name: match self.name {
                Some(name) => Some(name@),
                None => None,
            },
            kind: self.kind,
        }
    }
}

/// Parses the record at `offset`.
fn parse_record(block: &[u8; BLOCK_BYTES], offset: usize, limit: usize) -> (r: Result<
    RawRecord,
    Ext2Error,
>)
    requires
        limit <= BLOCK_BYTES,
        offset <= BLOCK_BYTES,
    ensures
        match r {
            Ok(raw) => raw.holds(block@, offset as int, limit as int),
            Err(e) => record_at(block@, offset as int, limit as int) == Err::<Record, Ext2Error>(e),
        },
{
    if offset + DIRECTORY_NAME > limit {
        return Err(Ext2Error::CorruptMetadata { field: "directory_record_length" });
    }
    let length: usize = get_u16(block, offset + DIRECTORY_RECORD_LENGTH) as usize;
    if length < DIRECTORY_NAME || length % 4 != 0 || length > limit - offset {
        return Err(Ext2Error::CorruptMetadata { field: "directory_record_length" });
    }
    let name_length: usize = block[offset + DIRECTORY_NAME_LENGTH] as usize;
    if name_length > length - DIRECTORY_NAME {
        return Err(Ext2Error::CorruptMetadata { field: "directory_name_length" });
    }
    Ok(
        RawRecord {
            inode: get_u32(block, offset + DIRECTORY_INODE),
            length,
            name_length,
            file_type: block[offset + DIRECTORY_FILE_TYPE],
        },
    )
}

/// The entry that a record holds; none if it is deleted.
fn live_entry<'a>(
    block: &'a [u8; BLOCK_BYTES],
    offset: usize,
    record: &RawRecord,
    Ghost(limit): Ghost<int>,
) -> (r: Result<Option<Live<'a>>, Ext2Error>)
    requires
        limit <= BLOCK_BYTES,
        record.holds(block@, offset as int, limit),
    ensures
        match r {
            Ok(None) => live(record_at(block@, offset as int, limit)->Ok_0) == Ok::<
                Option<Entry>,
                Ext2Error,
            >(None),
            Ok(Some(found)) => live(record_at(block@, offset as int, limit)->Ok_0) == Ok::<
                Option<Entry>,
                Ext2Error,
            >(Some(found.entry())) && (found.name is Some ==> name_check(found.name->0@) is Ok),
            Err(e) => live(record_at(block@, offset as int, limit)->Ok_0) == Err::<
                Option<Entry>,
                Ext2Error,
            >(e),
        },
{
    if record.inode == 0 {
        return Ok(None);
    }
    let kind = if record.file_type == DIRECTORY_FILETYPE_REGULAR {
        NodeKind::Regular
    } else if record.file_type == DIRECTORY_FILETYPE_DIRECTORY {
        NodeKind::Directory
    } else {
        return Err(Ext2Error::CorruptMetadata { field: "directory_file_type" });
    };
    let start: usize = offset + DIRECTORY_NAME;
    let bytes = slice_subrange(block.as_slice(), start, start + record.name_length);
    assert(bytes@ == record_at(block@, offset as int, limit)->Ok_0.name);
    let dots = (bytes.len() == 1 && bytes[0] == DOT) || (bytes.len() == 2 && bytes[0] == DOT
        && bytes[1] == DOT);
    assert(dots == dot_name(bytes@)) by {
        if dots {
            assert(bytes@ =~= seq![DOT] || bytes@ =~= seq![DOT, DOT]);
        }
    }
    let name: Option<&'a [u8]> = if dots {
        None
    } else {
        if check_name(bytes).is_err() {
            return Err(Ext2Error::CorruptMetadata { field: "directory_name" });
        }
        Some(bytes)
    };
    if record.inode < 2 || record.inode > PROFILE_INODES {
        return Err(Ext2Error::CorruptMetadata { field: "directory_inode" });
    }
    Ok(Some(Live { node: NodeId(record.inode), name, kind }))
}

/// Gets the entries of a directory, one by one.
trait Visitor {
    spec fn wf(&self) -> bool;

    /// The entries so far.
    spec fn seen(&self) -> Seq<Entry>;

    /// The name that the visitor looks for; empty if it looks for none.
    spec fn target(&self) -> Seq<u8>;

    /// Memory was refused to the visitor.
    spec fn refused(&self) -> bool;

    /// Takes the next entry, unless it has a name and memory is refused for it.
    fn visit(&mut self, found: Live<'_>) -> (r: Result<(), Ext2Error>)
        requires
            old(self).wf(),
            !old(self).refused(),
            found.name is Some ==> name_check(found.name->0@) is Ok,
        ensures
            final(self).wf(),
            final(self).target() == old(self).target(),
            match r {
                Ok(()) => !final(self).refused() && final(self).seen() == old(self).seen().push(
                    found.entry(),
                ),
                Err(e) => final(self).refused() && e == Ext2Error::Allocation && found.name is Some,
            },
    ;
}

/// Looks for the first entry with a name.
struct Finder<'a> {
    wanted: &'a [u8],
    found: Option<NodeId>,
    seen: Ghost<Seq<Entry>>,
}

impl<'a> Visitor for Finder<'a> {
    spec fn wf(&self) -> bool {
        self.found == find(self.seen@, self.wanted@)
    }

    spec fn seen(&self) -> Seq<Entry> {
        self.seen@
    }

    spec fn target(&self) -> Seq<u8> {
        self.wanted@
    }

    spec fn refused(&self) -> bool {
        false
    }

    fn visit(&mut self, found: Live<'_>) -> (r: Result<(), Ext2Error>) {
        let ghost grown = self.seen@.push(found.entry());
        assert(grown.drop_last() =~= self.seen@);
        if self.found.is_none() {
            match found.name {
                Some(name) => {
                    if same_bytes(name, self.wanted) {
                        self.found = Some(found.node);
                    }
                },
                None => {},
            }
        }
        self.seen = Ghost(grown);
        Ok(())
    }
}

/// Adds an entry to a listing, where there is room for it.
fn note_entry(entries: &mut Vec<DirEntry>, entry: DirEntry, room: bool) -> (r: Result<
    (),
    Ext2Error,
>)
    ensures
        if room {
            r is Ok && listing(final(entries)@) == listing(old(entries)@).push(entry@)
        } else {
            r == Err::<(), _>(Ext2Error::Allocation) && final(entries)@ == old(entries)@
        },
{
    if !room {
        return Err(Ext2Error::Allocation);
    }
    let ghost before = entries@;
    entries.push(entry);
    assert(listing(entries@) =~= listing(before).push(entry@));
    Ok(())
}

/// Collects the entries that have a name.
struct Collector {
    entries: Vec<DirEntry>,
    heap: Heap,
    seen: Ghost<Seq<Entry>>,
}

impl Visitor for Collector {
    spec fn wf(&self) -> bool {
        listing(self.entries@) == named(self.seen@)
    }

    spec fn seen(&self) -> Seq<Entry> {
        self.seen@
    }

    spec fn target(&self) -> Seq<u8> {
        Seq::empty()
    }

    spec fn refused(&self) -> bool {
        self.heap.refused()
    }

    fn visit(&mut self, found: Live<'_>) -> (r: Result<(), Ext2Error>) {
        let ghost grown = self.seen@.push(found.entry());
        assert(grown.drop_last() =~= self.seen@);
        match found.name {
            Some(bytes) => {
                let name = match Name::new_in(bytes, &mut self.heap) {
                    Ok(name) => name,
                    Err(_) => return Err(Ext2Error::Allocation),
                };
                let room = self.heap.reserve(&mut self.entries, 1);
                let entry = DirEntry { name, node: found.node, kind: found.kind };
                note_entry(&mut self.entries, entry, room)?;
            },
            None => {},
        }
        self.seen = Ghost(grown);
        Ok(())
    }
}

/// The number of blocks that `len` bytes take.
pub(crate) fn block_count(len: u64) -> (blocks: u32)
    requires
        len <= u32::MAX,
    ensures
        blocks == blocks_for(len as int),
{
    ((len + (BLOCK_BYTES as u64 - 1)) / BLOCK_BYTES as u64) as u32
}

/// Where the records of block `logical` end in a directory of `len` bytes.
fn dir_block_limit(len: u64, logical: u32) -> (limit: usize)
    requires
        len <= u32::MAX,
        logical < blocks_for(len as int),
    ensures
        limit == block_limit(len as int, logical as int),
        0 < limit <= BLOCK_BYTES,
{
    let remainder: usize = (len % BLOCK_BYTES as u64) as usize;
    if logical + 1 == block_count(len) && remainder != 0 {
        remainder
    } else {
        BLOCK_BYTES
    }
}

/// A file system as it is at an entry of a block that has a name, from `offset` on. There a listing
/// needs memory.
pub open spec fn short_in_block(
    v: Volume,
    block: Seq<u8>,
    offset: int,
    limit: int,
    after: Volume,
) -> bool
    decreases limit - offset,
{
    if offset >= limit || record_at(block, offset, limit) is Err {
        false
    } else {
        let record = record_at(block, offset, limit)->Ok_0;
        if record.length <= 0 {
            false
        } else {
            match live(record) {
                Err(_) => false,
                Ok(None) => short_in_block(v, block, offset + record.length, limit, after),
                Ok(Some(entry)) => {
                    let child = load_step(v, entry.node);
                    match child.result {
                        Err(_) => false,
                        Ok(inode) => if metadata_of(inode)->Ok_0.kind != entry.kind {
                            false
                        } else {
                            ||| entry.name is Some && after == child.volume
                            ||| short_in_block(
                                child.volume,
                                block,
                                offset + record.length,
                                limit,
                                after,
                            )
                        },
                    }
                },
            }
        }
    }
}

/// A file system as it is at an entry that has a name, in a block from `logical` on.
pub open spec fn short_in_blocks(
    v: Volume,
    inode: Seq<u8>,
    logical: int,
    seen: Seq<Entry>,
    after: Volume,
) -> bool
    decreases blocks_for(metadata_of(inode)->Ok_0.len as int) - logical,
{
    let len = metadata_of(inode)->Ok_0.len as int;
    if logical >= blocks_for(len) {
        false
    } else {
        let loaded = load_block_step(v, inode, logical);
        match loaded.result {
            Err(_) => false,
            Ok(block) => {
                let limit = block_limit(len, logical);
                let scanned = scan_block(loaded.volume, block, 0, limit, seen);
                ||| short_in_block(loaded.volume, block, 0, limit, after)
                ||| scanned.result is Ok && short_in_blocks(
                    scanned.volume,
                    inode,
                    logical + 1,
                    scanned.result->Ok_0,
                    after,
                )
            },
        }
    }
}

/// What listing a directory leaves where memory is refused for one of its entries: the file system
/// as it is there, before any error that comes later.
pub open spec fn short_listing(v: Volume, dir: NodeId, after: Volume) -> bool {
    let loaded = load_step(v, dir);
    &&& loaded.result is Ok
    &&& metadata_of(loaded.result->Ok_0)->Ok_0.kind == NodeKind::Directory
    &&& short_in_blocks(loaded.volume, loaded.result->Ok_0, 0, Seq::empty(), after)
}

proof fn lemma_named_grows(first: Seq<Entry>, all: Seq<Entry>)
    requires
        first.is_prefix_of(all),
    ensures
        named(first).len() <= named(all).len(),
    decreases all.len(),
{
    if first.len() < all.len() {
        assert(first.is_prefix_of(all.drop_last()));
        lemma_named_grows(first, all.drop_last());
    } else {
        assert(first =~= all);
    }
}

proof fn lemma_scan_block_extends(
    v: Volume,
    block: Seq<u8>,
    offset: int,
    limit: int,
    seen: Seq<Entry>,
)
    ensures
        scan_block(v, block, offset, limit, seen).result matches Ok(all) ==> seen.is_prefix_of(all),
    decreases limit - offset,
{
    if offset < limit {
        if let Ok(record) = record_at(block, offset, limit) {
            if record.length > 0 {
                match live(record) {
                    Ok(None) => lemma_scan_block_extends(
                        v,
                        block,
                        offset + record.length,
                        limit,
                        seen,
                    ),
                    Ok(Some(entry)) => {
                        let child = load_step(v, entry.node);
                        let more = seen.push(entry);
                        lemma_scan_block_extends(
                            child.volume,
                            block,
                            offset + record.length,
                            limit,
                            more,
                        );
                        assert(seen.is_prefix_of(more));
                    },
                    Err(_) => {},
                }
            }
        }
    }
}

proof fn lemma_scan_blocks_extends(v: Volume, inode: Seq<u8>, logical: int, seen: Seq<Entry>)
    ensures
        scan_blocks(v, inode, logical, seen).result matches Ok(all) ==> seen.is_prefix_of(all),
    decreases blocks_for(metadata_of(inode)->Ok_0.len as int) - logical,
{
    let len = metadata_of(inode)->Ok_0.len as int;
    if logical < blocks_for(len) {
        let loaded = load_block_step(v, inode, logical);
        if let Ok(block) = loaded.result {
            let limit = block_limit(len, logical);
            lemma_scan_block_extends(loaded.volume, block, 0, limit, seen);
            let scanned = scan_block(loaded.volume, block, 0, limit, seen);
            if let Ok(more) = scanned.result {
                lemma_scan_blocks_extends(scanned.volume, inode, logical + 1, more);
            }
        }
    }
}

/// A scan that goes on keeps the entries with a name.
proof fn lemma_still_named(v: Volume, block: Seq<u8>, offset: int, limit: int, seen: Seq<Entry>)
    ensures
        scan_block(v, block, offset, limit, seen).result matches Ok(all) ==> named(all).len()
            >= named(seen).len(),
{
    lemma_scan_block_extends(v, block, offset, limit, seen);
    if let Ok(all) = scan_block(v, block, offset, limit, seen).result {
        lemma_named_grows(seen, all);
    }
}

/// A scan finds an entry with a name, unless it fails.
pub open spec fn has_names(scan: Result<Seq<Entry>, Ext2Error>) -> bool {
    scan matches Ok(entries) ==> named(entries).len() > 0
}

/// Hands the entries of a block to a visitor.
fn visit_block<D: BlockDevice, V: Visitor>(
    fs: &mut Ext2<D>,
    bytes: &[u8; BLOCK_BYTES],
    limit: usize,
    visitor: &mut V,
) -> (r: Result<(), Ext2Error>)
    requires
        old(fs).wf(),
        old(visitor).wf(),
        !old(visitor).refused(),
        limit <= BLOCK_BYTES,
    ensures
        final(fs).wf(),
        final(visitor).wf(),
        final(visitor).target() == old(visitor).target(),
        only_read(old(fs).volume(), final(fs).volume()),
        ({
            let scanned = scan_block(
                old(fs).volume(),
                bytes@,
                0,
                limit as int,
                old(visitor).seen(),
            );
            if final(visitor).refused() {
                &&& r == Err::<(), Ext2Error>(Ext2Error::Allocation)
                &&& short_in_block(
                    old(fs).volume(),
                    bytes@,
                    0,
                    limit as int,
                    final(fs).volume(),
                )
                &&& has_names(scanned.result)
            } else {
                (Step {
                    result: match r {
                        Ok(()) => Ok(final(visitor).seen()),
                        Err(e) => Err(e),
                    },
                    volume: final(fs).volume(),
                }) == scanned
            }
        }),
{
    let ghost scanned = scan_block(fs.volume(), bytes@, 0, limit as int, visitor.seen());
    let mut offset: usize = 0;
    while offset < limit
        invariant
            fs.wf(),
            visitor.wf(),
            !visitor.refused(),
            visitor.target() == old(visitor).target(),
            only_read(old(fs).volume(), fs.volume()),
            offset <= limit <= BLOCK_BYTES,
            scanned == scan_block(
                old(fs).volume(),
                bytes@,
                0,
                limit as int,
                old(visitor).seen(),
            ),
            scanned == scan_block(
                fs.volume(),
                bytes@,
                offset as int,
                limit as int,
                visitor.seen(),
            ),
            forall|after: Volume| #[trigger]
                short_in_block(fs.volume(), bytes@, offset as int, limit as int, after)
                    ==> short_in_block(old(fs).volume(), bytes@, 0, limit as int, after),
        decreases limit - offset,
    {
        let ghost at_entry = fs.volume();
        let record = parse_record(bytes, offset, limit)?;
        match live_entry(bytes, offset, &record, Ghost(limit as int))? {
            None => {},
            Some(found) => {
                let child = inode::load(fs, found.node)?;
                let child_metadata = child.metadata()?;
                if child_metadata.kind != found.kind {
                    return Err(Ext2Error::CorruptMetadata { field: "directory_file_type" });
                }
                proof {
                    let more = visitor.seen().push(found.entry());
                    assert(more.drop_last() =~= visitor.seen());
                    lemma_still_named(
                        fs.volume(),
                        bytes@,
                        offset + record.length,
                        limit as int,
                        more,
                    );
                    assert(found.name is Some ==> short_in_block(
                        at_entry,
                        bytes@,
                        offset as int,
                        limit as int,
                        fs.volume(),
                    ));
                }
                visitor.visit(found)?;
            },
        }
        assert forall|after: Volume| #[trigger]
            short_in_block(
                fs.volume(),
                bytes@,
                offset + record.length,
                limit as int,
                after,
            ) implies short_in_block(at_entry, bytes@, offset as int, limit as int, after) by {}
        offset = offset + record.length;
    }
    Ok(())
}

/// What holds of a block holds of the blocks from it on, and so does what holds behind it.
proof fn lemma_short_in_blocks(
    v: Volume,
    inode: Seq<u8>,
    logical: int,
    seen: Seq<Entry>,
    after: Volume,
)
    requires
        logical < blocks_for(metadata_of(inode)->Ok_0.len as int),
        load_block_step(v, inode, logical).result is Ok,
    ensures
        ({
            let len = metadata_of(inode)->Ok_0.len as int;
            let loaded = load_block_step(v, inode, logical);
            let block = loaded.result->Ok_0;
            let limit = block_limit(len, logical);
            let scanned = scan_block(loaded.volume, block, 0, limit, seen);
            &&& short_in_block(loaded.volume, block, 0, limit, after) ==> short_in_blocks(
                v,
                inode,
                logical,
                seen,
                after,
            )
            &&& scanned.result matches Ok(more) ==> (short_in_blocks(
                scanned.volume,
                inode,
                logical + 1,
                more,
                after,
            ) ==> short_in_blocks(v, inode, logical, seen, after))
        }),
{
}

/// Scanning on from a block is scanning the block and then the next.
proof fn lemma_scan_blocks_next(v: Volume, inode: Seq<u8>, logical: int, seen: Seq<Entry>)
    requires
        logical < blocks_for(metadata_of(inode)->Ok_0.len as int),
        load_block_step(v, inode, logical).result is Ok,
    ensures
        ({
            let len = metadata_of(inode)->Ok_0.len as int;
            let loaded = load_block_step(v, inode, logical);
            let scanned = scan_block(
                loaded.volume,
                loaded.result->Ok_0,
                0,
                block_limit(len, logical),
                seen,
            );
            let whole = scan_blocks(v, inode, logical, seen);
            &&& scanned.result matches Err(e) ==> whole == scanned.volume.fail::<Seq<Entry>>(e)
            &&& scanned.result matches Ok(more) ==> {
                &&& whole == scan_blocks(scanned.volume, inode, logical + 1, more)
                &&& has_names(Ok(more)) ==> has_names(whole.result)
            }
        }),
{
    let len = metadata_of(inode)->Ok_0.len as int;
    let loaded = load_block_step(v, inode, logical);
    let scanned = scan_block(
        loaded.volume,
        loaded.result->Ok_0,
        0,
        block_limit(len, logical),
        seen,
    );
    if let Ok(more) = scanned.result {
        lemma_scan_blocks_extends(scanned.volume, inode, logical + 1, more);
        if let Ok(all) = scan_blocks(v, inode, logical, seen).result {
            lemma_named_grows(more, all);
        }
    }
}

/// Hands the entries of a directory to a visitor.
fn visit<D: BlockDevice, V: Visitor>(fs: &mut Ext2<D>, dir: NodeId, visitor: &mut V) -> (r: Result<
    (),
    Ext2Error,
>)
    requires
        old(fs).wf(),
        old(visitor).wf(),
        !old(visitor).refused(),
        old(visitor).seen() == Seq::<Entry>::empty(),
    ensures
        final(fs).wf(),
        final(visitor).wf(),
        final(visitor).target() == old(visitor).target(),
        only_read(old(fs).volume(), final(fs).volume()),
        if final(visitor).refused() {
            &&& r == Err::<(), Ext2Error>(Ext2Error::Allocation)
            &&& short_listing(old(fs).volume(), dir, final(fs).volume())
            &&& has_names(scan_step(old(fs).volume(), dir, Seq::empty()).result)
        } else {
            (Step {
                result: match r {
                    Ok(()) => Ok(final(visitor).seen()),
                    Err(e) => Err(e),
                },
                volume: final(fs).volume(),
            }) == scan_step(old(fs).volume(), dir, Seq::empty())
        },
{
    let inode = inode::load(fs, dir)?;
    let metadata = inode.metadata()?;
    if metadata.kind != NodeKind::Directory {
        return Err(Ext2Error::WrongNodeKind);
    }
    let blocks: u32 = block_count(metadata.len);
    let ghost whole = scan_step(old(fs).volume(), dir, Seq::empty());
    let ghost len = metadata.len as int;
    let mut bytes = [0u8; BLOCK_BYTES];
    let mut logical: u32 = 0;
    while logical < blocks
        invariant
            fs.wf(),
            visitor.wf(),
            !visitor.refused(),
            visitor.target() == old(visitor).target(),
            only_read(old(fs).volume(), fs.volume()),
            logical <= blocks,
            blocks == blocks_for(len),
            len == metadata.len,
            len <= u32::MAX,
            metadata_of(inode.bytes@) == Ok::<_, Ext2Error>(metadata),
            whole == scan_step(old(fs).volume(), dir, Seq::empty()),
            whole == scan_blocks(fs.volume(), inode.bytes@, logical as int, visitor.seen()),
            forall|after: Volume| #[trigger]
                short_in_blocks(
                    fs.volume(),
                    inode.bytes@,
                    logical as int,
                    visitor.seen(),
                    after,
                ) ==> short_listing(old(fs).volume(), dir, after),
        decreases blocks - logical,
    {
        let ghost at_block = fs.volume();
        let ghost seen = visitor.seen();
        let block: u32 = inode::resolve_block(fs, &inode, logical)?;
        fs.read_block(block, &mut bytes)?;
        let limit: usize = dir_block_limit(metadata.len, logical);
        proof {
            lemma_scan_blocks_next(at_block, inode.bytes@, logical as int, seen);
        }
        let visited = visit_block(fs, &bytes, limit, visitor);
        assert forall|after: Volume| #[trigger]
            short_in_blocks(
                fs.volume(),
                inode.bytes@,
                logical + 1,
                visitor.seen(),
                after,
            ) && visited is Ok implies short_in_blocks(
            at_block,
            inode.bytes@,
            logical as int,
            seen,
            after,
        ) by {
            lemma_short_in_blocks(at_block, inode.bytes@, logical as int, seen, after);
        }
        proof {
            lemma_short_in_blocks(at_block, inode.bytes@, logical as int, seen, fs.volume());
        }
        visited?;
        logical = logical + 1;
    }
    Ok(())
}

/// Finds the node that a name stands for.
pub(crate) fn lookup<D: BlockDevice>(fs: &mut Ext2<D>, dir: NodeId, wanted: &Name) -> (r: Result<
    NodeId,
    Ext2Error,
>)
    requires
        old(fs).wf(),
    ensures
        final(fs).wf(),
        only_read(old(fs).volume(), final(fs).volume()),
        (Step { result: r, volume: final(fs).volume() }) == lookup_step(
            old(fs).volume(),
            dir,
            wanted@,
        ),
{
    let mut finder = Finder { wanted: wanted.as_bytes(), found: None, seen: Ghost(Seq::empty()) };
    visit(fs, dir, &mut finder)?;
    match finder.found {
        Some(node) => Ok(node),
        None => Err(Ext2Error::NotFound),
    }
}

/// Lists a directory.
pub(crate) fn read_dir<D: BlockDevice>(fs: &mut Ext2<D>, dir: NodeId, heap: &mut Heap) -> (r: Result<
    Vec<DirEntry>,
    Ext2Error,
>)
    requires
        old(fs).wf(),
    ensures
        final(fs).wf(),
        only_read(old(fs).volume(), final(fs).volume()),
        listed(old(fs).volume(), dir, final(heap).refused(), r, final(fs).volume()),
{
    let mut collector = Collector {
        entries: Vec::new(),
        heap: Heap::new(),
        seen: Ghost(Seq::empty()),
    };
    assert(listing(collector.entries@) =~= named(collector.seen@));
    let visited = visit(fs, dir, &mut collector);
    *heap = collector.heap;
    match visited {
        Ok(()) => Ok(collector.entries),
        Err(error) => Err(error),
    }
}

/// What listing a directory returns and leaves, where memory was refused or was not. It can be
/// refused only for an entry that is listed.
pub open spec fn listed(
    before: Volume,
    dir: NodeId,
    refused: bool,
    r: Result<Vec<DirEntry>, Ext2Error>,
    after: Volume,
) -> bool {
    if refused {
        &&& r is Err && r->Err_0 == Ext2Error::Allocation
        &&& short_listing(before, dir, after)
        &&& read_dir_step(before, dir).result != Ok::<Seq<EntryView>, Ext2Error>(Seq::empty())
    } else {
        (Step {
            result: match r {
                Ok(entries) => Ok(listing(entries@)),
                Err(e) => Err(e),
            },
            volume: after,
        }) == read_dir_step(before, dir)
    }
}

/// The bytes that a record with a name of `name_length` bytes needs.
pub open spec fn record_bytes(name_length: int) -> int {
    (name_length + DIRECTORY_NAME + 3) / 4 * 4
}

/// The bytes of a record of `length` bytes.
#[verifier::opaque]
pub open spec fn encoded(node: u32, length: int, file_type: u8, name: Seq<u8>) -> Seq<u8> {
    to_le32(node) + to_le16(length as u16) + seq![name.len() as u8, file_type] + name + zeros(
        (length - DIRECTORY_NAME - name.len()) as nat,
    )
}

/// Whether the records of a block from `offset` on are sound and none has the name.
pub open spec fn absent(block: Seq<u8>, offset: int, limit: int, name: Seq<u8>) -> Result<
    (),
    Ext2Error,
>
    decreases limit - offset,
{
    if offset >= limit {
        Ok(())
    } else {
        match record_at(block, offset, limit) {
            Err(e) => Err(e),
            Ok(record) => if record.length <= 0 {
                Ok(())
            } else {
                match live(record) {
                    Err(e) => Err(e),
                    Ok(Some(entry)) => if entry.name == Some(name) {
                        Err(Ext2Error::AlreadyExists)
                    } else {
                        absent(block, offset + record.length, limit, name)
                    },
                    Ok(None) => absent(block, offset + record.length, limit, name),
                }
            },
        }
    }
}

/// The block with an entry put into the first record from `offset` on that has room: behind the
/// name of a live record, or in place of a deleted one.
pub open spec fn placed(
    block: Seq<u8>,
    offset: int,
    limit: int,
    node: u32,
    file_type: u8,
    name: Seq<u8>,
) -> Option<Seq<u8>>
    decreases limit - offset,
{
    if offset >= limit || record_at(block, offset, limit) is Err {
        None
    } else {
        let record = record_at(block, offset, limit)->Ok_0;
        let needed = record_bytes(name.len() as int);
        let used = record_bytes(record.name.len() as int);
        if record.length <= 0 {
            None
        } else if record.inode != 0 && record.length - used >= needed {
            Some(behind(block, offset, used, record.length, node, file_type, name))
        } else if record.inode == 0 && record.length >= needed {
            Some(in_place(block, offset, record.length, node, file_type, name))
        } else {
            placed(block, offset + record.length, limit, node, file_type, name)
        }
    }
}

/// The block with the record at `offset` cut to the bytes that it uses and an entry behind it.
pub open spec fn behind(
    block: Seq<u8>,
    offset: int,
    used: int,
    length: int,
    node: u32,
    file_type: u8,
    name: Seq<u8>,
) -> Seq<u8> {
    splice(
        splice(block, offset + DIRECTORY_RECORD_LENGTH, to_le16(used as u16)),
        offset + used,
        encoded(node, length - used, file_type, name),
    )
}

/// The block with an entry in place of the deleted record at `offset`. What the entry does not
/// need stays a deleted record where it is long enough to be one.
pub open spec fn in_place(
    block: Seq<u8>,
    offset: int,
    length: int,
    node: u32,
    file_type: u8,
    name: Seq<u8>,
) -> Seq<u8> {
    let needed = record_bytes(name.len() as int);
    let rest = length - needed;
    let filled = splice(block, offset, encoded(node, needed, file_type, name));
    if rest >= DIRECTORY_NAME {
        splice(
            filled,
            offset + needed,
            to_le32(0) + to_le16(rest as u16) + seq![0u8, 0u8],
        )
    } else if rest > 0 {
        splice(filled, offset + DIRECTORY_RECORD_LENGTH, to_le16(length as u16))
    } else {
        filled
    }
}

/// Finds the block that holds logical block `logical` of a directory. A directory has no holes.
pub open spec fn resolve_dir_step(v: Volume, inode: Seq<u8>, logical: int) -> Step<u32> {
    let s = resolve_step(v, inode, logical);
    if s.result == Err::<u32, Ext2Error>(Ext2Error::SparseFile) {
        s.volume.fail(corrupt("directory_block"))
    } else {
        s
    }
}

/// What is inserted into a directory.
pub struct NewEntry {
    pub node: u32,
    pub file_type: u8,
    pub name: Seq<u8>,
}

/// Puts an entry into the first block from `logical` on that has room. Says whether one had.
pub open spec fn insert_existing(v: Volume, inode: Seq<u8>, logical: int, new: NewEntry) -> Step<
    bool,
>
    decreases blocks_for(metadata_of(inode)->Ok_0.len as int) - logical,
{
    let len = metadata_of(inode)->Ok_0.len as int;
    if logical >= blocks_for(len) {
        v.done(false)
    } else {
        let found = resolve_dir_step(v, inode, logical);
        match found.result {
            Err(e) => found.volume.fail(e),
            Ok(number) => {
                let loaded = found.volume.read_for_update(number);
                let limit = block_limit(len, logical);
                match loaded.result {
                    Err(e) => loaded.volume.fail(e),
                    Ok(block) => match absent(block, 0, limit, new.name) {
                        Err(e) => loaded.volume.fail(e),
                        Ok(()) => match placed(block, 0, limit, new.node, new.file_type, new.name) {
                            Some(changed) => loaded.volume.write_through(number, changed).and_then(
                                |u: (), v: Volume| v.done(true),
                            ),
                            None => insert_existing(loaded.volume, inode, logical + 1, new),
                        },
                    },
                }
            },
        }
    }
}

/// The first direct pointer from `index` on that is zero.
pub open spec fn free_slot(inode: Seq<u8>, index: int) -> Option<int>
    decreases DIRECT_BLOCKS - index,
{
    if index >= DIRECT_BLOCKS {
        None
    } else if pointer_of(inode, index) == 0 {
        Some(index)
    } else {
        free_slot(inode, index + 1)
    }
}

/// A directory's record with one more block.
pub open spec fn grown(inode: Seq<u8>, slot: int, block: u32) -> Seq<u8> {
    let len = (metadata_of(inode)->Ok_0.len + BLOCK_BYTES) as u32;
    let sectors = (le32(inode, INODE_BLOCKS as int) + 8) as u32;
    splice(
        splice(splice(inode, INODE_SIZE_LO as int, to_le32(len)), INODE_BLOCKS as int, to_le32(sectors)),
        INODE_BLOCK + 4 * slot,
        to_le32(block),
    )
}

/// Gives a directory one more block, with the entry as its only record. The block is first
/// written without the entry, so that the directory is sound when the block becomes part of it;
/// the entry is written last.
#[verifier::opaque]
pub open spec fn insert_fresh(v: Volume, parent: NodeId, new: NewEntry) -> Step<()> {
    claim_block_step(v).and_then(
        |block: u32, v: Volume|
            v.write_through(
                block,
                splice(zeros(BLOCK_BYTES as nat), DIRECTORY_RECORD_LENGTH as int, to_le16(4096)),
            ).and_then(
                |u: (), v: Volume|
                    load_step(v, parent).and_then(
                        |inode: Seq<u8>, v: Volume|
                            if le32(inode, INODE_BLOCKS as int) + 8 > u32::MAX {
                                v.fail(corrupt("inode_blocks"))
                            } else {
                                match free_slot(inode, 0) {
                                    None => v.fail(Ext2Error::NoSpace),
                                    Some(slot) => store_step(v, parent, grown(inode, slot, block)).and_then(
                                        |u: (), v: Volume|
                                            v.write_through(
                                                block,
                                                encoded(
                                                    new.node,
                                                    BLOCK_BYTES as int,
                                                    new.file_type,
                                                    new.name,
                                                ),
                                            ),
                                    ),
                                }
                            },
                    ),
            ),
    )
}

/// Inserts an entry into a directory.
#[verifier::opaque]
pub open spec fn insert_step(v: Volume, parent: NodeId, new: NewEntry) -> Step<()> {
    match v.writable() {
        Err(e) => v.fail(e),
        Ok(()) => load_step(v, parent).and_then(
            |inode: Seq<u8>, v: Volume|
                if metadata_of(inode)->Ok_0.kind != NodeKind::Directory {
                    v.fail(Ext2Error::WrongNodeKind)
                } else {
                    insert_existing(v, inode, 0, new).and_then(
                        |done: bool, v: Volume|
                            if done {
                                v.done(())
                            } else {
                                insert_fresh(v, parent, new)
                            },
                    )
                },
        ),
    }
}

/// The bytes that a record with a name of `name_length` bytes needs.
fn needed_bytes(name_length: usize) -> (bytes: usize)
    requires
        name_length <= 255,
    ensures
        bytes == record_bytes(name_length as int),
        bytes % 4 == 0,
        name_length + DIRECTORY_NAME <= bytes <= 264,
{
    (name_length + DIRECTORY_NAME + 3) / 4 * 4
}

/// Writes a record of `length` bytes at `offset`.
pub(crate) fn write_entry(
    block: &mut [u8; BLOCK_BYTES],
    offset: usize,
    length: usize,
    node: u32,
    file_type: u8,
    name: &[u8],
)
    requires
        name@.len() <= 255,
        DIRECTORY_NAME + name@.len() <= length,
        offset + length <= BLOCK_BYTES,
    ensures
        final(block)@ == splice(
            old(block)@,
            offset as int,
            encoded(node, length as int, file_type, name@),
        ),
        encoded(node, length as int, file_type, name@).len() == length,
{
    proof {
        reveal(encoded);
    }
    let ghost before = block@;
    put_u32(block, offset + DIRECTORY_INODE, node);
    put_u16(block, offset + DIRECTORY_RECORD_LENGTH, length as u16);
    block[offset + DIRECTORY_NAME_LENGTH] = name.len() as u8;
    block[offset + DIRECTORY_FILE_TYPE] = file_type;
    put_bytes(block, offset + DIRECTORY_NAME, name);
    let end: usize = offset + DIRECTORY_NAME + name.len();
    clear_bytes(block, end, offset + length - end);
    assert(block@ =~= splice(
        before,
        offset as int,
        encoded(node, length as int, file_type, name@),
    ));
}

/// Tests that the records of a block are sound and that none has the name.
fn require_absent(
    block: &[u8; BLOCK_BYTES],
    limit: usize,
    name: &[u8],
) -> (r: Result<(), Ext2Error>)
    requires
        limit <= BLOCK_BYTES,
    ensures
        r == absent(block@, 0, limit as int, name@),
{
    let mut offset: usize = 0;
    while offset < limit
        invariant
            offset <= limit <= BLOCK_BYTES,
            absent(block@, 0, limit as int, name@) == absent(
                block@,
                offset as int,
                limit as int,
                name@,
            ),
        decreases limit - offset,
    {
        let record = parse_record(block, offset, limit)?;
        match live_entry(block, offset, &record, Ghost(limit as int))? {
            Some(found) => {
                match found.name {
                    Some(existing) => {
                        if same_bytes(existing, name) {
                            return Err(Ext2Error::AlreadyExists);
                        }
                    },
                    None => {},
                }
            },
            None => {},
        }
        offset = offset + record.length;
    }
    Ok(())
}

/// Puts an entry into the first record of a block that has room. Says whether one had.
#[verifier::rlimit(40)]
fn place(
    block: &mut [u8; BLOCK_BYTES],
    limit: usize,
    node: u32,
    file_type: u8,
    name: &[u8],
) -> (done: bool)
    requires
        limit <= BLOCK_BYTES,
        name@.len() <= 255,
    ensures
        match placed(old(block)@, 0, limit as int, node, file_type, name@) {
            Some(changed) => done && final(block)@ == changed,
            None => !done && final(block)@ == old(block)@,
        },
{
    let needed: usize = needed_bytes(name.len());
    let mut offset: usize = 0;
    while offset < limit
        invariant
            offset <= limit <= BLOCK_BYTES,
            name@.len() <= 255,
            needed == record_bytes(name@.len() as int),
            needed % 4 == 0,
            name@.len() + DIRECTORY_NAME <= needed <= 264,
            block@ == old(block)@,
            placed(block@, 0, limit as int, node, file_type, name@) == placed(
                block@,
                offset as int,
                limit as int,
                node,
                file_type,
                name@,
            ),
        decreases limit - offset,
    {
        let record = match parse_record(block, offset, limit) {
            Ok(record) => record,
            Err(_) => return false,
        };
        if record.inode != 0 {
            let used: usize = needed_bytes(record.name_length);
            if record.length >= used && record.length - used >= needed {
                put_u16(block, offset + DIRECTORY_RECORD_LENGTH, used as u16);
                write_entry(block, offset + used, record.length - used, node, file_type, name);
                return true;
            }
        } else if record.length >= needed {
            let rest: usize = record.length - needed;
            write_entry(block, offset, needed, node, file_type, name);
            if rest >= DIRECTORY_NAME {
                let next: usize = offset + needed;
                let ghost filled = block@;
                put_u32(block, next + DIRECTORY_INODE, 0);
                put_u16(block, next + DIRECTORY_RECORD_LENGTH, rest as u16);
                block[next + DIRECTORY_NAME_LENGTH] = 0;
                block[next + DIRECTORY_FILE_TYPE] = 0;
                assert(block@ =~= splice(
                    filled,
                    next as int,
                    to_le32(0) + to_le16(rest as u16) + seq![0u8, 0u8],
                ));
            } else if rest > 0 {
                put_u16(block, offset + DIRECTORY_RECORD_LENGTH, record.length as u16);
            }
            return true;
        }
        offset = offset + record.length;
    }
    false
}

/// Finds the block that holds a logical block of a directory.
fn resolve_dir_block<D: BlockDevice>(fs: &mut Ext2<D>, inode: &Inode, logical: u32) -> (r: Result<
    u32,
    Ext2Error,
>)
    requires
        old(fs).wf(),
    ensures
        final(fs).wf(),
        (Step { result: r, volume: final(fs).volume() }) == resolve_dir_step(
            old(fs).volume(),
            inode.bytes@,
            logical as int,
        ),
{
    match inode::resolve_block(fs, inode, logical) {
        Ok(block) => Ok(block),
        Err(Ext2Error::SparseFile) => Err(
            Ext2Error::CorruptMetadata { field: "directory_block" },
        ),
        Err(error) => Err(error),
    }
}

/// Inserts an entry into a directory.
pub(crate) fn insert<D: BlockDevice>(
    fs: &mut Ext2<D>,
    parent: NodeId,
    name: &Name,
    child: NodeId,
    kind: NodeKind,
) -> (r: Result<(), Ext2Error>)
    requires
        old(fs).wf(),
    ensures
        final(fs).wf(),
        (Step { result: r, volume: final(fs).volume() }) == insert_step(
            old(fs).volume(),
            parent,
            (NewEntry { node: child.0, file_type: type_of(kind), name: name@ }),
        ),
{
    proof {
        reveal(insert_step);
    }
    fs.require_writable()?;
    let parent_inode = inode::load(fs, parent)?;
    let metadata = parent_inode.metadata()?;
    if metadata.kind != NodeKind::Directory {
        return Err(Ext2Error::WrongNodeKind);
    }
    let name_bytes = name.as_bytes();
    let file_type: u8 = match kind {
        NodeKind::Regular => DIRECTORY_FILETYPE_REGULAR,
        NodeKind::Directory => DIRECTORY_FILETYPE_DIRECTORY,
    };
    let ghost new = NewEntry { node: child.0, file_type, name: name@ };
    let ghost whole = insert_step(old(fs).volume(), parent, new);
    let blocks: u32 = block_count(metadata.len);
    let mut bytes = [0u8; BLOCK_BYTES];
    let mut logical: u32 = 0;
    while logical < blocks
        invariant
            fs.wf(),
            logical <= blocks,
            blocks == blocks_for(metadata.len as int),
            metadata.len <= u32::MAX,
            metadata_of(parent_inode.bytes@) == Ok::<_, Ext2Error>(metadata),
            name_bytes@ == name@,
            name_bytes@.len() <= 255,
            new == (NewEntry { node: child.0, file_type, name: name@ }),
            whole == insert_step(old(fs).volume(), parent, new),
            file_type == type_of(kind),
            whole == insert_existing(
                fs.volume(),
                parent_inode.bytes@,
                logical as int,
                new,
            ).and_then(
                |done: bool, v: Volume|
                    if done {
                        v.done(())
                    } else {
                        insert_fresh(v, parent, new)
                    },
            ),
        decreases blocks - logical,
    {
        let block: u32 = resolve_dir_block(fs, &parent_inode, logical)?;
        fs.read_block_for_update(block, &mut bytes)?;
        let limit: usize = dir_block_limit(metadata.len, logical);
        require_absent(&bytes, limit, name_bytes)?;
        if place(&mut bytes, limit, child.0, file_type, name_bytes) {
            return fs.write_through(block, &bytes);
        }
        logical = logical + 1;
    }
    assert(whole == insert_fresh(fs.volume(), parent, new));
    insert_into_fresh_block(fs, parent, name_bytes, child, file_type)
}

/// Gives a directory one more block, with an entry as its only record.
fn insert_into_fresh_block<D: BlockDevice>(
    fs: &mut Ext2<D>,
    parent: NodeId,
    name: &[u8],
    child: NodeId,
    file_type: u8,
) -> (r: Result<(), Ext2Error>)
    requires
        old(fs).wf(),
        name@.len() <= 255,
    ensures
        final(fs).wf(),
        (Step { result: r, volume: final(fs).volume() }) == insert_fresh(
            old(fs).volume(),
            parent,
            (NewEntry { node: child.0, file_type, name: name@ }),
        ),
{
    proof {
        reveal(insert_fresh);
    }
    let block: u32 = claim_block(fs)?;
    let mut empty = [0u8; BLOCK_BYTES];
    assert(empty@ =~= zeros(BLOCK_BYTES as nat));
    put_u16(&mut empty, DIRECTORY_RECORD_LENGTH, BLOCK_BYTES as u16);
    fs.write_through(block, &empty)?;
    let mut image = inode::load(fs, parent)?;
    let len: u64 = image.metadata()?.len;
    let ghost record = image.bytes@;
    let sectors: u32 = get_u32(&image.bytes, INODE_BLOCKS);
    if sectors > u32::MAX - 8 {
        return Err(Ext2Error::CorruptMetadata { field: "inode_blocks" });
    }
    let mut slot: usize = 0;
    while slot < 12 && image.pointer(slot) != 0
        invariant
            slot <= 12,
            image.bytes@ == record,
            free_slot(record, 0) == free_slot(record, slot as int),
        decreases 12 - slot,
    {
        slot = slot + 1;
    }
    if slot == 12 {
        return Err(Ext2Error::NoSpace);
    }
    assert(free_slot(record, 0) == Some(slot as int));
    put_u32(&mut image.bytes, INODE_SIZE_LO, (len + BLOCK_BYTES as u64) as u32);
    put_u32(&mut image.bytes, INODE_BLOCKS, sectors + 8);
    put_u32(&mut image.bytes, INODE_BLOCK + 4 * slot, block);
    inode::store(fs, parent, &image)?;
    let mut filled = [0u8; BLOCK_BYTES];
    write_entry(&mut filled, 0, BLOCK_BYTES, child.0, file_type, name);
    assert(filled@ =~= encoded(child.0, BLOCK_BYTES as int, file_type, name@));
    fs.write_through(block, &filled)
}

/// Finds the record with a name from `offset` on, where `previous` is the record before. Gives
/// its node and the block without it: joined to the record before, or else marked as deleted.
pub open spec fn without(
    block: Seq<u8>,
    previous: Option<int>,
    offset: int,
    limit: int,
    name: Seq<u8>,
) -> Result<Option<(NodeId, Seq<u8>)>, Ext2Error>
    decreases limit - offset,
{
    if offset >= limit {
        Ok(None)
    } else {
        match record_at(block, offset, limit) {
            Err(e) => Err(e),
            Ok(record) => if record.length <= 0 {
                Ok(None)
            } else {
                match live(record) {
                    Err(e) => Err(e),
                    Ok(entry) => if entry is Some && entry->0.name == Some(name) {
                        Ok(
                            Some(
                                (
                                    NodeId(record.inode),
                                    match previous {
                                        Some(start) => splice(
                                            block,
                                            start + DIRECTORY_RECORD_LENGTH,
                                            to_le16((offset + record.length - start) as u16),
                                        ),
                                        None => splice(block, offset + DIRECTORY_INODE, to_le32(0)),
                                    },
                                ),
                            ),
                        )
                    } else {
                        without(block, Some(offset), offset + record.length, limit, name)
                    },
                }
            },
        }
    }
}

/// Removes an entry from the first block from `logical` on that has it.
pub open spec fn remove_from(
    v: Volume,
    parent: NodeId,
    inode: Seq<u8>,
    logical: int,
    name: Seq<u8>,
) -> Step<NodeId>
    decreases blocks_for(metadata_of(inode)->Ok_0.len as int) - logical,
{
    let len = metadata_of(inode)->Ok_0.len as int;
    if logical >= blocks_for(len) {
        v.fail(Ext2Error::NotFound)
    } else {
        let found = resolve_dir_step(v, inode, logical);
        match found.result {
            Err(e) => found.volume.fail(e),
            Ok(number) => {
                let loaded = found.volume.read_for_update(number);
                match loaded.result {
                    Err(e) => loaded.volume.fail(e),
                    Ok(block) => match without(block, None, 0, block_limit(len, logical), name) {
                        Err(e) => loaded.volume.fail(e),
                        Ok(None) => remove_from(loaded.volume, parent, inode, logical + 1, name),
                        Ok(Some((node, changed))) => loaded.volume.write_through(
                            number,
                            changed,
                        ).and_then(
                            |u: (), v: Volume|
                                load_step(v, parent).and_then(
                                    |inode: Seq<u8>, v: Volume| store_step(v, parent, inode),
                                ),
                        ).and_then(|u: (), v: Volume| v.done(node)),
                    },
                }
            },
        }
    }
}

/// Removes an entry from a directory, and gives the node that it named.
#[verifier::opaque]
pub open spec fn remove_step(v: Volume, parent: NodeId, name: Seq<u8>) -> Step<NodeId> {
    match v.writable() {
        Err(e) => v.fail(e),
        Ok(()) => load_step(v, parent).and_then(
            |inode: Seq<u8>, v: Volume|
                if metadata_of(inode)->Ok_0.kind != NodeKind::Directory {
                    v.fail(Ext2Error::WrongNodeKind)
                } else {
                    remove_from(v, parent, inode, 0, name)
                },
        ),
    }
}

/// Removes the entry with a name from a block, and gives its node.
#[verifier::rlimit(40)]
fn take_out(block: &mut [u8; BLOCK_BYTES], limit: usize, name: &[u8]) -> (r: Result<
    Option<NodeId>,
    Ext2Error,
>)
    requires
        limit <= BLOCK_BYTES,
    ensures
        match without(old(block)@, None, 0, limit as int, name@) {
            Err(e) => r == Err::<Option<NodeId>, Ext2Error>(e),
            Ok(None) => r == Ok::<Option<NodeId>, Ext2Error>(None),
            Ok(Some((node, changed))) => r == Ok::<Option<NodeId>, Ext2Error>(Some(node))
                && final(block)@ == changed,
        },
{
    let mut previous: Option<usize> = None;
    let mut offset: usize = 0;
    while offset < limit
        invariant
            offset <= limit <= BLOCK_BYTES,
            block@ == old(block)@,
            previous is Some ==> previous->0 + 8 <= offset,
            without(block@, None, 0, limit as int, name@) == without(
                block@,
                match previous {
                    Some(start) => Some(start as int),
                    None => None,
                },
                offset as int,
                limit as int,
                name@,
            ),
        decreases limit - offset,
    {
        let record = parse_record(block, offset, limit)?;
        let target = match live_entry(block, offset, &record, Ghost(limit as int))? {
            Some(found) => match found.name {
                Some(existing) => same_bytes(existing, name),
                None => false,
            },
            None => false,
        };
        if target {
            match previous {
                Some(start) => {
                    let merged: usize = offset + record.length - start;
                    put_u16(block, start + DIRECTORY_RECORD_LENGTH, merged as u16);
                },
                None => {
                    put_u32(block, offset + DIRECTORY_INODE, 0);
                },
            }
            return Ok(Some(NodeId(record.inode)));
        }
        previous = Some(offset);
        offset = offset + record.length;
    }
    Ok(None)
}

/// Removes an entry from a directory, and gives the node that it named.
pub(crate) fn remove<D: BlockDevice>(fs: &mut Ext2<D>, parent: NodeId, name: &Name) -> (r: Result<
    NodeId,
    Ext2Error,
>)
    requires
        old(fs).wf(),
    ensures
        final(fs).wf(),
        (Step { result: r, volume: final(fs).volume() }) == remove_step(
            old(fs).volume(),
            parent,
            name@,
        ),
{
    proof {
        reveal(remove_step);
    }
    fs.require_writable()?;
    let parent_inode = inode::load(fs, parent)?;
    let metadata = parent_inode.metadata()?;
    if metadata.kind != NodeKind::Directory {
        return Err(Ext2Error::WrongNodeKind);
    }
    let wanted = name.as_bytes();
    let ghost whole = remove_step(old(fs).volume(), parent, name@);
    let blocks: u32 = block_count(metadata.len);
    let mut bytes = [0u8; BLOCK_BYTES];
    let mut logical: u32 = 0;
    while logical < blocks
        invariant
            fs.wf(),
            logical <= blocks,
            blocks == blocks_for(metadata.len as int),
            metadata.len <= u32::MAX,
            metadata_of(parent_inode.bytes@) == Ok::<_, Ext2Error>(metadata),
            wanted@ == name@,
            whole == remove_step(old(fs).volume(), parent, name@),
            whole == remove_from(
                fs.volume(),
                parent,
                parent_inode.bytes@,
                logical as int,
                name@,
            ),
        decreases blocks - logical,
    {
        let block: u32 = resolve_dir_block(fs, &parent_inode, logical)?;
        fs.read_block_for_update(block, &mut bytes)?;
        let limit: usize = dir_block_limit(metadata.len, logical);
        match take_out(&mut bytes, limit, wanted)? {
            Some(child) => {
                fs.write_through(block, &bytes)?;
                let refreshed = inode::load(fs, parent)?;
                inode::store(fs, parent, &refreshed)?;
                return Ok(child);
            },
            None => {},
        }
        logical = logical + 1;
    }
    Err(Ext2Error::NotFound)
}

} // verus!
