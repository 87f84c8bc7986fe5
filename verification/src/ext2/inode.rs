//! Inode records, and the file contents that they describe.
use vstd::prelude::*;

use crate::block::BlockDevice;
use crate::bytes::{copy_range, get_u32, le16, le32, put_bytes, splice};
use crate::fs::{Metadata, NodeId, NodeKind};

use super::allocator::PROFILE_INODES;
use super::on_disk::{
    u16, u32, BLOCK_BYTES, INODE_BLOCK, INODE_FLAGS, INODE_MODE, INODE_SIZE_HIGH, INODE_SIZE_LO,
};
use super::validate::Geometry;
use super::volume::{corrupt, Step, Volume};
use super::{Ext2, Ext2Error};

verus! {

pub const INODE_BYTES: usize = 256;

/// Inode records in a block.
pub const INODES_PER_BLOCK: u32 = 16;

/// Data blocks that an inode names itself.
pub const DIRECT_BLOCKS: u32 = 12;

/// Data blocks that the indirect block names.
pub const INDIRECT_BLOCKS: u32 = 1_024;

/// The longest file: all direct and indirect blocks.
pub const MAX_FILE_BYTES: u64 = 4_243_456;

/// The file type is the mode divided by this; the permissions are the remainder.
pub const MODE_TYPE_UNIT: u16 = 0x1000;

pub const TYPE_REGULAR: u16 = 8;

pub const TYPE_DIRECTORY: u16 = 4;

/// An inode record.
pub struct Inode {
    pub bytes: [u8; INODE_BYTES],
}

/// What an inode record says of its file.
pub open spec fn metadata_of(record: Seq<u8>) -> Result<Metadata, Ext2Error> {
    let mode = le16(record, INODE_MODE as int);
    let len = le32(record, INODE_SIZE_LO as int) as u64;
    let permissions = (mode % MODE_TYPE_UNIT) as u16;
    if mode / MODE_TYPE_UNIT == TYPE_REGULAR {
        Ok(Metadata { kind: NodeKind::Regular, len, mode: permissions })
    } else if mode / MODE_TYPE_UNIT == TYPE_DIRECTORY {
        Ok(Metadata { kind: NodeKind::Directory, len, mode: permissions })
    } else {
        Err(corrupt("inode_mode"))
    }
}

/// Block pointer `index` of an inode record. Pointer 12 is that of the indirect block.
pub open spec fn pointer_of(record: Seq<u8>, index: int) -> u32 {
    le32(record, INODE_BLOCK + 4 * index)
}

/// The record is of a kind of file that this file system handles.
pub open spec fn supported(record: Seq<u8>) -> bool {
    &&& metadata_of(record) is Ok
    &&& le32(record, INODE_FLAGS as int) == 0
    &&& metadata_of(record)->Ok_0.kind == NodeKind::Regular ==> le32(record, INODE_SIZE_HIGH as int)
        == 0
    &&& metadata_of(record)->Ok_0.len <= MAX_FILE_BYTES
    &&& pointer_of(record, 13) == 0
    &&& pointer_of(record, 14) == 0
}

/// The block of the inode table that holds a node's record.
pub open spec fn table_block(geometry: Geometry, node: NodeId) -> u32 {
    (geometry.inode_table + (node.0 - 1) / (INODES_PER_BLOCK as int)) as u32
}

/// Where a node's record starts in its block.
pub open spec fn record_start(node: NodeId) -> int {
    (node.0 - 1) % (INODES_PER_BLOCK as int) * INODE_BYTES
}

pub open spec fn valid_node(node: NodeId) -> bool {
    2 <= node.0 <= PROFILE_INODES
}

/// A node's record as the table block holds it.
pub open spec fn record_in(table: Seq<u8>, node: NodeId) -> Seq<u8> {
    table.subrange(record_start(node), record_start(node) + INODE_BYTES)
}

/// Loads a node's record.
pub open spec fn load_step(v: Volume, node: NodeId) -> Step<Seq<u8>> {
    if !valid_node(node) {
        v.fail(Ext2Error::InvalidNode)
    } else {
        v.read(table_block(v.geometry, node)).and_then(
            |table: Seq<u8>, v: Volume|
                if supported(record_in(table, node)) {
                    v.done(record_in(table, node))
                } else {
                    v.fail(Ext2Error::UnsupportedFile)
                },
        )
    }
}

/// Loads a node's record and what it says.
pub open spec fn metadata_step(v: Volume, node: NodeId) -> Step<Metadata> {
    load_step(v, node).and_then(|record: Seq<u8>, v: Volume| Step { result: metadata_of(record), volume: v })
}

/// Stores a node's record and makes it durable.
#[verifier::opaque]
pub open spec fn store_step(v: Volume, node: NodeId, record: Seq<u8>) -> Step<()> {
    if !valid_node(node) {
        v.fail(Ext2Error::InvalidNode)
    } else {
        v.read_for_update(table_block(v.geometry, node)).and_then(
            |table: Seq<u8>, v: Volume|
                v.write_through(
                    table_block(v.geometry, node),
                    splice(table, record_start(node), record),
                ),
        )
    }
}

/// A pointer that names a data block, and why not.
pub open spec fn data_pointer(geometry: Geometry, block: u32) -> Result<u32, Ext2Error> {
    if block == 0 {
        Err(Ext2Error::SparseFile)
    } else if geometry.structural(block) {
        Err(corrupt("block_pointer"))
    } else {
        Ok(block)
    }
}

/// Entry `index` of an indirect block.
pub open spec fn entry_of(content: Seq<u8>, index: int) -> u32 {
    le32(content, 4 * index)
}

/// Finds the block that holds logical block `logical` of a file.
pub open spec fn resolve_step(v: Volume, record: Seq<u8>, logical: int) -> Step<u32> {
    if logical < DIRECT_BLOCKS {
        Step { result: data_pointer(v.geometry, pointer_of(record, logical)), volume: v }
    } else if logical < DIRECT_BLOCKS + INDIRECT_BLOCKS {
        match data_pointer(v.geometry, pointer_of(record, 12)) {
            Err(e) => v.fail(e),
            Ok(indirect) => v.read(indirect).and_then(
                |content: Seq<u8>, v: Volume|
                    Step {
                        result: data_pointer(
                            v.geometry,
                            entry_of(content, logical - DIRECT_BLOCKS),
                        ),
                        volume: v,
                    },
            ),
        }
    } else {
        v.fail(Ext2Error::UnsupportedFile)
    }
}

/// Loads one logical block of a file.
pub open spec fn load_block_step(v: Volume, record: Seq<u8>, logical: int) -> Step<Seq<u8>> {
    resolve_step(v, record, logical).and_then(|block: u32, v: Volume| v.read(block))
}

/// The lesser of two numbers.
pub open spec fn lesser(a: int, b: int) -> int {
    if a <= b {
        a
    } else {
        b
    }
}

/// Copies the file's bytes from `offset + copied` to `offset + length` into `dst`, block by
/// block. Also says what `dst` holds afterwards, whether or not all of it was read.
pub open spec fn read_from(
    v: Volume,
    record: Seq<u8>,
    offset: int,
    copied: int,
    length: int,
    dst: Seq<u8>,
) -> (Step<()>, Seq<u8>)
    decreases length - copied,
{
    if copied >= length {
        (v.done(()), dst)
    } else {
        let position = offset + copied;
        let within = position % (BLOCK_BYTES as int);
        let count = lesser(length - copied, BLOCK_BYTES - within);
        let s = load_block_step(v, record, position / (BLOCK_BYTES as int));
        match s.result {
            Err(e) => (s.volume.fail(e), dst),
            Ok(data) => if count <= 0 {
                (s.volume.done(()), dst)
            } else {
                read_from(
                    s.volume,
                    record,
                    offset,
                    copied + count,
                    length,
                    splice(dst, copied, data.subrange(within, within + count)),
                )
            },
        }
    }
}

/// Reads a file's bytes from `offset` on into `dst`: as many as the file has and `dst` takes.
pub open spec fn read_at_step(
    v: Volume,
    node: NodeId,
    offset: u64,
    dst: Seq<u8>,
) -> (Step<usize>, Seq<u8>) {
    if dst.len() == 0 {
        (v.done(0), dst)
    } else {
        let s = load_step(v, node);
        match s.result {
            Err(e) => (s.volume.fail(e), dst),
            Ok(record) => {
                let metadata = metadata_of(record)->Ok_0;
                if metadata.kind != NodeKind::Regular {
                    (s.volume.fail(Ext2Error::WrongNodeKind), dst)
                } else if offset >= metadata.len {
                    (s.volume.done(0), dst)
                } else {
                    let length = lesser(metadata.len - offset, dst.len() as int);
                    let (t, read) = read_from(s.volume, record, offset as int, 0, length, dst);
                    (t.and_then(|u: (), v: Volume| v.done(length as usize)), read)
                }
            },
        }
    }
}

impl Inode {
    /// What the record says of its file.
    pub fn metadata(&self) -> (r: Result<Metadata, Ext2Error>)
        ensures
            r == metadata_of(self.bytes@),
    {
        let mode: u16 = u16(&self.bytes, INODE_MODE, "inode_mode")?;
        let kind = if mode / MODE_TYPE_UNIT == TYPE_REGULAR {
            NodeKind::Regular
        } else if mode / MODE_TYPE_UNIT == TYPE_DIRECTORY {
            NodeKind::Directory
        } else {
            return Err(Ext2Error::CorruptMetadata { field: "inode_mode" });
        };
        let len: u32 = u32(&self.bytes, INODE_SIZE_LO, "inode_size")?;
        Ok(Metadata { kind, len: len as u64, mode: mode % MODE_TYPE_UNIT })
    }

    /// Block pointer `index`.
    pub(crate) fn pointer(&self, index: usize) -> (pointer: u32)
        requires
            index <= 14,
        ensures
            pointer == pointer_of(self.bytes@, index as int),
    {
        get_u32(&self.bytes, INODE_BLOCK + 4 * index)
    }

    /// A copy of the record.
    pub(crate) fn copy(&self) -> (r: Inode)
        ensures
            r.bytes@ == self.bytes@,
    {
        Inode { bytes: self.bytes }
    }
}

/// Refuses a record that this file system does not handle.
fn validate(inode: &Inode) -> (r: Result<(), Ext2Error>)
    ensures
        r == (if supported(inode.bytes@) {
            Ok(())
        } else {
            Err(Ext2Error::UnsupportedFile)
        }),
{
    let metadata = match inode.metadata() {
        Ok(metadata) => metadata,
        Err(_) => return Err(Ext2Error::UnsupportedFile),
    };
    if get_u32(&inode.bytes, INODE_FLAGS) != 0 {
        return Err(Ext2Error::UnsupportedFile);
    }
    if metadata.kind == NodeKind::Regular && get_u32(&inode.bytes, INODE_SIZE_HIGH) != 0 {
        return Err(Ext2Error::UnsupportedFile);
    }
    if metadata.len > MAX_FILE_BYTES {
        return Err(Ext2Error::UnsupportedFile);
    }
    if inode.pointer(13) != 0 || inode.pointer(14) != 0 {
        return Err(Ext2Error::UnsupportedFile);
    }
    Ok(())
}

/// Loads a node's record.
pub(crate) fn load<D: BlockDevice>(fs: &mut Ext2<D>, node: NodeId) -> (r: Result<Inode, Ext2Error>)
    requires
        old(fs).wf(),
    ensures
        final(fs).wf(),
        final(fs).volume() == load_step(old(fs).volume(), node).volume,
        match load_step(old(fs).volume(), node).result {
            Ok(record) => r is Ok && r->Ok_0.bytes@ == record && supported(record),
            Err(e) => r is Err && r->Err_0 == e,
        },
{
    if node.0 < 2 || node.0 > PROFILE_INODES {
        return Err(Ext2Error::InvalidNode);
    }
    proof {
        fs.lemma_wf();
    }
    let block: u32 = fs.geometry().inode_table + (node.0 - 1) / INODES_PER_BLOCK;
    let mut bytes = [0u8; BLOCK_BYTES];
    fs.read_block(block, &mut bytes)?;
    let start: usize = ((node.0 - 1) % INODES_PER_BLOCK) as usize * INODE_BYTES;
    let record = copy_range(&bytes, start, start + INODE_BYTES);
    let mut inode = Inode { bytes: [0u8; INODE_BYTES] };
    put_bytes(&mut inode.bytes, 0, record.as_slice());
    assert(inode.bytes@ =~= record_in(bytes@, node));
    validate(&inode)?;
    Ok(inode)
}

/// Stores a node's record and makes it durable.
pub(crate) fn store<D: BlockDevice>(fs: &mut Ext2<D>, node: NodeId, inode: &Inode) -> (r: Result<
    (),
    Ext2Error,
>)
    requires
        old(fs).wf(),
    ensures
        final(fs).wf(),
        (Step { result: r, volume: final(fs).volume() }) == store_step(
            old(fs).volume(),
            node,
            inode.bytes@,
        ),
{
    proof {
        reveal(store_step);
    }
    if node.0 < 2 || node.0 > PROFILE_INODES {
        return Err(Ext2Error::InvalidNode);
    }
    proof {
        fs.lemma_wf();
    }
    let block: u32 = fs.geometry().inode_table + (node.0 - 1) / INODES_PER_BLOCK;
    let mut bytes = [0u8; BLOCK_BYTES];
    fs.read_block_for_update(block, &mut bytes)?;
    let start: usize = ((node.0 - 1) % INODES_PER_BLOCK) as usize * INODE_BYTES;
    put_bytes(&mut bytes, start, &inode.bytes);
    fs.write_through(block, &bytes)
}

/// A pointer that names a data block, and why not.
fn require_data_block(geometry: &Geometry, block: u32) -> (r: Result<u32, Ext2Error>)
    ensures
        r == data_pointer(*geometry, block),
{
    if block == 0 {
        return Err(Ext2Error::SparseFile);
    }
    if geometry.is_structural_metadata_block(block) {
        return Err(Ext2Error::CorruptMetadata { field: "block_pointer" });
    }
    Ok(block)
}

/// Finds the block that holds a logical block of a file.
pub(crate) fn resolve_block<D: BlockDevice>(
    fs: &mut Ext2<D>,
    inode: &Inode,
    logical_block: u32,
) -> (r: Result<u32, Ext2Error>)
    requires
        old(fs).wf(),
    ensures
        final(fs).wf(),
        (Step { result: r, volume: final(fs).volume() }) == resolve_step(
            old(fs).volume(),
            inode.bytes@,
            logical_block as int,
        ),
{
    let geometry = fs.geometry();
    if logical_block < DIRECT_BLOCKS {
        require_data_block(&geometry, inode.pointer(logical_block as usize))
    } else if logical_block < DIRECT_BLOCKS + INDIRECT_BLOCKS {
        let indirect: u32 = require_data_block(&geometry, inode.pointer(12))?;
        let mut pointers = [0u8; BLOCK_BYTES];
        fs.read_block(indirect, &mut pointers)?;
        let index: usize = (logical_block - DIRECT_BLOCKS) as usize;
        require_data_block(&geometry, get_u32(&pointers, 4 * index))
    } else {
        Err(Ext2Error::UnsupportedFile)
    }
}

/// Reads a file's bytes from `offset` on into `dst`: as many as the file has and `dst` takes.
pub(crate) fn read_at<D: BlockDevice>(
    fs: &mut Ext2<D>,
    node: NodeId,
    offset: u64,
    dst: &mut [u8],
) -> (r: Result<usize, Ext2Error>)
    requires
        old(fs).wf(),
    ensures
        final(fs).wf(),
        final(dst)@.len() == old(dst)@.len(),
        ((Step { result: r, volume: final(fs).volume() }), final(dst)@) == read_at_step(
            old(fs).volume(),
            node,
            offset,
            old(dst)@,
        ),
{
    if dst.len() == 0 {
        return Ok(0);
    }
    let inode = load(fs, node)?;
    let metadata = inode.metadata()?;
    if metadata.kind != NodeKind::Regular {
        return Err(Ext2Error::WrongNodeKind);
    }
    if offset >= metadata.len {
        return Ok(0);
    }
    let available: u64 = metadata.len - offset;
    let length: usize = if available <= dst.len() as u64 {
        available as usize
    } else {
        dst.len()
    };
    let ghost whole = read_from(fs.volume(), inode.bytes@, offset as int, 0, length as int, dst@);
    let mut copied: usize = 0;
    let mut data = [0u8; BLOCK_BYTES];
    while copied < length
        invariant
            fs.wf(),
            copied <= length <= dst@.len(),
            dst@.len() == old(dst)@.len(),
            offset + length <= MAX_FILE_BYTES,
            whole == read_from(
                fs.volume(),
                inode.bytes@,
                offset as int,
                copied as int,
                length as int,
                dst@,
            ),
            read_at_step(old(fs).volume(), node, offset, old(dst)@) == (
                whole.0.and_then(|u: (), v: Volume| v.done(length)),
                whole.1,
            ),
        decreases length - copied,
    {
        let position: u64 = offset + copied as u64;
        let logical_block: u32 = (position / BLOCK_BYTES as u64) as u32;
        let block_offset: usize = (position % BLOCK_BYTES as u64) as usize;
        let block: u32 = resolve_block(fs, &inode, logical_block)?;
        fs.read_block(block, &mut data)?;
        let count: usize = if length - copied <= BLOCK_BYTES - block_offset {
            length - copied
        } else {
            BLOCK_BYTES - block_offset
        };
        let part = copy_range(&data, block_offset, block_offset + count);
        put_bytes(dst, copied, part.as_slice());
        copied = copied + count;
    }
    Ok(copied)
}

} // verus!
