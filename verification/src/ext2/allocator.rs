//! Claiming and releasing blocks and inodes.
use vstd::prelude::*;

use crate::block::BlockDevice;
use crate::bytes::{le16, le32, put_u16, put_u32, splice, to_le16, to_le32};

use super::on_disk::{
    u16, u32, BLOCK_BYTES, GROUP_DESCRIPTOR_FREE_BLOCKS, GROUP_DESCRIPTOR_FREE_INODES,
    SUPERBLOCK_FREE_BLOCKS, SUPERBLOCK_FREE_INODES,
};
use super::validate::Geometry;
use super::volume::{corrupt, Step, Volume};
use super::{Ext2, Ext2Error, PROFILE_BLOCKS};

verus! {

/// Inodes in the file system.
pub const PROFILE_INODES: u32 = 4_096;

/// Inodes with a fixed meaning, which are never handed out.
pub const RESERVED_INODES: u32 = 10;

/// The block that holds the superblock.
pub const SUPERBLOCK_BLOCK: u32 = 0;

/// The block that holds the group descriptor.
pub const GROUP_DESCRIPTOR_BLOCK: u32 = 1;

/// Where the superblock starts in its block.
pub const SUPERBLOCK_BASE: usize = 1024;

/// Whether bit `bit` of a byte is set.
pub open spec fn bit_set(byte: u8, bit: u8) -> bool {
    (byte >> bit) & 1 == 1
}

/// A byte with bit `bit` set or cleared.
pub open spec fn put_bit(byte: u8, bit: u8, on: bool) -> u8 {
    if on {
        byte | (1u8 << bit)
    } else {
        byte & !(1u8 << bit)
    }
}

/// Whether a bitmap marks `index` as used.
pub open spec fn marked(bitmap: Seq<u8>, index: int) -> bool {
    bit_set(bitmap[index / 8], (index % 8) as u8)
}

/// A bitmap with the mark of `index` set or cleared.
pub open spec fn with_mark(bitmap: Seq<u8>, index: int, on: bool) -> Seq<u8> {
    bitmap.update(index / 8, put_bit(bitmap[index / 8], (index % 8) as u8, on))
}

proof fn lemma_put_bit(byte: u8, bit: u8, other: u8, on: bool)
    requires
        bit < 8,
        other < 8,
    ensures
        bit_set(put_bit(byte, bit, on), other) == (if bit == other {
            on
        } else {
            bit_set(byte, other)
        }),
{
    let set = byte | (1u8 << bit);
    let cleared = byte & !(1u8 << bit);
    assert(((byte | (1u8 << bit)) >> other) & 1 == 1 <==> bit == other || (byte >> other) & 1 == 1)
        by (bit_vector)
        requires
            bit < 8,
            other < 8,
    ;
    assert(((byte & !(1u8 << bit)) >> other) & 1 == 1 <==> bit != other && (byte >> other) & 1 == 1)
        by (bit_vector)
        requires
            bit < 8,
            other < 8,
    ;
}

/// Marking one index leaves the other marks as they were.
pub proof fn lemma_with_mark(bitmap: Seq<u8>, index: int, on: bool, other: int)
    requires
        0 <= index < 8 * bitmap.len(),
        0 <= other < 8 * bitmap.len(),
    ensures
        marked(with_mark(bitmap, index, on), other) == (if index == other {
            on
        } else {
            marked(bitmap, other)
        }),
{
    lemma_put_bit(bitmap[index / 8], (index % 8) as u8, (other % 8) as u8, on);
}

/// A block that can be claimed: unmarked, and not part of the file system's own records.
pub open spec fn free_block(bitmap: Seq<u8>, geometry: Geometry, block: int) -> bool {
    !geometry.structural(block as u32) && !marked(bitmap, block)
}

/// The first block from `from` on that can be claimed.
pub open spec fn first_free_block(bitmap: Seq<u8>, geometry: Geometry, from: int) -> Option<u32>
    decreases PROFILE_BLOCKS - from,
{
    if from >= PROFILE_BLOCKS {
        None
    } else if free_block(bitmap, geometry, from) {
        Some(from as u32)
    } else {
        first_free_block(bitmap, geometry, from + 1)
    }
}

/// The first inode from `from` on that is unmarked. Inode `n` has mark `n - 1`.
pub open spec fn first_free_inode(bitmap: Seq<u8>, from: int) -> Option<u32>
    decreases PROFILE_INODES + 1 - from,
{
    if from > PROFILE_INODES {
        None
    } else if !marked(bitmap, from - 1) {
        Some(from as u32)
    } else {
        first_free_inode(bitmap, from + 1)
    }
}

/// Which of the two free counts an operation changes.
pub struct Counter {
    pub super_offset: usize,
    pub group_offset: usize,
    pub field: &'static str,
}

impl Counter {
    /// The counts lie inside their blocks and do not overlap what else is there.
    pub open spec fn wf(self) -> bool {
        self.super_offset + 4 <= BLOCK_BYTES && self.group_offset + 2 <= BLOCK_BYTES
    }
}

pub open spec fn block_counter() -> Counter {
    Counter {
        super_offset: (SUPERBLOCK_BASE + SUPERBLOCK_FREE_BLOCKS) as usize,
        group_offset: GROUP_DESCRIPTOR_FREE_BLOCKS,
        field: "free_blocks",
    }
}

pub open spec fn inode_counter() -> Counter {
    Counter {
        super_offset: (SUPERBLOCK_BASE + SUPERBLOCK_FREE_INODES) as usize,
        group_offset: GROUP_DESCRIPTOR_FREE_INODES,
        field: "free_inodes",
    }
}

/// The superblock and the group descriptor with a count one lower or one higher, where both
/// counts stay in range.
pub open spec fn counted(
    superblock: Seq<u8>,
    group: Seq<u8>,
    counter: Counter,
    decrement: bool,
) -> Option<(Seq<u8>, Seq<u8>)> {
    let step: int = if decrement { -1 } else { 1 };
    let total = le32(superblock, counter.super_offset as int) + step;
    let in_group = le16(group, counter.group_offset as int) + step;
    if 0 <= total <= u32::MAX && 0 <= in_group <= u16::MAX {
        Some(
            (
                splice(superblock, counter.super_offset as int, to_le32(total as u32)),
                splice(group, counter.group_offset as int, to_le16(in_group as u16)),
            ),
        )
    } else {
        None
    }
}

/// Changes a free count by one.
#[verifier::opaque]
pub open spec fn adjust_counts_step(v: Volume, counter: Counter, decrement: bool) -> Step<()> {
    v.read_for_update(SUPERBLOCK_BLOCK).and_then(
        |superblock: Seq<u8>, v: Volume|
            v.read_for_update(GROUP_DESCRIPTOR_BLOCK).and_then(
                |group: Seq<u8>, v: Volume|
                    match counted(superblock, group, counter, decrement) {
                        None => v.fail(corrupt(counter.field)),
                        Some((superblock, group)) => v.write(
                            SUPERBLOCK_BLOCK,
                            superblock,
                        ).and_then(|u: (), v: Volume| v.write(GROUP_DESCRIPTOR_BLOCK, group)),
                    },
            ),
    )
}

/// Claims the first free block.
#[verifier::opaque]
pub open spec fn claim_block_step(v: Volume) -> Step<u32> {
    match v.writable() {
        Err(e) => v.fail(e),
        Ok(()) => v.read_for_update(v.geometry.block_bitmap).and_then(
            |bitmap: Seq<u8>, v: Volume|
                match first_free_block(bitmap, v.geometry, 0) {
                    None => v.fail(Ext2Error::NoSpace),
                    Some(block) => mark_step(
                        v,
                        v.geometry.block_bitmap,
                        with_mark(bitmap, block as int, true),
                        block_counter(),
                        true,
                    ).and_then(|u: (), v: Volume| v.done(block)),
                },
        ),
    }
}

/// Writes a changed bitmap and the changed count, and makes both durable.
#[verifier::opaque]
pub open spec fn mark_step(
    v: Volume,
    bitmap_block: u32,
    bitmap: Seq<u8>,
    counter: Counter,
    decrement: bool,
) -> Step<()> {
    v.write(bitmap_block, bitmap).and_then(
        |u: (), v: Volume|
            adjust_counts_step(v, counter, decrement).and_then(|u: (), v: Volume| v.flush()),
    )
}

/// Releases a block.
#[verifier::opaque]
pub open spec fn release_block_step(v: Volume, block: u32) -> Step<()> {
    match v.writable() {
        Err(e) => v.fail(e),
        Ok(()) => if block >= PROFILE_BLOCKS || v.geometry.structural(block) {
            v.fail(corrupt("block_pointer"))
        } else {
            v.read_for_update(v.geometry.block_bitmap).and_then(
                |bitmap: Seq<u8>, v: Volume|
                    mark_step(
                        v,
                        v.geometry.block_bitmap,
                        with_mark(bitmap, block as int, false),
                        block_counter(),
                        false,
                    ),
            )
        },
    }
}

/// Claims the first free inode.
#[verifier::opaque]
pub open spec fn claim_inode_step(v: Volume) -> Step<u32> {
    match v.writable() {
        Err(e) => v.fail(e),
        Ok(()) => v.read_for_update(v.geometry.inode_bitmap).and_then(
            |bitmap: Seq<u8>, v: Volume|
                match first_free_inode(bitmap, RESERVED_INODES + 1) {
                    None => v.fail(Ext2Error::NoSpace),
                    Some(inode) => mark_step(
                        v,
                        v.geometry.inode_bitmap,
                        with_mark(bitmap, inode - 1, true),
                        inode_counter(),
                        true,
                    ).and_then(|u: (), v: Volume| v.done(inode)),
                },
        ),
    }
}

/// Releases an inode.
#[verifier::opaque]
pub open spec fn release_inode_step(v: Volume, inode: u32) -> Step<()> {
    match v.writable() {
        Err(e) => v.fail(e),
        Ok(()) => if inode <= RESERVED_INODES || inode > PROFILE_INODES {
            v.fail(corrupt("inode_bitmap"))
        } else {
            v.read_for_update(v.geometry.inode_bitmap).and_then(
                |bitmap: Seq<u8>, v: Volume|
                    mark_step(
                        v,
                        v.geometry.inode_bitmap,
                        with_mark(bitmap, inode - 1, false),
                        inode_counter(),
                        false,
                    ),
            )
        },
    }
}

/// Changes a free count by one.
fn adjust_counts<D: BlockDevice>(fs: &mut Ext2<D>, counter: Counter, decrement: bool) -> (r: Result<
    (),
    Ext2Error,
>)
    requires
        old(fs).wf(),
        counter.wf(),
    ensures
        final(fs).wf(),
        (Step { result: r, volume: final(fs).volume() }) == adjust_counts_step(
            old(fs).volume(),
            counter,
            decrement,
        ),
{
    proof {
        reveal(adjust_counts_step);
    }
    let mut superblock = [0u8; BLOCK_BYTES];
    fs.read_block_for_update(SUPERBLOCK_BLOCK, &mut superblock)?;
    let mut group = [0u8; BLOCK_BYTES];
    fs.read_block_for_update(GROUP_DESCRIPTOR_BLOCK, &mut group)?;
    let total: u32 = u32(&superblock, counter.super_offset, counter.field)?;
    let in_group: u16 = u16(&group, counter.group_offset, counter.field)?;
    if decrement {
        if total == 0 || in_group == 0 {
            return Err(Ext2Error::CorruptMetadata { field: counter.field });
        }
        put_u32(&mut superblock, counter.super_offset, total - 1);
        put_u16(&mut group, counter.group_offset, in_group - 1);
    } else {
        if total == u32::MAX || in_group == u16::MAX {
            return Err(Ext2Error::CorruptMetadata { field: counter.field });
        }
        put_u32(&mut superblock, counter.super_offset, total + 1);
        put_u16(&mut group, counter.group_offset, in_group + 1);
    }
    fs.write_block(SUPERBLOCK_BLOCK, &superblock)?;
    fs.write_block(GROUP_DESCRIPTOR_BLOCK, &group)
}

/// Changes the free block count by one.
fn adjust_block_counts<D: BlockDevice>(fs: &mut Ext2<D>, decrement: bool) -> (r: Result<
    (),
    Ext2Error,
>)
    requires
        old(fs).wf(),
    ensures
        final(fs).wf(),
        (Step { result: r, volume: final(fs).volume() }) == adjust_counts_step(
            old(fs).volume(),
            block_counter(),
            decrement,
        ),
{
    let counter = Counter {
        super_offset: SUPERBLOCK_BASE + SUPERBLOCK_FREE_BLOCKS,
        group_offset: GROUP_DESCRIPTOR_FREE_BLOCKS,
        field: "free_blocks",
    };
    adjust_counts(fs, counter, decrement)
}

/// Changes the free inode count by one.
fn adjust_inode_counts<D: BlockDevice>(fs: &mut Ext2<D>, decrement: bool) -> (r: Result<
    (),
    Ext2Error,
>)
    requires
        old(fs).wf(),
    ensures
        final(fs).wf(),
        (Step { result: r, volume: final(fs).volume() }) == adjust_counts_step(
            old(fs).volume(),
            inode_counter(),
            decrement,
        ),
{
    let counter = Counter {
        super_offset: SUPERBLOCK_BASE + SUPERBLOCK_FREE_INODES,
        group_offset: GROUP_DESCRIPTOR_FREE_INODES,
        field: "free_inodes",
    };
    adjust_counts(fs, counter, decrement)
}

/// Whether a bitmap marks `index` as used.
fn is_marked(bitmap: &[u8; BLOCK_BYTES], index: u32) -> (r: bool)
    requires
        index < 8 * BLOCK_BYTES,
    ensures
        r == marked(bitmap@, index as int),
{
    let bit: u8 = (index % 8) as u8;
    (bitmap[(index / 8) as usize] >> bit) & 1 == 1
}

/// Sets or clears the mark of `index`.
fn set_mark(bitmap: &mut [u8; BLOCK_BYTES], index: u32, on: bool)
    requires
        index < 8 * BLOCK_BYTES,
    ensures
        final(bitmap)@ == with_mark(old(bitmap)@, index as int, on),
{
    let bit: u8 = (index % 8) as u8;
    let byte: u8 = bitmap[(index / 8) as usize];
    if on {
        bitmap[(index / 8) as usize] = byte | (1u8 << bit);
    } else {
        bitmap[(index / 8) as usize] = byte & !(1u8 << bit);
    }
}

/// Claims the first free block.
pub(crate) fn claim_block<D: BlockDevice>(fs: &mut Ext2<D>) -> (r: Result<u32, Ext2Error>)
    requires
        old(fs).wf(),
    ensures
        final(fs).wf(),
        (Step { result: r, volume: final(fs).volume() }) == claim_block_step(old(fs).volume()),
{
    proof {
        reveal(claim_block_step);
        reveal(mark_step);
    }
    fs.require_writable()?;
    let geometry = fs.geometry();
    let mut bitmap = [0u8; BLOCK_BYTES];
    fs.read_block_for_update(geometry.block_bitmap, &mut bitmap)?;
    let ghost v = fs.volume();
    let mut block: u32 = 0;
    while block < PROFILE_BLOCKS
        invariant
            block <= PROFILE_BLOCKS,
            fs.volume() == v,
            geometry == v.geometry,
            first_free_block(bitmap@, geometry, 0) == first_free_block(
                bitmap@,
                geometry,
                block as int,
            ),
            fs.wf(),
            claim_block_step(old(fs).volume()) == (match first_free_block(bitmap@, geometry, 0) {
                None => v.fail(Ext2Error::NoSpace),
                Some(block) => mark_step(
                    v,
                    geometry.block_bitmap,
                    with_mark(bitmap@, block as int, true),
                    block_counter(),
                    true,
                ).and_then(|u: (), v: Volume| v.done(block)),
            }),
        decreases PROFILE_BLOCKS - block,
    {
        if !geometry.is_structural_metadata_block(block) && !is_marked(&bitmap, block) {
            proof {
                reveal(mark_step);
            }
            set_mark(&mut bitmap, block, true);
            fs.write_block(geometry.block_bitmap, &bitmap)?;
            adjust_block_counts(fs, true)?;
            fs.flush()?;
            return Ok(block);
        }
        block = block + 1;
    }
    Err(Ext2Error::NoSpace)
}

/// Releases a block.
pub(crate) fn release_block<D: BlockDevice>(
    fs: &mut Ext2<D>,
    block: u32,
) -> (r: Result<(), Ext2Error>)
    requires
        old(fs).wf(),
    ensures
        final(fs).wf(),
        (Step { result: r, volume: final(fs).volume() }) == release_block_step(
            old(fs).volume(),
            block,
        ),
{
    proof {
        reveal(release_block_step);
        reveal(mark_step);
    }
    fs.require_writable()?;
    let geometry = fs.geometry();
    if block >= PROFILE_BLOCKS || geometry.is_structural_metadata_block(block) {
        return Err(Ext2Error::CorruptMetadata { field: "block_pointer" });
    }
    let mut bitmap = [0u8; BLOCK_BYTES];
    fs.read_block_for_update(geometry.block_bitmap, &mut bitmap)?;
    set_mark(&mut bitmap, block, false);
    fs.write_block(geometry.block_bitmap, &bitmap)?;
    adjust_block_counts(fs, false)?;
    fs.flush()
}

/// Claims the first free inode.
pub(crate) fn claim_inode<D: BlockDevice>(fs: &mut Ext2<D>) -> (r: Result<u32, Ext2Error>)
    requires
        old(fs).wf(),
    ensures
        final(fs).wf(),
        (Step { result: r, volume: final(fs).volume() }) == claim_inode_step(old(fs).volume()),
{
    proof {
        reveal(claim_inode_step);
        reveal(mark_step);
    }
    fs.require_writable()?;
    let geometry = fs.geometry();
    let mut bitmap = [0u8; BLOCK_BYTES];
    fs.read_block_for_update(geometry.inode_bitmap, &mut bitmap)?;
    let ghost v = fs.volume();
    let mut inode: u32 = RESERVED_INODES + 1;
    while inode <= PROFILE_INODES
        invariant
            RESERVED_INODES < inode <= PROFILE_INODES + 1,
            fs.volume() == v,
            geometry == v.geometry,
            first_free_inode(bitmap@, RESERVED_INODES + 1) == first_free_inode(
                bitmap@,
                inode as int,
            ),
            fs.wf(),
            claim_inode_step(old(fs).volume()) == (match first_free_inode(
                bitmap@,
                RESERVED_INODES + 1,
            ) {
                None => v.fail(Ext2Error::NoSpace),
                Some(inode) => mark_step(
                    v,
                    geometry.inode_bitmap,
                    with_mark(bitmap@, inode - 1, true),
                    inode_counter(),
                    true,
                ).and_then(|u: (), v: Volume| v.done(inode)),
            }),
        decreases PROFILE_INODES + 1 - inode,
    {
        if !is_marked(&bitmap, inode - 1) {
            proof {
                reveal(mark_step);
            }
            set_mark(&mut bitmap, inode - 1, true);
            fs.write_block(geometry.inode_bitmap, &bitmap)?;
            adjust_inode_counts(fs, true)?;
            fs.flush()?;
            return Ok(inode);
        }
        inode = inode + 1;
    }
    Err(Ext2Error::NoSpace)
}

/// Releases an inode.
pub(crate) fn release_inode<D: BlockDevice>(
    fs: &mut Ext2<D>,
    inode: u32,
) -> (r: Result<(), Ext2Error>)
    requires
        old(fs).wf(),
    ensures
        final(fs).wf(),
        (Step { result: r, volume: final(fs).volume() }) == release_inode_step(
            old(fs).volume(),
            inode,
        ),
{
    proof {
        reveal(release_inode_step);
        reveal(mark_step);
    }
    fs.require_writable()?;
    if inode <= RESERVED_INODES || inode > PROFILE_INODES {
        return Err(Ext2Error::CorruptMetadata { field: "inode_bitmap" });
    }
    let geometry = fs.geometry();
    let mut bitmap = [0u8; BLOCK_BYTES];
    fs.read_block_for_update(geometry.inode_bitmap, &mut bitmap)?;
    set_mark(&mut bitmap, inode - 1, false);
    fs.write_block(geometry.inode_bitmap, &bitmap)?;
    adjust_inode_counts(fs, false)?;
    fs.flush()
}

} // verus!
